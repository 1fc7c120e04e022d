use vstd::arithmetic::div_mod::lemma_fundamental_div_mod_converse;
use vstd::prelude::*;

verus! {

/// The number of bits that tells `n` values apart: the least `b` with `2^b >= n`.
pub open spec fn ceil_log2(n: nat) -> nat
    decreases n,
{
    if n <= 1 {
        0
    } else {
        1 + ceil_log2(((n + 1) / 2) as nat)
    }
}

/// The width of one packed entry for a palette of `palette_len` entries.
pub open spec fn bits_for(palette_len: nat, min_bits: nat) -> nat {
    if ceil_log2(palette_len) < min_bits {
        min_bits
    } else {
        ceil_log2(palette_len)
    }
}

/// How many entries of width `bits` one 64-bit word holds.
pub open spec fn per_word(bits: nat) -> nat {
    64nat / bits
}

pub open spec fn low_mask(bits: u64) -> u64 {
    ((1u64 << bits) - 1u64) as u64
}

/// Entry `slot` of a packed word: the `bits` bits that start at bit `slot * bits`.
pub open spec fn field(word: i64, bits: nat, slot: int) -> u64 {
    ((word as u64) >> ((slot * bits) as u64)) & low_mask(bits as u64)
}

/// `words` packs `vals` with entries of width `bits`: `64 / bits` entries per
/// word from bit 0 upwards, none across a word boundary, every unused slot and
/// every bit above the last slot zero.
pub open spec fn packed_layout(words: Seq<i64>, vals: Seq<u16>, bits: nat) -> bool {
    let per = per_word(bits);
    &&& words.len() == (vals.len() + per - 1) / (per as int)
    &&& forall|k: int|
        0 <= k < vals.len() ==> #[trigger] vals[k] as u64 == field(words[k / per as int], bits, k % per as int)
    &&& forall|w: int, j: int|
        0 <= w < words.len() && 0 <= j < per && w * per + j >= vals.len() ==> #[trigger] field(
            words[w],
            bits,
            j,
        ) == 0
    &&& per * bits < 64 ==> forall|w: int|
        0 <= w < words.len() ==> (#[trigger] words[w] as u64) >> ((per * bits) as u64) == 0
}

proof fn lemma_or_keeps_lower(acc: u64, v: u64, s: u64, b: u64, s2: u64)
    requires
        1 <= b <= 16,
        s + b <= 64,
        s2 + b <= s,
        acc >> s == 0,
        v <= low_mask(b),
    ensures
        ((acc | (v << s)) >> s2) & low_mask(b) == (acc >> s2) & low_mask(b),
{
    assert(((acc | (v << s)) >> s2) & low_mask(b) == (acc >> s2) & low_mask(b)) by (bit_vector)
        requires
            1 <= b <= 16,
            s + b <= 64,
            s2 + b <= s,
            acc >> s == 0,
            v <= low_mask(b),
    ;
}

proof fn lemma_or_places(acc: u64, v: u64, s: u64, b: u64)
    requires
        1 <= b <= 16,
        s + b <= 64,
        acc >> s == 0,
        v <= low_mask(b),
    ensures
        ((acc | (v << s)) >> s) & low_mask(b) == v,
        (acc | (v << s)) >> ((s + b) as u64) == 0,
{
    assert(((acc | (v << s)) >> s) & low_mask(b) == v && (acc | (v << s)) >> ((s + b) as u64)
        == 0) by (bit_vector)
        requires
            1 <= b <= 16,
            s + b <= 64,
            acc >> s == 0,
            v <= low_mask(b),
    ;
}

proof fn lemma_zero_above(acc: u64, s: u64, s2: u64, b: u64)
    requires
        acc >> s == 0,
        s <= s2,
    ensures
        (acc >> s2) & low_mask(b) == 0,
{
    assert((acc >> s2) & low_mask(b) == 0) by (bit_vector)
        requires
            acc >> s == 0,
            s <= s2,
    ;
}

proof fn lemma_mask_bound(x: u64, b: u64)
    requires
        1 <= b <= 16,
    ensures
        x & low_mask(b) <= low_mask(b),
        low_mask(b) < 0x10000,
        1u64 << b >= 1,
        low_mask(b) == (1u64 << b) - 1,
{
    assert(x & low_mask(b) <= low_mask(b) && low_mask(b) < 0x10000 && 1u64 << b >= 1 && low_mask(b)
        == (1u64 << b) - 1) by (bit_vector)
        requires
            1 <= b <= 16,
    ;
}

proof fn lemma_word_cast(x: u64)
    ensures
        (x as i64) as u64 == x,
{
    assert((x as i64) as u64 == x) by (bit_vector);
}

proof fn lemma_ceil_log2_bound(n: nat)
    requires
        n <= 65536,
    ensures
        ceil_log2(n) <= 16,
{
    vstd::arithmetic::power2::lemma2_to64();
    lemma_ceil_log2_upper(n, 16);
}

proof fn lemma_ceil_log2_upper(n: nat, b: nat)
    requires
        n <= vstd::arithmetic::power2::pow2(b),
    ensures
        ceil_log2(n) <= b,
    decreases n,
{
    vstd::arithmetic::power2::lemma_pow2_pos(b);
    if n > 1 {
        assert(b > 0) by {
            if b == 0 {
                vstd::arithmetic::power2::lemma2_to64();
            }
        }
        vstd::arithmetic::power2::lemma_pow2_unfold(b);
        lemma_ceil_log2_upper(((n + 1) / 2) as nat, (b - 1) as nat);
    }
}

/// Computes `bits_for(palette_len, min_bits)`.
pub fn bits_for_len(palette_len: usize, min_bits: u32) -> (r: u32)
    requires
        palette_len <= 65536,
        min_bits <= 16,
    ensures
        r as nat == bits_for(palette_len as nat, min_bits as nat),
        r <= 16,
{
    let mut b: u32 = 0;
    let mut m: usize = palette_len;
    proof {
        lemma_ceil_log2_bound(palette_len as nat);
    }
    while m > 1
        invariant
            ceil_log2(palette_len as nat) == b + ceil_log2(m as nat),
            m <= 65536,
            b <= 16,
            ceil_log2(palette_len as nat) <= 16,
        decreases m,
    {
        m = (m + 1) / 2;
        b = b + 1;
    }
    if b < min_bits {
        min_bits
    } else {
        b
    }
}

proof fn lemma_ceil_div(n: int, per: int, len: int)
    requires
        per > 0,
        n >= 0,
        len >= 0,
        n <= len * per,
        len > 0 ==> (len - 1) * per < n,
    ensures
        len == (n + per - 1) / per,
{
    if len == 0 {
        assert(n == 0) by (nonlinear_arith)
            requires
                n <= len * per,
                len == 0,
                n >= 0,
        ;
        assert((per - 1) / per == 0) by (nonlinear_arith)
            requires
                per > 0,
        ;
    } else {
        let r = n + per - 1 - (len - 1) * per - (per - 1);
        assert(n + per - 1 == (len - 1) * per + (per - 1) + r);
        assert((len - 1) * per + per == len * per) by (nonlinear_arith);
        lemma_fundamental_div_mod_converse(n + per - 1, per, len, n - 1 - (len - 1) * per);
    }
}

proof fn lemma_split_index(k: int, w: int, per: int)
    requires
        per > 0,
        w >= 0,
        w * per <= k < w * per + per,
    ensures
        k / per == w,
        k % per == k - w * per,
{
    lemma_fundamental_div_mod_converse(k, per, w, k - w * per);
}

/// Packs palette indices into 64-bit words, `64 / bits` entries per word from
/// bit 0 upwards, where `bits` is the larger of `min_bits` and the width that
/// `palette_len` values need.
pub fn pack_data(data: Vec<u16>, palette_len: &usize, min_bits: u32) -> (r: Vec<i64>)
    requires
        1 <= *palette_len <= 65536,
        min_bits <= 16,
        bits_for(*palette_len as nat, min_bits as nat) >= 1,
        forall|i: int|
            0 <= i < data@.len() ==> (data@[i] as nat) < vstd::arithmetic::power2::pow2(
                bits_for(*palette_len as nat, min_bits as nat),
            ),
    ensures
        packed_layout(r@, data@, bits_for(*palette_len as nat, min_bits as nat)),
{
    let bits = bits_for_len(*palette_len, min_bits);
    let ghost nb = bits as nat;
    let per: usize = (64 / bits) as usize;
    assert(per as nat == per_word(nb));
    assert(per * bits <= 64 && per >= 4) by (nonlinear_arith)
        requires
            per == 64int / (bits as int),
            1 <= bits <= 16,
    ;
    let n = data.len();
    let mut packed: Vec<i64> = Vec::new();
    let mut start: usize = 0;
    assert(0 * per == 0);
    while start < n
        invariant
            per as nat == per_word(nb),
            per * bits <= 64,
            per >= 4,
            1 <= bits <= 16,
            nb == bits as nat,
            nb == bits_for(*palette_len as nat, min_bits as nat),
            n == data@.len(),
            forall|i: int|
                0 <= i < data@.len() ==> (data@[i] as nat) < vstd::arithmetic::power2::pow2(nb),
            start <= n,
            start <= packed@.len() * per,
            packed@.len() > 0 ==> (packed@.len() - 1) * per < start,
            start < n ==> start == packed@.len() * per,
            forall|k: int|
                0 <= k < start ==> #[trigger] data@[k] as u64 == field(
                    packed@[k / per as int],
                    nb,
                    k % per as int,
                ),
            forall|w: int, j: int|
                0 <= w < packed@.len() && 0 <= j < per && w * per + j >= n ==> #[trigger] field(
                    packed@[w],
                    nb,
                    j,
                ) == 0,
            per * bits < 64 ==> forall|w: int|
                0 <= w < packed@.len() ==> (#[trigger] packed@[w] as u64) >> ((per * bits) as u64)
                    == 0,
        decreases n - start,
    {
        let mut acc: u64 = 0;
        let mut j: usize = 0;
        assert(0u64 >> 0u64 == 0) by (bit_vector);
        while j < per && j < n - start
            invariant
                nb == bits_for(*palette_len as nat, min_bits as nat),
                per as nat == per_word(nb),
                per * bits <= 64,
                per >= 4,
                1 <= bits <= 16,
                nb == bits as nat,
                start < n,
                n == data@.len(),
                j <= per,
                j <= n - start,
                forall|i: int|
                    0 <= i < data@.len() ==> (data@[i] as nat) < vstd::arithmetic::power2::pow2(nb),
                acc >> ((j * bits) as u64) == 0,
                forall|j2: int|
                    0 <= j2 < j ==> #[trigger] field(acc as i64, nb, j2) == data@[start + j2] as u64,
            decreases per - j,
        {
            let v = data[start + j] as u64;
            assert(j * bits + bits <= 64) by (nonlinear_arith)
                requires
                    j < per,
                    per * bits <= 64,
                    bits >= 1,
            ;
            let s: u64 = j as u64 * bits as u64;
            proof {
                lemma_word_cast(acc);
                assert(v <= low_mask(bits as u64)) by {
                    assert((data@[start + j] as nat) < vstd::arithmetic::power2::pow2(nb));
                    lemma_pow2_mask(bits as u64);
                }
                let na = acc | (v << s);
                lemma_word_cast(na);
                assert forall|j2: int| 0 <= j2 < j + 1 implies #[trigger] field(na as i64, nb, j2)
                    == data@[start + j2] as u64 by {
                    if j2 < j {
                        assert(j2 * bits + bits <= j * bits) by (nonlinear_arith)
                            requires
                                j2 < j,
                                bits >= 1,
                        ;
                        lemma_or_keeps_lower(acc, v, s, bits as u64, (j2 * bits) as u64);
                        assert(field(acc as i64, nb, j2) == data@[start + j2] as u64);
                    } else {
                        lemma_or_places(acc, v, s, bits as u64);
                    }
                }
                lemma_or_places(acc, v, s, bits as u64);
                assert((j + 1) * bits == j * bits + bits) by (nonlinear_arith);
            }
            acc = acc | (v << s);
            j = j + 1;
        }
        let ghost w = packed@.len() as int;
        let ghost before = packed@;
        assert(j > 0);
        proof {
            lemma_word_cast(acc);
            assert forall|j2: int| 0 <= j2 < per && w * per + j2 >= n implies #[trigger] field(
                acc as i64,
                nb,
                j2,
            ) == 0 by {
                assert(j2 >= j);
                assert(j * bits <= j2 * bits && j2 * bits <= 64) by (nonlinear_arith)
                    requires
                        j <= j2,
                        j2 < per,
                        per * bits <= 64,
                        bits >= 1,
                ;
                lemma_zero_above(acc, (j * bits) as u64, (j2 * bits) as u64, bits as u64);
            }
            if per * bits < 64 {
                assert(j * bits <= per * bits) by (nonlinear_arith)
                    requires
                        j <= per,
                        bits >= 1,
                ;
                lemma_zero_above(acc, (j * bits) as u64, (per * bits) as u64, 0xffff_ffff_ffff_ffffu64);
                assert(acc >> ((per * bits) as u64) == 0) by (bit_vector)
                    requires
                        acc >> ((j * bits) as u64) == 0,
                        (j * bits) as u64 <= (per * bits) as u64,
                ;
            }
        }
        packed.push(acc as i64);
        proof {
            assert forall|k: int| 0 <= k < start + j implies #[trigger] data@[k] as u64 == field(
                packed@[k / per as int],
                nb,
                k % per as int,
            ) by {
                if k >= start {
                    lemma_split_index(k, w, per as int);
                    assert(field(acc as i64, nb, k - start) == data@[start + (k - start)] as u64);
                } else {
                    vstd::arithmetic::div_mod::lemma_fundamental_div_mod(k, per as int);
                    assert(k / per as int <= w - 1) by (nonlinear_arith)
                        requires
                            k == per * (k / per as int) + k % per as int,
                            k % per as int >= 0,
                            k < start,
                            start == w * per,
                            per > 0,
                    ;
                    assert(k / per as int >= 0) by (nonlinear_arith)
                        requires
                            k >= 0,
                            per > 0,
                    ;
                    assert(packed@[k / per as int] == before[k / per as int]);
                }
            }
            assert forall|w2: int, j2: int|
                0 <= w2 < packed@.len() && 0 <= j2 < per && w2 * per + j2 >= n implies #[trigger] field(
                packed@[w2],
                nb,
                j2,
            ) == 0 by {
                if w2 == w {
                    assert(packed@[w2] == acc as i64);
                }
            }
            if j < per {
                assert(start + j == n);
            }
            assert((w + 1) * per == w * per + per) by (nonlinear_arith);
        }
        start = start + j;
    }
    proof {
        lemma_ceil_div(n as int, per as int, packed@.len() as int);
    }
    packed
}

proof fn lemma_ceil_log2_pow(n: nat)
    ensures
        n <= vstd::arithmetic::power2::pow2(ceil_log2(n)),
    decreases n,
{
    vstd::arithmetic::power2::lemma_pow2_pos(ceil_log2(n));
    if n > 1 {
        lemma_ceil_log2_pow(((n + 1) / 2) as nat);
        vstd::arithmetic::power2::lemma_pow2_unfold(ceil_log2(n));
    }
}

proof fn lemma_pow2_mask(b: u64)
    requires
        1 <= b <= 16,
    ensures
        low_mask(b) as nat + 1 == vstd::arithmetic::power2::pow2(b as nat),
{
    vstd::arithmetic::power2::lemma_pow2_pos(b as nat);
    vstd::arithmetic::power2::lemma2_to64();
    if b < 16 {
        vstd::arithmetic::power2::lemma_pow2_strictly_increases(b as nat, 16);
    }
    vstd::bits::lemma_u64_shl_is_mul(1, b);
    assert(1u64 << b >= 1) by (bit_vector)
        requires
            b <= 16,
    ;
}

/// Unpacks `64 / bits` entries from each word, lowest bits first, where `bits`
/// is the larger of `min_bits` and the width that `palette_len` values need.
/// The unused slots of the last word come out as zeros.
pub fn unpack_data(data: Vec<i64>, palette_len: &usize, min_bits: u32) -> (r: Vec<u16>)
    requires
        1 <= *palette_len <= 65536,
        min_bits <= 16,
        bits_for(*palette_len as nat, min_bits as nat) >= 1,
    ensures
        r@.len() == data@.len() * per_word(bits_for(*palette_len as nat, min_bits as nat)),
        forall|k: int|
            0 <= k < r@.len() ==> #[trigger] r@[k] as u64 == field(
                data@[k / per_word(bits_for(*palette_len as nat, min_bits as nat)) as int],
                bits_for(*palette_len as nat, min_bits as nat),
                k % per_word(bits_for(*palette_len as nat, min_bits as nat)) as int,
            ),
{
    let bits = bits_for_len(*palette_len, min_bits);
    let ghost nb = bits as nat;
    let per: usize = (64 / bits) as usize;
    assert(per * bits <= 64 && per >= 4) by (nonlinear_arith)
        requires
            per == 64int / (bits as int),
            1 <= bits <= 16,
    ;
    proof {
        lemma_mask_bound(0, bits as u64);
    }
    let mask: u64 = (1u64 << bits as u64) - 1;
    let mut out: Vec<u16> = Vec::new();
    let mut w: usize = 0;
    while w < data.len()
        invariant
            per as nat == per_word(nb),
            per * bits <= 64,
            per >= 4,
            1 <= bits <= 16,
            nb == bits as nat,
            mask == low_mask(bits as u64),
            w <= data@.len(),
            out@.len() == w * per,
            forall|k: int|
                0 <= k < out@.len() ==> #[trigger] out@[k] as u64 == field(
                    data@[k / per as int],
                    nb,
                    k % per as int,
                ),
        decreases data@.len() - w,
    {
        let word = data[w] as u64;
        let mut j: usize = 0;
        let ghost before = out@;
        while j < per
            invariant
                per as nat == per_word(nb),
                per * bits <= 64,
                per >= 4,
                1 <= bits <= 16,
                nb == bits as nat,
                mask == low_mask(bits as u64),
                w < data@.len(),
                word == data@[w as int] as u64,
                j <= per,
                before.len() == w * per,
                out@.len() == w * per + j,
                forall|k: int| 0 <= k < before.len() ==> out@[k] == before[k],
                forall|j2: int|
                    0 <= j2 < j ==> #[trigger] out@[w * per + j2] as u64 == field(
                        data@[w as int],
                        nb,
                        j2,
                    ),
            decreases per - j,
        {
            assert(j * bits < 64) by (nonlinear_arith)
                requires
                    j < per,
                    per * bits <= 64,
                    bits >= 1,
            ;
            let v = (word >> (j as u64 * bits as u64)) & mask;
            proof {
                lemma_mask_bound(word >> (j as u64 * bits as u64), bits as u64);
            }
            out.push(v as u16);
            j = j + 1;
        }
        proof {
            assert forall|k: int| 0 <= k < out@.len() implies #[trigger] out@[k] as u64 == field(
                data@[k / per as int],
                nb,
                k % per as int,
            ) by {
                if k >= w * per {
                    lemma_split_index(k, w as int, per as int);
                    assert(out@[w * per + (k - w * per)] as u64 == field(data@[w as int], nb, k - w * per));
                } else {
                    assert(out@[k] == before[k]);
                }
            }
            assert((w + 1) * per == w * per + per) by (nonlinear_arith);
        }
        w = w + 1;
    }
    out
}

/// Unpacking the words that pack a sequence of indices gives that sequence
/// back, followed only by the zeros of the last word's unused slots.
pub proof fn lemma_unpack_inverts_pack(
    words: Seq<i64>,
    vals: Seq<u16>,
    unpacked: Seq<u16>,
    bits: nat,
)
    requires
        1 <= bits <= 16,
        packed_layout(words, vals, bits),
        unpacked.len() == words.len() * per_word(bits),
        forall|k: int|
            0 <= k < unpacked.len() ==> #[trigger] unpacked[k] as u64 == field(
                words[k / per_word(bits) as int],
                bits,
                k % per_word(bits) as int,
            ),
    ensures
        vals.len() <= unpacked.len(),
        unpacked.take(vals.len() as int) == vals,
        forall|k: int| vals.len() <= k < unpacked.len() ==> unpacked[k] == 0,
{
    let per = per_word(bits) as int;
    assert(per >= 4) by (nonlinear_arith)
        requires
            per == 64int / (bits as int),
            1 <= bits <= 16,
    ;
    let n = vals.len() as int;
    let len = words.len() as int;
    assert(n <= len * per) by (nonlinear_arith)
        requires
            len == (n + per - 1) / per,
            per > 0,
            n >= 0,
    ;
    assert forall|k: int| 0 <= k < n implies unpacked[k] == vals[k] by {
        assert(vals[k] as u64 == field(words[k / per], bits, k % per));
        assert(unpacked[k] as u64 == field(words[k / per], bits, k % per));
    }
    assert(unpacked.take(n) =~= vals);
    assert forall|k: int| n <= k < unpacked.len() implies unpacked[k] == 0 by {
        vstd::arithmetic::div_mod::lemma_fundamental_div_mod(k, per);
        let w = k / per;
        let j = k % per;
        assert(0 <= j < per) by {
            vstd::arithmetic::div_mod::lemma_mod_bound(k, per);
        }
        assert(0 <= w < len) by (nonlinear_arith)
            requires
                k == per * w + j,
                0 <= j < per,
                k < len * per,
                k >= 0,
        ;
        assert(w * per + j >= n) by (nonlinear_arith)
            requires
                k == per * w + j,
                k >= n,
        ;
        assert(field(words[w], bits, j) == 0);
        assert(unpacked[k] as u64 == 0);
    }
}

/// The distinct values of `s` in the order in which they first occur.
pub open spec fn first_uses<V>(s: Seq<V>) -> Seq<V>
    decreases s.len(),
{
    if s.len() == 0 {
        Seq::empty()
    } else {
        let u = first_uses(s.drop_last());
        if u.contains(s.last()) {
            u
        } else {
            u.push(s.last())
        }
    }
}

/// The values of `first_uses(s)` are distinct, each occurs in `s`, each value
/// of `s` occurs in it, and it is no longer than `s`.
pub proof fn lemma_first_uses<V>(s: Seq<V>)
    ensures
        first_uses(s).no_duplicates(),
        first_uses(s).len() <= s.len(),
        forall|v: V| #[trigger] first_uses(s).contains(v) <==> s.contains(v),
    decreases s.len(),
{
    if s.len() > 0 {
        let p = s.drop_last();
        lemma_first_uses(p);
        assert forall|v: V| #[trigger] first_uses(s).contains(v) <==> s.contains(v) by {
            if s.contains(v) && v != s.last() {
                let i = choose|i: int| 0 <= i < s.len() && s[i] == v;
                assert(p[i] == v);
            }
            if p.contains(v) {
                let i = choose|i: int| 0 <= i < p.len() && p[i] == v;
                assert(s[i] == v);
            }
            if first_uses(p).contains(s.last()) {
            } else {
                let u = first_uses(p);
                if u.push(s.last()).contains(v) && v != s.last() {
                    let i = choose|i: int| 0 <= i < u.len() + 1 && u.push(s.last())[i] == v;
                    assert(u[i] == v);
                }
                if u.contains(v) {
                    let i = choose|i: int| 0 <= i < u.len() && u[i] == v;
                    assert(u.push(s.last())[i] == v);
                }
                assert(u.push(s.last())[u.len() as int] == s.last());
            }
            assert(s[s.len() - 1] == s.last());
        }
    }
}

/// `first_uses` commutes with a map that is one-to-one on the values of `s`.
pub proof fn lemma_first_uses_map<A, B>(s: Seq<A>, f: spec_fn(A) -> B)
    requires
        forall|a1: A, a2: A| s.contains(a1) && s.contains(a2) && f(a1) == f(a2) ==> a1 == a2,
    ensures
        first_uses(s.map_values(f)) == first_uses(s).map_values(f),
    decreases s.len(),
{
    if s.len() > 0 {
        let p = s.drop_last();
        assert forall|a1: A, a2: A| p.contains(a1) && p.contains(a2) && f(a1) == f(a2) implies a1
            == a2 by {
            let i = choose|i: int| 0 <= i < p.len() && p[i] == a1;
            let j = choose|j: int| 0 <= j < p.len() && p[j] == a2;
            assert(s[i] == p[i] && s[j] == p[j]);
            assert(s.contains(a1) && s.contains(a2));
        }
        lemma_first_uses_map(p, f);
        assert(s.map_values(f).drop_last() =~= p.map_values(f));
        assert(s.map_values(f).last() == f(s.last()));
        lemma_first_uses(p);
        let u = first_uses(p);
        assert(s.contains(s.last())) by {
            assert(s[s.len() - 1] == s.last());
        }
        if u.contains(s.last()) {
            let i = choose|i: int| 0 <= i < u.len() && u[i] == s.last();
            assert(u.map_values(f)[i] == f(s.last()));
        } else {
            assert(!u.map_values(f).contains(f(s.last()))) by {
                if u.map_values(f).contains(f(s.last())) {
                    let i = choose|i: int| 0 <= i < u.len() && u.map_values(f)[i] == f(s.last());
                    assert(u.contains(u[i]));
                    assert(p.contains(u[i]));
                    let j = choose|j: int| 0 <= j < p.len() && p[j] == u[i];
                    assert(s[j] == p[j]);
                    assert(s.contains(u[i]));
                    assert(f(u[i]) == f(s.last()));
                    assert(u[i] == s.last());
                }
            }
            assert(u.push(s.last()).map_values(f) =~= u.map_values(f).push(f(s.last())));
        }
    }
}

/// Renumbers palette indices in the order of their first use: `order` lists
/// the old indices that occur, first use first, and `renumbered[k]` is the
/// position in `order` of `data[k]`.
pub fn first_use_order(data: &Vec<u16>, palette_len: usize) -> (r: (Vec<u16>, Vec<u16>))
    requires
        palette_len <= 65536,
        data@.len() <= 65536,
        forall|i: int| 0 <= i < data@.len() ==> data@[i] < palette_len,
    ensures
        r.0@ == first_uses(data@),
        r.1@.len() == data@.len(),
        forall|k: int|
            0 <= k < data@.len() ==> #[trigger] r.1@[k] < r.0@.len() && r.0@[r.1@[k] as int]
                == data@[k],
{
    let unseen: u32 = 65536;
    let mut remap: Vec<u32> = Vec::new();
    let mut o: usize = 0;
    while o < palette_len
        invariant
            o <= palette_len,
            remap@.len() == o,
            forall|x: int| 0 <= x < o ==> remap@[x] == unseen,
        decreases palette_len - o,
    {
        remap.push(unseen);
        o = o + 1;
    }
    let mut order: Vec<u16> = Vec::new();
    let mut renumbered: Vec<u16> = Vec::new();
    let mut i: usize = 0;
    while i < data.len()
        invariant
            unseen == 65536,
            palette_len <= 65536,
            data@.len() <= 65536,
            forall|x: int| 0 <= x < data@.len() ==> data@[x] < palette_len,
            i <= data@.len(),
            remap@.len() == palette_len,
            order@ == first_uses(data@.take(i as int)),
            order@.len() <= i,
            renumbered@.len() == i,
            forall|x: int|
                0 <= x < palette_len ==> (#[trigger] remap@[x] == unseen <==> !order@.contains(
                    x as u16,
                )),
            forall|x: int|
                0 <= x < palette_len && #[trigger] remap@[x] != unseen ==> remap@[x] < order@.len()
                    && order@[remap@[x] as int] == x as u16,
            forall|k: int|
                0 <= k < i ==> #[trigger] renumbered@[k] < order@.len() && order@[renumbered@[k] as int]
                    == data@[k],
        decreases data@.len() - i,
    {
        let old_index = data[i];
        let ghost prefix = data@.take(i as int);
        assert(data@.take(i + 1).drop_last() =~= prefix);
        assert(data@.take(i + 1).last() == old_index);
        proof {
            lemma_first_uses(prefix);
        }
        if remap[old_index as usize] == unseen {
            let next = order.len() as u16;
            let ghost before = order@;
            let ghost remap_before = remap@;
            order.push(old_index);
            remap.set(old_index as usize, next as u32);
            proof {
                assert forall|x: int| 0 <= x < palette_len implies (#[trigger] remap@[x] == unseen
                    <==> !order@.contains(x as u16)) by {
                    if x == old_index as int {
                        assert(order@[before.len() as int] == old_index);
                        assert(order@.contains(x as u16));
                        assert(remap@[x] == next as u32);
                        assert(next < 65536);
                    } else {
                        assert(x as u16 != old_index);
                        assert(order@[before.len() as int] == old_index);
                        assert(remap@[x] == remap_before[x]);
                        assert(remap_before[x] == unseen <==> !before.contains(x as u16));
                        if order@.contains(x as u16) {
                            let q = choose|q: int| 0 <= q < order@.len() && order@[q] == x as u16;
                            assert(q < before.len());
                            assert(before.contains(x as u16));
                        }
                        if before.contains(x as u16) {
                            let q = choose|q: int| 0 <= q < before.len() && before[q] == x as u16;
                            assert(order@[q] == x as u16);
                        }
                    }
                }
                assert forall|k: int| 0 <= k < i + 1 implies #[trigger] renumbered@.push(next)[k]
                    < order@.len() && order@[renumbered@.push(next)[k] as int] == data@[k] by {
                    if k < i {
                        assert(renumbered@.push(next)[k] == renumbered@[k]);
                    }
                }
            }
            renumbered.push(next);
        } else {
            let next = remap[old_index as usize] as u16;
            proof {
                assert(order@.contains(old_index));
            }
            renumbered.push(next);
        }
        i = i + 1;
    }
    assert(data@.take(data@.len() as int) =~= data@);
    (order, renumbered)
}

/// A palette of up to 65536 entries packs at 1 to 16 bits once `min_bits`
/// is between 1 and 16.
pub proof fn lemma_bits_width(palette_len: nat, min_bits: nat)
    requires
        palette_len <= 65536,
        1 <= min_bits <= 16,
    ensures
        1 <= bits_for(palette_len, min_bits) <= 16,
{
    lemma_ceil_log2_bound(palette_len);
}

/// A palette position fits the width that the palette's length calls for.
pub proof fn lemma_index_fits(v: nat, n: nat, min_bits: nat)
    requires
        v < n <= 65536,
    ensures
        v < vstd::arithmetic::power2::pow2(bits_for(n, min_bits)),
{
    lemma_ceil_log2_pow(n);
    if ceil_log2(n) < bits_for(n, min_bits) {
        vstd::arithmetic::power2::lemma_pow2_strictly_increases(ceil_log2(n), bits_for(n, min_bits));
    }
}

} // verus!

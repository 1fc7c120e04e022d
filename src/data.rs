use crate::decompress::{bytes_result, decompressed, CompressionMode};
use crate::error::ConvertError;
use vstd::prelude::*;
use vstd::utf8::{decode_utf8, encode_utf8, encode_utf8_decode_utf8, valid_utf8};

verus! {

/// The position of a region: a square of 32x32 chunks, one file.
#[derive(Debug, Clone, Copy, PartialEq, Eq, Hash, Structural)]
pub struct RegionPos {
    pub x: i32,
    pub z: i32,
}

/// The position of a far-render section: a square of 64x64 columns.
#[derive(Debug, Clone, Copy, PartialEq, Eq, Hash, Structural)]
pub struct DHSectionPos {
    pub x: i32,
    pub z: i32,
}

/// The width of a far-render section, in columns.
pub const DH_SECTION_WIDTH: usize = 64;

impl DHSectionPos {
    /// The region that holds this section: eight sections to a region side.
    pub fn to_region_pos(self) -> (r: RegionPos)
        ensures
            r.x == self.x >> 3,
            r.z == self.z >> 3,
    {
        RegionPos { x: self.x >> 3, z: self.z >> 3 }
    }
}

impl RegionPos {
    /// The half-open ranges `[x0, x1)` and `[z0, z1)` of the section
    /// coordinates that belong to this region, as `(x0, x1, z0, z1)`.
    pub fn section_bounds(&self) -> (r: (i64, i64, i64, i64))
        ensures
            r.0 == self.x * 8,
            r.1 == self.x * 8 + 8,
            r.2 == self.z * 8,
            r.3 == self.z * 8 + 8,
    {
        let x0 = self.x as i64 * 8;
        let z0 = self.z as i64 * 8;
        (x0, x0 + 8, z0, z0 + 8)
    }
}

/// A section's region is `(x >> 3, z >> 3)`, and the section lies in the
/// 8x8 block of sections that starts at eight times that region.
pub proof fn lemma_section_in_its_region(s: DHSectionPos)
    ensures
        (s.x >> 3) * 8 <= s.x < (s.x >> 3) * 8 + 8,
        (s.z >> 3) * 8 <= s.z < (s.z >> 3) * 8 + 8,
{
    let x = s.x;
    let z = s.z;
    assert((x >> 3) * 8 <= x && x < (x >> 3) * 8 + 8) by (bit_vector);
    assert((z >> 3) * 8 <= z && z < (z >> 3) * 8 + 8) by (bit_vector);
}

/// One vertical run of a far-render column: the mapping entry it shows, its
/// height and its lowest block.
#[derive(Debug, Clone, Copy, PartialEq, Eq, Structural)]
pub struct DHFullDataPoint {
    pub id: i32,
    pub height: i32,
    pub min_y: i32,
}

/// The data point that a 64-bit word packs: `id` in bits 0..31, `height` in
/// bits 32..44 and `min_y` in bits 44..56.
pub open spec fn point_of_word(w: i64) -> DHFullDataPoint {
    DHFullDataPoint {
        id: (w & 0x7fff_ffff) as i32,
        height: ((w >> 32) & 0xfff) as i32,
        min_y: ((w >> 44) & 0xfff) as i32,
    }
}

/// The word that packs a data point.
pub open spec fn word_of_point(p: DHFullDataPoint) -> i64 {
    (p.id as i64) | ((p.height as i64) << 32) | ((p.min_y as i64) << 44)
}

/// Whether each field of a data point fits its width in the packed word.
pub open spec fn point_fits(p: DHFullDataPoint) -> bool {
    0 <= p.id < 0x8000_0000 && 0 <= p.height < 4096 && 0 <= p.min_y < 4096
}

impl DHFullDataPoint {
    /// Unpacks a data point from its word.
    pub fn from_word(w: i64) -> (r: DHFullDataPoint)
        ensures
            r == point_of_word(w),
            point_fits(r),
    {
        assert((w & 0x7fff_ffff) as i32 >= 0) by (bit_vector);
        assert(((w >> 32) & 0xfff) as i32 >= 0 && (((w >> 32) & 0xfff) as i32) < 4096) by (bit_vector);
        assert(((w >> 44) & 0xfff) as i32 >= 0 && (((w >> 44) & 0xfff) as i32) < 4096) by (bit_vector);
        DHFullDataPoint {
            id: (w & 0x7fff_ffff) as i32,
            height: ((w >> 32) & 0xfff) as i32,
            min_y: ((w >> 44) & 0xfff) as i32,
        }
    }

    /// Packs a data point into its word.
    pub fn to_word(&self) -> (r: i64)
        requires
            point_fits(*self),
        ensures
            r == word_of_point(*self),
    {
        (self.id as i64) | ((self.height as i64) << 32) | ((self.min_y as i64) << 44)
    }
}

/// Packing a data point whose fields fit their widths, then unpacking the
/// word, gives the data point back.
pub proof fn lemma_point_round_trip(p: DHFullDataPoint)
    requires
        point_fits(p),
    ensures
        point_of_word(word_of_point(p)) == p,
{
    let id = p.id;
    let h = p.height;
    let m = p.min_y;
    let w = word_of_point(p);
    assert((w & 0x7fff_ffff) as i32 == id) by (bit_vector)
        requires
            w == (id as i64) | ((h as i64) << 32) | ((m as i64) << 44),
            0 <= id < 0x8000_0000,
            0 <= h < 4096,
            0 <= m < 4096,
    ;
    assert(((w >> 32) & 0xfff) as i32 == h) by (bit_vector)
        requires
            w == (id as i64) | ((h as i64) << 32) | ((m as i64) << 44),
            0 <= id < 0x8000_0000,
            0 <= h < 4096,
            0 <= m < 4096,
    ;
    assert(((w >> 44) & 0xfff) as i32 == m) by (bit_vector)
        requires
            w == (id as i64) | ((h as i64) << 32) | ((m as i64) << 44),
            0 <= id < 0x8000_0000,
            0 <= h < 4096,
            0 <= m < 4096,
    ;
}

/// The big-endian 16-bit value at `at`.
pub open spec fn be_u16(b: Seq<u8>, at: int) -> u16 {
    ((b[at] as u16) << 8u16) | (b[at + 1] as u16)
}

/// The big-endian 32-bit value at `at`.
pub open spec fn be_u32(b: Seq<u8>, at: int) -> u32 {
    ((be_u16(b, at) as u32) << 16u32) | (be_u16(b, at + 2) as u32)
}

/// The big-endian 64-bit value at `at`.
pub open spec fn be_u64(b: Seq<u8>, at: int) -> u64 {
    ((be_u32(b, at) as u64) << 32u64) | (be_u32(b, at + 4) as u64)
}

fn read_u16(b: &[u8], at: usize) -> (r: u16)
    requires
        at + 2 <= b@.len(),
    ensures
        r == be_u16(b@, at as int),
{
    ((b[at] as u16) << 8u16) | (b[at + 1] as u16)
}

fn read_u32(b: &[u8], at: usize) -> (r: u32)
    requires
        at + 4 <= b@.len() <= usize::MAX,
    ensures
        r == be_u32(b@, at as int),
{
    ((read_u16(b, at) as u32) << 16u32) | (read_u16(b, at + 2) as u32)
}

fn read_u64(b: &[u8], at: usize) -> (r: u64)
    requires
        at + 8 <= b@.len() <= usize::MAX,
    ensures
        r == be_u64(b@, at as int),
{
    ((read_u32(b, at) as u64) << 32u64) | (read_u32(b, at + 4) as u64)
}

/// The `len` data points that start at `pos`.
pub open spec fn column_at(b: Seq<u8>, pos: int, len: int) -> Seq<DHFullDataPoint> {
    Seq::new(len as nat, |i: int| point_of_word(be_u64(b, pos + 8 * i) as i64))
}

/// Parses `n` columns from `pos` on: each a signed 16-bit big-endian count,
/// then that many 64-bit big-endian data points.
pub open spec fn columns_from(b: Seq<u8>, pos: int, n: nat) -> Result<
    Seq<Seq<DHFullDataPoint>>,
    ConvertError,
>
    decreases n,
{
    if n == 0 {
        Ok(Seq::empty())
    } else if pos + 2 > b.len() {
        Err(ConvertError::ShortBlob)
    } else {
        let len = be_u16(b, pos) as i16;
        if len < 0 {
            Err(ConvertError::NegativeLength)
        } else if pos + 2 + 8 * len > b.len() {
            Err(ConvertError::ShortBlob)
        } else {
            match columns_from(b, pos + 2 + 8 * len, (n - 1) as nat) {
                Ok(rest) => Ok(seq![column_at(b, pos + 2, len as int)] + rest),
                Err(e) => Err(e),
            }
        }
    }
}

/// The 64x64 columns of a decompressed section blob, indexed `x * 64 + z`.
pub open spec fn parsed_columns(b: Seq<u8>) -> Result<Seq<Seq<DHFullDataPoint>>, ConvertError> {
    columns_from(b, 0, 4096)
}

pub open spec fn columns_view(v: Seq<Vec<DHFullDataPoint>>) -> Seq<Seq<DHFullDataPoint>> {
    v.map_values(|c: Vec<DHFullDataPoint>| c@)
}

pub open spec fn prepend<T>(acc: Seq<T>, r: Result<Seq<T>, ConvertError>) -> Result<
    Seq<T>,
    ConvertError,
> {
    match r {
        Ok(rest) => Ok(acc + rest),
        Err(e) => Err(e),
    }
}

pub open spec fn columns_result(r: Result<Vec<Vec<DHFullDataPoint>>, ConvertError>) -> Result<
    Seq<Seq<DHFullDataPoint>>,
    ConvertError,
> {
    match r {
        Ok(v) => Ok(columns_view(v@)),
        Err(e) => Err(e),
    }
}

/// The columns of a column blob written with `mode`, or the error that its
/// decompression or its parsing gives.
pub open spec fn decoded_columns(mode: CompressionMode, data: Seq<u8>) -> Result<
    Seq<Seq<DHFullDataPoint>>,
    ConvertError,
> {
    match decompressed(mode, data) {
        Ok(b) => parsed_columns(b),
        Err(e) => Err(e),
    }
}

/// Parses the 64x64 columns of a decompressed section blob.
pub fn parse_columns(blob: &[u8]) -> (r: Result<Vec<Vec<DHFullDataPoint>>, ConvertError>)
    ensures
        match r {
            Ok(v) => parsed_columns(blob@) == Ok::<Seq<Seq<DHFullDataPoint>>, ConvertError>(
                columns_view(v@),
            ),
            Err(e) => parsed_columns(blob@) == Err::<Seq<Seq<DHFullDataPoint>>, ConvertError>(e),
        },
{
    let ghost b = blob@;
    let n = blob.len();
    let mut columns: Vec<Vec<DHFullDataPoint>> = Vec::new();
    let mut pos: usize = 0;
    let mut k: usize = 0;
    assert(columns_view(columns@) + columns_from(b, 0, 4096)->Ok_0 =~= columns_from(
        b,
        0,
        4096,
    )->Ok_0);
    while k < DH_SECTION_WIDTH * DH_SECTION_WIDTH
        invariant
            b == blob@,
            n == b.len(),
            k <= 4096,
            pos <= b.len(),
            columns@.len() == k,
            parsed_columns(b) == prepend(columns_view(columns@), columns_from(b, pos as int, (4096 - k) as nat)),
        decreases 4096 - k,
    {
        if blob.len() - pos < 2 {
            return Err(ConvertError::ShortBlob);
        }
        let len = read_u16(blob, pos) as i16;
        if len < 0 {
            return Err(ConvertError::NegativeLength);
        }
        if (blob.len() - pos - 2) / 8 < len as usize {
            return Err(ConvertError::ShortBlob);
        }
        let start = pos + 2;
        let mut column: Vec<DHFullDataPoint> = Vec::new();
        let mut i: usize = 0;
        while i < len as usize
            invariant
                b == blob@,
                n == b.len(),
                0 <= len,
                start + 8 * len <= b.len(),
                i <= len,
                column@ =~= column_at(b, start as int, i as int),
            decreases len - i,
        {
            let word = read_u64(blob, start + 8 * i) as i64;
            column.push(DHFullDataPoint::from_word(word));
            i = i + 1;
            assert(column@ =~= column_at(b, start as int, i as int));
        }
        let ghost before = columns_view(columns@);
        columns.push(column);
        proof {
            assert(columns_view(columns@) =~= before.push(column_at(b, pos + 2, len as int)));
            match columns_from(b, pos + 2 + 8 * len, (4096 - k - 1) as nat) {
                Ok(rest) => {
                    assert(before + (seq![column_at(b, pos + 2, len as int)] + rest) =~= before.push(
                        column_at(b, pos + 2, len as int),
                    ) + rest);
                },
                Err(e) => {},
            }
        }
        pos = start + 8 * (len as usize);
        k = k + 1;
    }
    assert(columns_view(columns@) + Seq::<Seq<DHFullDataPoint>>::empty() =~= columns_view(
        columns@,
    ));
    Ok(columns)
}

/// Decompresses a section's column blob and parses its columns.
pub fn deserialize_data(data: Vec<u8>, compression_mode: &CompressionMode) -> (r: Result<
    Vec<Vec<DHFullDataPoint>>,
    ConvertError,
>)
    ensures
        columns_result(r) == decoded_columns(*compression_mode, data@),
{
    let bytes = match compression_mode.decompress(data) {
        Ok(b) => b,
        Err(e) => return Err(e),
    };
    parse_columns(bytes.as_slice())
}

/// An entry of a section's mapping table, as the contracts see it: biome,
/// block (none for air) and block-state pairs in the order written.
pub type EntryView = (Seq<char>, Option<Seq<char>>, Seq<(Seq<char>, Seq<char>)>);

/// An entry of a section's mapping table: what a data point's `id` stands for.
#[derive(Debug)]
pub struct DHMappingEntry {
    pub biome: String,
    pub block: Option<String>,
    pub block_state: Vec<(String, String)>,
}

impl View for DHMappingEntry {
    type V = EntryView;

    open spec fn view(&self) -> EntryView {
        (
            self.biome@,
            match self.block {
                Some(b) => Some(b@),
                None => None,
            },
            crate::chunk::pairs_view(self.block_state@),
        )
    }
}

/// The bytes of `_DH-BSW_`, between biome and block.
pub open spec fn biome_separator() -> Seq<u8> {
    seq![95u8, 68u8, 72u8, 45u8, 66u8, 83u8, 87u8, 95u8]
}

/// The bytes of `_STATE_`, between block and states.
pub open spec fn state_separator() -> Seq<u8> {
    seq![95u8, 83u8, 84u8, 65u8, 84u8, 69u8, 95u8]
}

/// The bytes of `}{`, between two states.
pub open spec fn pair_separator() -> Seq<u8> {
    seq![125u8, 123u8]
}

/// The bytes of `:`, between key and value.
pub open spec fn key_separator() -> Seq<u8> {
    seq![58u8]
}

/// The bytes of `AIR`, the block name that stands for no block.
pub open spec fn air_marker() -> Seq<u8> {
    seq![65u8, 73u8, 82u8]
}

/// Whether `pat` occurs in `s` at `i`.
pub open spec fn occurs_at(s: Seq<u8>, pat: Seq<u8>, i: int) -> bool {
    0 <= i && i + pat.len() <= s.len() && s.subrange(i, i + pat.len()) == pat
}

/// The first position at or after `from` where `pat` occurs in `s`.
pub open spec fn find_from(s: Seq<u8>, pat: Seq<u8>, from: int) -> Option<int>
    decreases s.len() + 1 - from,
{
    if from < 0 || from + pat.len() > s.len() {
        None
    } else if occurs_at(s, pat, from) {
        Some(from)
    } else {
        find_from(s, pat, from + 1)
    }
}

/// The text that valid UTF-8 bytes encode.
pub open spec fn text_of(b: Seq<u8>) -> Option<Seq<char>> {
    if valid_utf8(b) {
        Some(decode_utf8(b))
    } else {
        None
    }
}

/// One `key:value` state, split at its first `:`.
pub open spec fn parsed_pair(p: Seq<u8>) -> Result<(Seq<char>, Seq<char>), ConvertError> {
    match find_from(p, key_separator(), 0) {
        None => Err(ConvertError::MalformedState),
        Some(c) => match (text_of(p.take(c)), text_of(p.skip(c + 1))) {
            (Some(k), Some(v)) => Ok((k, v)),
            _ => Err(ConvertError::InvalidUtf8),
        },
    }
}

/// The states of `b`, separated by `}{`.
pub open spec fn parsed_pairs(b: Seq<u8>) -> Result<Seq<(Seq<char>, Seq<char>)>, ConvertError>
    decreases b.len(),
{
    match find_from(b, pair_separator(), 0) {
        None => match parsed_pair(b) {
            Ok(p) => Ok(seq![p]),
            Err(e) => Err(e),
        },
        Some(i) => match parsed_pair(b.take(i)) {
            Err(e) => Err(e),
            Ok(p) => if 0 <= i && i + 2 <= b.len() {
                match parsed_pairs(b.skip(i + 2)) {
                    Ok(rest) => Ok(seq![p] + rest),
                    Err(e) => Err(e),
                }
            } else {
                Err(ConvertError::MalformedState)
            },
        },
    }
}

/// How many bytes the UTF-8 character that starts with `b` takes.
pub open spec fn lead_width(b: u8) -> int {
    if b < 0xc0 {
        1
    } else if b < 0xe0 {
        2
    } else if b < 0xf0 {
        3
    } else {
        4
    }
}

pub open spec fn is_continuation(b: u8) -> bool {
    0x80 <= b < 0xc0
}

/// How many bytes the last UTF-8 character of `b` takes: one, plus the
/// continuation bytes (at most three) that end `b`.
pub open spec fn tail_width(b: Seq<u8>) -> int {
    let n = b.len() as int;
    if n >= 2 && is_continuation(b[n - 1]) {
        if n >= 3 && is_continuation(b[n - 2]) {
            if n >= 4 && is_continuation(b[n - 3]) {
                4
            } else {
                3
            }
        } else {
            2
        }
    } else {
        1
    }
}

/// The states text with its first and last character trimmed.
pub open spec fn inner_states(b: Seq<u8>) -> Seq<u8> {
    if b.len() >= 2 && lead_width(b[0]) + tail_width(b) <= b.len() {
        b.subrange(lead_width(b[0]), b.len() - tail_width(b))
    } else {
        Seq::empty()
    }
}

/// One mapping entry: UTF-8 text `biome_DH-BSW_block`, optionally followed
/// by `_STATE_{k:v}{k:v}...`; the block `AIR` stands for no block.
pub open spec fn parsed_entry(s: Seq<u8>) -> Result<EntryView, ConvertError> {
    if text_of(s) is None {
        Err(ConvertError::InvalidUtf8)
    } else {
        parsed_entry_text(s)
    }
}

/// The parts of an entry whose bytes are valid UTF-8.
pub open spec fn parsed_entry_text(s: Seq<u8>) -> Result<EntryView, ConvertError> {
    match find_from(s, biome_separator(), 0) {
        None => Err(ConvertError::MissingSeparator),
        Some(i) => {
            let tail = s.skip(i + 8);
            let (block, states) = match find_from(tail, state_separator(), 0) {
                Some(j) => (tail.take(j), tail.skip(j + 7)),
                None => (tail, Seq::empty()),
            };
            match text_of(s.take(i)) {
                None => Err(ConvertError::InvalidUtf8),
                Some(biome) => if block == air_marker() {
                    Ok((biome, None, Seq::empty()))
                } else {
                    match text_of(block) {
                        None => Err(ConvertError::InvalidUtf8),
                        Some(name) => if states.len() == 0 {
                            Ok((biome, Some(name), Seq::empty()))
                        } else {
                            match parsed_pairs(inner_states(states)) {
                                Ok(pairs) => Ok((biome, Some(name), pairs)),
                                Err(e) => Err(e),
                            }
                        },
                    }
                },
            }
        },
    }
}

/// Relies on `String::from_utf8`: it accepts exactly the valid UTF-8 byte
/// vectors, and the string it returns holds those bytes.
#[verifier::external_body]
fn string_from_utf8(bytes: Vec<u8>) -> (r: Option<String>)
    ensures
        r is Some <==> valid_utf8(bytes@),
        r matches Some(s) ==> encode_utf8(s@) == bytes@,
{
    String::from_utf8(bytes).ok()
}

/// The bytes `b[lo..hi]`.
fn copy_range(b: &[u8], lo: usize, hi: usize) -> (r: Vec<u8>)
    requires
        lo <= hi <= b@.len(),
    ensures
        r@ == b@.subrange(lo as int, hi as int),
{
    let mut out: Vec<u8> = Vec::new();
    let mut i: usize = lo;
    while i < hi
        invariant
            lo <= i <= hi,
            hi <= b@.len(),
            out@ =~= b@.subrange(lo as int, i as int),
        decreases hi - i,
    {
        out.push(b[i]);
        i = i + 1;
    }
    out
}

/// The text of `b[lo..hi]`, if those bytes are valid UTF-8.
fn text_in(b: &Vec<u8>, lo: usize, hi: usize) -> (r: Option<String>)
    requires
        lo <= hi <= b@.len(),
    ensures
        match r {
            Some(s) => text_of(b@.subrange(lo as int, hi as int)) == Some(s@),
            None => text_of(b@.subrange(lo as int, hi as int)) is None,
        },
{
    let r = string_from_utf8(copy_range(b.as_slice(), lo, hi));
    proof {
        if r is Some {
            encode_utf8_decode_utf8(r->Some_0@);
        }
    }
    r
}

/// Whether `pat` occurs in `b` at `at`.
fn occurs(b: &Vec<u8>, pat: &Vec<u8>, at: usize) -> (r: bool)
    requires
        at <= b@.len(),
    ensures
        r == occurs_at(b@, pat@, at as int),
{
    let n = b.len();
    if n - at < pat.len() {
        return false;
    }
    let mut i: usize = 0;
    while i < pat.len()
        invariant
            n == b@.len(),
            at + pat@.len() <= b@.len(),
            i <= pat@.len(),
            forall|j: int| 0 <= j < i ==> b@[at + j] == pat@[j],
        decreases pat@.len() - i,
    {
        if b[at + i] != pat[i] {
            assert(b@.subrange(at as int, at + pat@.len())[i as int] != pat@[i as int]);
            return false;
        }
        i = i + 1;
    }
    assert(b@.subrange(at as int, at + pat@.len()) =~= pat@);
    true
}

/// The first position in `b[lo..hi]`, counted from `lo`, where `pat` occurs.
fn find_in(b: &Vec<u8>, lo: usize, hi: usize, pat: &Vec<u8>) -> (r: Option<usize>)
    requires
        lo <= hi <= b@.len(),
    ensures
        match r {
            Some(i) => find_from(b@.subrange(lo as int, hi as int), pat@, 0) == Some(i as int),
            None => find_from(b@.subrange(lo as int, hi as int), pat@, 0) is None,
        },
{
    let ghost s = b@.subrange(lo as int, hi as int);
    let mut i: usize = 0;
    while i <= hi - lo
        invariant
            lo <= hi <= b@.len(),
            s == b@.subrange(lo as int, hi as int),
            i <= hi - lo + 1,
            find_from(s, pat@, 0) == find_from(s, pat@, i as int),
        decreases hi - lo + 1 - i,
    {
        if hi - lo - i < pat.len() {
            return None;
        }
        let hit = occurs(b, pat, lo + i);
        assert(occurs_at(b@, pat@, lo + i) == occurs_at(s, pat@, i as int)) by {
            if i + pat@.len() <= s.len() {
                assert(b@.subrange(lo + i, lo + i + pat@.len()) =~= s.subrange(
                    i as int,
                    i + pat@.len(),
                ));
            }
        }
        if hit {
            return Some(i);
        }
        if i == hi - lo {
            assert(find_from(s, pat@, i + 1) is None);
            return None;
        }
        i = i + 1;
    }
    None
}

/// Parses one `key:value` state in `b[lo..hi]`.
fn parse_pair(b: &Vec<u8>, lo: usize, hi: usize) -> (r: Result<(String, String), ConvertError>)
    requires
        lo <= hi <= b@.len(),
    ensures
        match r {
            Ok(p) => parsed_pair(b@.subrange(lo as int, hi as int)) == Ok::<
                (Seq<char>, Seq<char>),
                ConvertError,
            >((p.0@, p.1@)),
            Err(e) => parsed_pair(b@.subrange(lo as int, hi as int)) == Err::<
                (Seq<char>, Seq<char>),
                ConvertError,
            >(e),
        },
{
    let ghost s = b@.subrange(lo as int, hi as int);
    let colon: Vec<u8> = vec![58u8];
    assert(colon@ =~= key_separator());
    match find_in(b, lo, hi, &colon) {
        None => Err(ConvertError::MalformedState),
        Some(c) => {
            proof {
                lemma_find_bounds(s, key_separator(), 0);
            }
            assert(s.take(c as int) =~= b@.subrange(lo as int, lo + c));
            assert(s.skip(c + 1) =~= b@.subrange(lo + c + 1, hi as int));
            let key = text_in(b, lo, lo + c);
            let value = text_in(b, lo + c + 1, hi);
            match (key, value) {
                (Some(k), Some(v)) => Ok((k, v)),
                _ => Err(ConvertError::InvalidUtf8),
            }
        },
    }
}

/// A position that `find_from` reports holds the pattern.
proof fn lemma_find_bounds(s: Seq<u8>, pat: Seq<u8>, from: int)
    ensures
        find_from(s, pat, from) matches Some(i) ==> from <= i && occurs_at(s, pat, i),
    decreases s.len() + 1 - from,
{
    if from >= 0 && from + pat.len() <= s.len() && !occurs_at(s, pat, from) {
        lemma_find_bounds(s, pat, from + 1);
    }
}

/// Parses the states in `b[lo..hi]`, separated by `}{`.
fn parse_pairs(b: &Vec<u8>, lo: usize, hi: usize) -> (r: Result<Vec<(String, String)>, ConvertError>)
    requires
        lo <= hi <= b@.len(),
    ensures
        match r {
            Ok(v) => parsed_pairs(b@.subrange(lo as int, hi as int)) == Ok::<
                Seq<(Seq<char>, Seq<char>)>,
                ConvertError,
            >(crate::chunk::pairs_view(v@)),
            Err(e) => parsed_pairs(b@.subrange(lo as int, hi as int)) == Err::<
                Seq<(Seq<char>, Seq<char>)>,
                ConvertError,
            >(e),
        },
{
    let sep: Vec<u8> = vec![125u8, 123u8];
    assert(sep@ =~= pair_separator());
    let mut pairs: Vec<(String, String)> = Vec::new();
    let mut start: usize = lo;
    assert(crate::chunk::pairs_view(pairs@) =~= Seq::empty());
    loop
        invariant
            lo <= start <= hi <= b@.len(),
            sep@ == pair_separator(),
            parsed_pairs(b@.subrange(lo as int, hi as int)) == prepend(
                crate::chunk::pairs_view(pairs@),
                parsed_pairs(b@.subrange(start as int, hi as int)),
            ),
        decreases hi - start,
    {
        let ghost s = b@.subrange(start as int, hi as int);
        match find_in(b, start, hi, &sep) {
            None => {
                let p = match parse_pair(b, start, hi) {
                    Ok(p) => p,
                    Err(e) => return Err(e),
                };
                let ghost before = crate::chunk::pairs_view(pairs@);
                pairs.push(p);
                assert(crate::chunk::pairs_view(pairs@) =~= before + seq![(p.0@, p.1@)]);
                return Ok(pairs);
            },
            Some(i) => {
                proof {
                    lemma_find_bounds(s, pair_separator(), 0);
                }
                assert(s.take(i as int) =~= b@.subrange(start as int, start + i));
                let p = match parse_pair(b, start, start + i) {
                    Ok(p) => p,
                    Err(e) => return Err(e),
                };
                assert(s.skip(i + 2) =~= b@.subrange(start + i + 2, hi as int));
                let ghost before = crate::chunk::pairs_view(pairs@);
                pairs.push(p);
                proof {
                    assert(crate::chunk::pairs_view(pairs@) =~= before.push((p.0@, p.1@)));
                    match parsed_pairs(b@.subrange(start + i + 2, hi as int)) {
                        Ok(rest) => {
                            assert(before + (seq![(p.0@, p.1@)] + rest) =~= before.push(
                                (p.0@, p.1@),
                            ) + rest);
                        },
                        Err(e) => {},
                    }
                }
                start = start + i + 2;
            },
        }
    }
}

fn lead_width_of(c: u8) -> (r: usize)
    ensures
        r == lead_width(c),
{
    if c < 0xc0 {
        1
    } else if c < 0xe0 {
        2
    } else if c < 0xf0 {
        3
    } else {
        4
    }
}

/// The range of `b[lo..hi]` left once its first and last characters are trimmed.
fn trimmed_range(b: &Vec<u8>, lo: usize, hi: usize) -> (r: (usize, usize))
    requires
        lo <= hi <= b@.len(),
    ensures
        r.0 <= r.1 <= b@.len(),
        b@.subrange(r.0 as int, r.1 as int) == inner_states(b@.subrange(lo as int, hi as int)),
{
    let ghost t = b@.subrange(lo as int, hi as int);
    if hi - lo < 2 {
        assert(b@.subrange(hi as int, hi as int) =~= Seq::<u8>::empty());
        return (hi, hi);
    }
    let lead = lead_width_of(b[lo]);
    let cont1 = 0x80 <= b[hi - 1] && b[hi - 1] < 0xc0;
    let cont2 = hi - lo >= 3 && 0x80 <= b[hi - 2] && b[hi - 2] < 0xc0;
    let cont3 = hi - lo >= 4 && 0x80 <= b[hi - 3] && b[hi - 3] < 0xc0;
    let tail: usize = if cont1 {
        if cont2 {
            if cont3 {
                4
            } else {
                3
            }
        } else {
            2
        }
    } else {
        1
    };
    assert(t[0] == b@[lo as int]);
    assert(tail == tail_width(t));
    if lead + tail > hi - lo {
        assert(b@.subrange(hi as int, hi as int) =~= Seq::<u8>::empty());
        return (hi, hi);
    }
    assert(b@.subrange(lo + lead, hi - tail) =~= t.subrange(lead as int, t.len() - tail));
    (lo + lead, hi - tail)
}

/// Parses one mapping entry held in `b`.
#[verifier::rlimit(60)]
pub fn parse_entry(b: &Vec<u8>) -> (r: Result<DHMappingEntry, ConvertError>)
    ensures
        match r {
            Ok(m) => parsed_entry(b@) == Ok::<EntryView, ConvertError>(m@),
            Err(e) => parsed_entry(b@) == Err::<EntryView, ConvertError>(e),
        },
{
    let ghost s = b@;
    let n = b.len();
    assert(b@.subrange(0, n as int) =~= s);
    if text_in(b, 0, n).is_none() {
        return Err(ConvertError::InvalidUtf8);
    }
    let bsw: Vec<u8> = vec![95u8, 68u8, 72u8, 45u8, 66u8, 83u8, 87u8, 95u8];
    assert(bsw@ =~= biome_separator());
    let i = match find_in(b, 0, n, &bsw) {
        None => {
            assert(b@.subrange(0, n as int) =~= s);
            return Err(ConvertError::MissingSeparator);
        },
        Some(i) => i,
    };
    assert(b@.subrange(0, n as int) =~= s);
    proof {
        lemma_find_bounds(s, biome_separator(), 0);
    }
    let ghost tail = s.skip(i + 8);
    let state_sep: Vec<u8> = vec![95u8, 83u8, 84u8, 65u8, 84u8, 69u8, 95u8];
    assert(state_sep@ =~= state_separator());
    assert(b@.subrange(i + 8, n as int) =~= tail);
    let (block_end, states_start) = match find_in(b, i + 8, n, &state_sep) {
        Some(j) => {
            proof {
                lemma_find_bounds(tail, state_separator(), 0);
            }
            (i + 8 + j, i + 8 + j + 7)
        },
        None => (n, n),
    };
    let ghost block = b@.subrange(i + 8, block_end as int);
    let ghost states = b@.subrange(states_start as int, n as int);
    assert(match find_from(tail, state_separator(), 0) {
        Some(j) => block == tail.take(j) && states == tail.skip(j + 7),
        None => block == tail && states == Seq::<u8>::empty(),
    }) by {
        match find_from(tail, state_separator(), 0) {
            Some(j) => {
                assert(block =~= tail.take(j));
                assert(states =~= tail.skip(j + 7));
            },
            None => {
                assert(block =~= tail);
                assert(states =~= Seq::<u8>::empty());
            },
        }
    }
    assert(s.take(i as int) =~= b@.subrange(0, i as int));
    let biome = match text_in(b, 0, i) {
        Some(t) => t,
        None => return Err(ConvertError::InvalidUtf8),
    };
    let air: Vec<u8> = vec![65u8, 73u8, 82u8];
    assert(air@ =~= air_marker());
    if block_end - (i + 8) == 3 && occurs(b, &air, i + 8) {
        assert(block =~= air_marker());
        let r = DHMappingEntry { biome, block: None, block_state: Vec::new() };
        assert(r@.2 =~= Seq::<(Seq<char>, Seq<char>)>::empty());
        return Ok(r);
    }
    assert(block != air_marker()) by {
        if block == air_marker() {
            assert(b@.subrange(i + 8, i + 8 + 3) =~= block);
        }
    }
    let name = match text_in(b, i + 8, block_end) {
        Some(t) => t,
        None => return Err(ConvertError::InvalidUtf8),
    };
    if states_start == n {
        let r = DHMappingEntry { biome, block: Some(name), block_state: Vec::new() };
        assert(r@.2 =~= Seq::<(Seq<char>, Seq<char>)>::empty());
        return Ok(r);
    }
    let (lo, hi) = trimmed_range(b, states_start, n);
    assert(b@.subrange(lo as int, hi as int) =~= inner_states(states));
    match parse_pairs(b, lo, hi) {
        Ok(pairs) => Ok(DHMappingEntry { biome, block: Some(name), block_state: pairs }),
        Err(e) => Err(e),
    }
}

pub open spec fn entries_view(v: Seq<DHMappingEntry>) -> Seq<EntryView> {
    v.map_values(|m: DHMappingEntry| m@)
}

/// Parses `n` mapping entries from `pos` on: each a signed 16-bit big-endian
/// length, then that many bytes of entry text.
pub open spec fn entries_from(b: Seq<u8>, pos: int, n: nat) -> Result<Seq<EntryView>, ConvertError>
    decreases n,
{
    if n == 0 {
        Ok(Seq::empty())
    } else if pos + 2 > b.len() {
        Err(ConvertError::ShortBlob)
    } else {
        let len = be_u16(b, pos) as i16;
        if len < 0 {
            Err(ConvertError::NegativeLength)
        } else if pos + 2 + len > b.len() {
            Err(ConvertError::ShortBlob)
        } else {
            match parsed_entry(b.subrange(pos + 2, pos + 2 + len)) {
                Err(e) => Err(e),
                Ok(m) => prepend(seq![m], entries_from(b, pos + 2 + len, (n - 1) as nat)),
            }
        }
    }
}

/// The mapping table of a decompressed blob: a signed 32-bit big-endian
/// count, which must be positive, then the entries.
pub open spec fn parsed_mapping(b: Seq<u8>) -> Result<Seq<EntryView>, ConvertError> {
    if b.len() < 4 {
        Err(ConvertError::ShortBlob)
    } else {
        let n = be_u32(b, 0) as i32;
        if n <= 0 {
            Err(ConvertError::NoMapping)
        } else {
            entries_from(b, 4, n as nat)
        }
    }
}

/// Parses the mapping table of a decompressed blob.
pub fn parse_mapping(blob: &[u8]) -> (r: Result<Vec<DHMappingEntry>, ConvertError>)
    ensures
        match r {
            Ok(v) => parsed_mapping(blob@) == Ok::<Seq<EntryView>, ConvertError>(entries_view(v@)),
            Err(e) => parsed_mapping(blob@) == Err::<Seq<EntryView>, ConvertError>(e),
        },
{
    let ghost b = blob@;
    let n = blob.len();
    if n < 4 {
        return Err(ConvertError::ShortBlob);
    }
    let count = read_u32(blob, 0) as i32;
    if count <= 0 {
        return Err(ConvertError::NoMapping);
    }
    let total = count as u32;
    let mut entries: Vec<DHMappingEntry> = Vec::new();
    let mut pos: usize = 4;
    let mut k: u32 = 0;
    assert(entries_view(entries@) =~= Seq::<EntryView>::empty());
    assert(Seq::<EntryView>::empty() + entries_from(b, 4, total as nat)->Ok_0 =~= entries_from(
        b,
        4,
        total as nat,
    )->Ok_0);
    while k < total
        invariant
            b == blob@,
            n == b.len(),
            total as int == count as int,
            count > 0,
            parsed_mapping(b) == entries_from(b, 4, count as nat),
            k <= total,
            pos <= n,
            parsed_mapping(b) == prepend(entries_view(entries@), entries_from(b, pos as int, (total - k) as nat)),
        decreases total - k,
    {
        if n - pos < 2 {
            return Err(ConvertError::ShortBlob);
        }
        let len = read_u16(blob, pos) as i16;
        if len < 0 {
            return Err(ConvertError::NegativeLength);
        }
        if n - pos - 2 < len as usize {
            return Err(ConvertError::ShortBlob);
        }
        let text = copy_range(blob, pos + 2, pos + 2 + len as usize);
        let entry = match parse_entry(&text) {
            Ok(m) => m,
            Err(e) => return Err(e),
        };
        let ghost before = entries_view(entries@);
        entries.push(entry);
        proof {
            assert(entries_view(entries@) =~= before.push(entry@));
            match entries_from(b, pos + 2 + len, (total - k - 1) as nat) {
                Ok(rest) => {
                    assert(before + (seq![entry@] + rest) =~= before.push(entry@) + rest);
                },
                Err(e) => {},
            }
        }
        pos = pos + 2 + len as usize;
        k = k + 1;
    }
    assert(entries_view(entries@) + Seq::<EntryView>::empty() =~= entries_view(entries@));
    Ok(entries)
}

pub open spec fn entries_result(r: Result<Vec<DHMappingEntry>, ConvertError>) -> Result<
    Seq<EntryView>,
    ConvertError,
> {
    match r {
        Ok(v) => Ok(entries_view(v@)),
        Err(e) => Err(e),
    }
}

/// The entries of a mapping blob written with `mode`, or the error that its
/// decompression or its parsing gives.
pub open spec fn decoded_mapping(mode: CompressionMode, data: Seq<u8>) -> Result<
    Seq<EntryView>,
    ConvertError,
> {
    match decompressed(mode, data) {
        Ok(b) => parsed_mapping(b),
        Err(e) => Err(e),
    }
}

/// Decompresses a section's mapping blob and parses its table.
pub fn deserialize_mapping(data: Vec<u8>, compression_mode: &CompressionMode) -> (r: Result<
    Vec<DHMappingEntry>,
    ConvertError,
>)
    ensures
        entries_result(r) == decoded_mapping(*compression_mode, data@),
{
    let bytes = match compression_mode.decompress(data) {
        Ok(b) => b,
        Err(e) => return Err(e),
    };
    parse_mapping(bytes.as_slice())
}

/// One far-render section read from the database, decoded.
#[derive(Debug)]
pub struct DHSectionData {
    pub pos: DHSectionPos,
    pub min_y: i32,
    pub data: Vec<Vec<DHFullDataPoint>>,
    pub mapping: Vec<DHMappingEntry>,
    pub data_format_version: i8,
    pub compression_mode: CompressionMode,
}

/// Decodes one database row into a section: picks the codec from its tag,
/// then parses the column blob and the mapping blob.
pub fn decode_section(
    pos_x: i32,
    pos_z: i32,
    min_y: i32,
    data: Vec<u8>,
    mapping: Vec<u8>,
    data_format_version: i8,
    compression_mode_num: i64,
) -> (r: Result<DHSectionData, ConvertError>)
    ensures
        match crate::decompress::mode_of_tag(compression_mode_num as int) {
            None => r == Err::<DHSectionData, ConvertError>(
                ConvertError::InvalidCompression(compression_mode_num),
            ),
            Some(m) => match (decoded_columns(m, data@), decoded_mapping(m, mapping@)) {
                (Err(e), _) => r == Err::<DHSectionData, ConvertError>(e),
                (Ok(_), Err(e)) => r == Err::<DHSectionData, ConvertError>(e),
                (Ok(cols), Ok(entries)) => r matches Ok(s) && {
                    &&& s.pos == DHSectionPos { x: pos_x, z: pos_z }
                    &&& s.min_y == min_y
                    &&& s.data_format_version == data_format_version
                    &&& s.compression_mode == m
                    &&& columns_view(s.data@) == cols
                    &&& entries_view(s.mapping@) == entries
                },
            },
        },
{
    if compression_mode_num < 0 || compression_mode_num > 3 {
        return Err(ConvertError::InvalidCompression(compression_mode_num));
    }
    let compression_mode = match CompressionMode::from_num(compression_mode_num as usize) {
        Some(m) => m,
        None => return Err(ConvertError::InvalidCompression(compression_mode_num)),
    };
    let columns = match deserialize_data(data, &compression_mode) {
        Ok(c) => c,
        Err(e) => return Err(e),
    };
    let entries = match deserialize_mapping(mapping, &compression_mode) {
        Ok(m) => m,
        Err(e) => return Err(e),
    };
    Ok(DHSectionData {
        pos: DHSectionPos { x: pos_x, z: pos_z },
        min_y,
        data: columns,
        mapping: entries,
        data_format_version,
        compression_mode,
    })
}

/// A source of far-render sections, such as the database they were saved in.
pub trait DHDataRequester {
    type Error;

    /// The positions of all full-detail sections.
    fn get_section_poses(&self) -> Result<Vec<DHSectionPos>, Self::Error>;

    /// The decoded full-detail sections that lie in `pos`.
    fn request_sections_in_region(&self, pos: &RegionPos) -> Result<Vec<DHSectionData>, Self::Error>;
}

/// The index of the last section at `pos` among `sections`, if one lies
/// there: a later row for a position stands for an earlier one.
pub fn find_section(sections: &Vec<DHSectionData>, pos: &DHSectionPos) -> (r: Option<usize>)
    ensures
        match r {
            Some(i) => i < sections@.len() && sections@[i as int].pos == *pos && forall|j: int|
                i < j < sections@.len() ==> sections@[j].pos != *pos,
            None => forall|i: int| 0 <= i < sections@.len() ==> sections@[i].pos != *pos,
        },
{
    let mut i: usize = sections.len();
    while i > 0
        invariant
            i <= sections@.len(),
            forall|j: int| i <= j < sections@.len() ==> sections@[j].pos != *pos,
        decreases i,
    {
        if sections[i - 1].pos == *pos {
            return Some(i - 1);
        }
        i = i - 1;
    }
    None
}

/// The big-endian bytes of a 64-bit word.
pub open spec fn be_bytes_u64(w: u64) -> Seq<u8> {
    seq![
        (w >> 56u64) as u8,
        (w >> 48u64) as u8,
        (w >> 40u64) as u8,
        (w >> 32u64) as u8,
        (w >> 24u64) as u8,
        (w >> 16u64) as u8,
        (w >> 8u64) as u8,
        w as u8,
    ]
}

proof fn lemma_be_pair(w: u64, s: u64, hi: u8, lo: u8)
    requires
        s == 0 || s == 16 || s == 32 || s == 48,
        hi == (w >> ((s + 8) as u64)) as u8,
        lo == (w >> s) as u8,
    ensures
        (((hi as u16) << 8u16) | (lo as u16)) == (w >> s) as u16,
{
    assert((((hi as u16) << 8u16) | (lo as u16)) == (w >> s) as u16) by (bit_vector)
        requires
            s == 0 || s == 16 || s == 32 || s == 48,
            hi == (w >> ((s + 8) as u64)) as u8,
            lo == (w >> s) as u8,
    ;
}

proof fn lemma_be_u64_of_bytes(b: Seq<u8>, at: int, w: u64)
    requires
        0 <= at,
        at + 8 <= b.len(),
        b.subrange(at, at + 8) == be_bytes_u64(w),
    ensures
        be_u64(b, at) == w,
{
    let e = be_bytes_u64(w);
    assert forall|k: int| 0 <= k < 8 implies b[at + k] == e[k] by {
        assert(b.subrange(at, at + 8)[k] == b[at + k]);
    }
    lemma_be_pair(w, 48, b[at], b[at + 1]);
    lemma_be_pair(w, 32, b[at + 2], b[at + 3]);
    lemma_be_pair(w, 16, b[at + 4], b[at + 5]);
    assert((w >> 0u64) == w) by (bit_vector);
    lemma_be_pair(w, 0, b[at + 6], b[at + 7]);
    let h0 = be_u16(b, at);
    let h1 = be_u16(b, at + 2);
    let h2 = be_u16(b, at + 4);
    let h3 = be_u16(b, at + 6);
    assert(((h0 as u32) << 16u32 | (h1 as u32)) == (w >> 32u64) as u32) by (bit_vector)
        requires
            h0 == (w >> 48u64) as u16,
            h1 == (w >> 32u64) as u16,
    ;
    assert(((h2 as u32) << 16u32 | (h3 as u32)) == w as u32) by (bit_vector)
        requires
            h2 == (w >> 16u64) as u16,
            h3 == w as u16,
    ;
    let q0 = be_u32(b, at);
    let q1 = be_u32(b, at + 4);
    assert(((q0 as u64) << 32u64 | (q1 as u64)) == w) by (bit_vector)
        requires
            q0 == (w >> 32u64) as u32,
            q1 == w as u32,
    ;
}

proof fn lemma_empty_columns(b: Seq<u8>, pos: int, n: nat)
    requires
        0 <= pos,
        pos + 2 * n <= b.len(),
        forall|i: int| pos <= i < pos + 2 * n ==> b[i] == 0,
    ensures
        columns_from(b, pos, n) == Ok::<Seq<Seq<DHFullDataPoint>>, ConvertError>(
            Seq::new(n, |i: int| Seq::<DHFullDataPoint>::empty()),
        ),
    decreases n,
{
    if n == 0 {
        assert(Seq::new(0, |i: int| Seq::<DHFullDataPoint>::empty()) =~= Seq::empty());
    } else {
        let b0 = b[pos];
        let b1 = b[pos + 1];
        assert(((b0 as u16) << 8u16 | (b1 as u16)) == 0) by (bit_vector)
            requires
                b0 == 0,
                b1 == 0,
        ;
        assert((0u16 as i16) == 0) by (bit_vector);
        lemma_empty_columns(b, pos + 2, (n - 1) as nat);
        assert(column_at(b, pos + 2, 0) =~= Seq::<DHFullDataPoint>::empty());
        assert(seq![Seq::<DHFullDataPoint>::empty()] + Seq::new(
            (n - 1) as nat,
            |i: int| Seq::<DHFullDataPoint>::empty(),
        ) =~= Seq::new(n, |i: int| Seq::<DHFullDataPoint>::empty()));
    }
}

/// The column blob that holds the data point `p` in column 0 and leaves the
/// other 4095 columns empty.
pub open spec fn single_point_blob(p: DHFullDataPoint) -> Seq<u8> {
    seq![0u8, 1u8] + be_bytes_u64(word_of_point(p) as u64) + Seq::new(2 * 4095, |i: int| 0u8)
}

/// Packing a data point whose fields fit their widths into a column blob and
/// parsing the blob gives the data point back, alone in column 0.
pub proof fn lemma_point_blob_round_trip(p: DHFullDataPoint)
    requires
        point_fits(p),
    ensures
        parsed_columns(single_point_blob(p)) == Ok::<Seq<Seq<DHFullDataPoint>>, ConvertError>(
            seq![seq![p]] + Seq::new(4095, |i: int| Seq::<DHFullDataPoint>::empty()),
        ),
{
    let w = word_of_point(p);
    let b = single_point_blob(p);
    assert(b.len() == 10 + 2 * 4095);
    assert(b[0] == 0u8 && b[1] == 1u8);
    let b0 = b[0];
    let b1 = b[1];
    assert(((b0 as u16) << 8u16 | (b1 as u16)) as i16 == 1) by (bit_vector)
        requires
            b0 == 0,
            b1 == 1,
    ;
    assert(b.subrange(2, 10) =~= be_bytes_u64(w as u64));
    lemma_be_u64_of_bytes(b, 2, w as u64);
    assert((w as u64) as i64 == w) by (bit_vector);
    lemma_point_round_trip(p);
    assert(column_at(b, 2, 1) =~= seq![p]);
    assert forall|i: int| 10 <= i < 10 + 2 * 4095 implies b[i] == 0 by {}
    lemma_empty_columns(b, 10, 4095);
}

} // verus!

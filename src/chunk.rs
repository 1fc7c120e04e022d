use crate::error::ConvertError;
use crate::palette::{
    bits_for, field, first_use_order, lemma_index_fits, first_uses, lemma_first_uses, lemma_first_uses_map,
    pack_data, packed_layout, per_word, unpack_data,
};
use vstd::prelude::*;

verus! {

/// A block state as the contracts see it: the block's name and, if any, its
/// properties as key/value pairs.
pub type StateView = (Seq<char>, Option<Seq<(Seq<char>, Seq<char>)>>);

pub open spec fn pairs_view(v: Seq<(String, String)>) -> Seq<(Seq<char>, Seq<char>)> {
    v.map_values(|p: (String, String)| (p.0@, p.1@))
}

pub open spec fn air_view() -> StateView {
    ("minecraft:air"@, None)
}

/// A block of the target format: its name and, when it has any, its
/// properties as key/value pairs (which `get_block` puts in key order, so
/// that equal states compare equal).
#[derive(Debug)]
pub struct BlockState {
    pub name: String,
    pub properties: Option<Vec<(String, String)>>,
}

impl View for BlockState {
    type V = StateView;

    open spec fn view(&self) -> StateView {
        (
            self.name@,
            match self.properties {
                Some(v) => Some(pairs_view(v@)),
                None => None,
            },
        )
    }
}

fn copy_pairs(v: &Vec<(String, String)>) -> (r: Vec<(String, String)>)
    ensures
        pairs_view(r@) == pairs_view(v@),
{
    let mut out: Vec<(String, String)> = Vec::new();
    let mut i: usize = 0;
    while i < v.len()
        invariant
            i <= v@.len(),
            out@.len() == i,
            pairs_view(out@) =~= pairs_view(v@.take(i as int)),
        decreases v@.len() - i,
    {
        let key = v[i].0.clone();
        let value = v[i].1.clone();
        let ghost before = out@;
        out.push((key, value));
        proof {
            assert forall|j: int| 0 <= j < i + 1 implies pairs_view(out@)[j] == pairs_view(
                v@.take(i + 1),
            )[j] by {
                if j < i {
                    assert(out@[j] == before[j]);
                    assert(pairs_view(before)[j] == pairs_view(v@.take(i as int))[j]);
                }
            }
        }
        i = i + 1;
        assert(pairs_view(out@) =~= pairs_view(v@.take(i as int)));
    }
    assert(v@.take(v@.len() as int) =~= v@);
    out
}

impl Clone for BlockState {
    fn clone(&self) -> (r: Self)
        ensures
            r@ == self@,
    {
        BlockState {
            name: self.name.clone(),
            properties: match &self.properties {
                Some(v) => Some(copy_pairs(v)),
                None => None,
            },
        }
    }
}

fn same_pairs(a: &Vec<(String, String)>, b: &Vec<(String, String)>) -> (r: bool)
    ensures
        r == (pairs_view(a@) == pairs_view(b@)),
{
    if a.len() != b.len() {
        assert(pairs_view(a@).len() != pairs_view(b@).len());
        return false;
    }
    let mut i: usize = 0;
    while i < a.len()
        invariant
            i <= a@.len(),
            a@.len() == b@.len(),
            forall|j: int| 0 <= j < i ==> pairs_view(a@)[j] == pairs_view(b@)[j],
        decreases a@.len() - i,
    {
        if !(a[i].0 == b[i].0) || !(a[i].1 == b[i].1) {
            assert(pairs_view(a@)[i as int] != pairs_view(b@)[i as int]);
            return false;
        }
        i = i + 1;
    }
    assert(pairs_view(a@) =~= pairs_view(b@));
    true
}

impl PartialEq for BlockState {
    fn eq(&self, other: &BlockState) -> (r: bool) {
        if !(self.name == other.name) {
            return false;
        }
        match (&self.properties, &other.properties) {
            (None, None) => true,
            (Some(a), Some(b)) => same_pairs(a, b),
            _ => false,
        }
    }
}

impl vstd::std_specs::cmp::PartialEqSpecImpl for BlockState {
    open spec fn obeys_eq_spec() -> bool {
        true
    }

    open spec fn eq_spec(&self, other: &BlockState) -> bool {
        self@ == other@
    }
}

impl BlockState {
    /// The air block, which stands in for an empty palette.
    pub fn air() -> (r: BlockState)
        ensures
            r@ == air_view(),
    {
        BlockState { name: "minecraft:air".to_owned(), properties: None }
    }
}

/// `after` is the palette `before` once `v` is interned in it: unchanged
/// where it holds `v`, else `v` appended; a palette that is full (65536
/// entries) first drops its unused entries, and then holds `v`.
pub open spec fn interned<V>(before: Seq<V>, after: Seq<V>, v: V) -> bool {
    if before.contains(v) {
        after == before
    } else if before.len() < 65536 {
        after == before.push(v)
    } else {
        after.contains(v)
    }
}

pub open spec fn views_of(s: Seq<BlockState>) -> Seq<StateView> {
    s.map_values(|b: BlockState| b@)
}

/// The voxels of a 16x16x16 section, indexed `(y << 8) | (z << 4) | x`,
/// through a palette of distinct block states.
#[derive(Debug)]
pub struct BlockStates {
    palette: Vec<BlockState>,
    data: Vec<u16>,
}

/// The block states as serialized: a palette of the states in use and, when
/// it has more than one entry, the packed indices.
#[derive(Debug)]
pub struct PackedBlockStates {
    pub palette: Vec<BlockState>,
    pub data: Option<Vec<i64>>,
}

impl View for BlockStates {
    type V = Seq<StateView>;

    closed spec fn view(&self) -> Seq<StateView> {
        Seq::new(4096, |i: int| self.palette@[self.data@[i] as int]@)
    }
}

/// The value that each voxel takes when `words` is unpacked against `pal`.
pub open spec fn unpacked_voxel<V>(pal: Seq<V>, words: Seq<i64>, bits: nat, k: int) -> V {
    pal[field(words[k / per_word(bits) as int], bits, k % per_word(bits) as int) as int]
}

/// The first `n` entries that `words` packs at `bits` bits are all below `bound`.
pub open spec fn entries_below(words: Seq<i64>, bits: nat, n: int, bound: nat) -> bool {
    forall|k: int|
        0 <= k < n ==> #[trigger] field(words[k / per_word(bits) as int], bits, k % per_word(bits) as int)
            < bound
}

/// What deserializing a block-state palette and its packed data gives: the
/// state of each of the 4096 voxels, or the error that the input calls for.
pub open spec fn decoded_states(pal: Seq<StateView>, data: Option<Seq<i64>>) -> Result<
    Seq<StateView>,
    ConvertError,
> {
    let pal = if pal.len() == 0 {
        seq![air_view()]
    } else {
        pal
    };
    if pal.len() > 65536 || !pal.no_duplicates() {
        Err(ConvertError::InvalidPalette)
    } else {
        match data {
            None => Ok(Seq::new(4096, |k: int| pal[0])),
            Some(words) => {
                let bits = bits_for(pal.len(), 4);
                if words.len() * per_word(bits) < 4096 {
                    Err(ConvertError::ShortPaletteData)
                } else if !entries_below(words, bits, 4096, pal.len()) {
                    Err(ConvertError::PaletteIndexOutOfRange)
                } else {
                    Ok(Seq::new(4096, |k: int| unpacked_voxel(pal, words, bits, k)))
                }
            },
        }
    }
}

/// `pal` and `data` serialize the voxels `v` through the values `samples`:
/// the palette lists the values in use in the order of first use, and with
/// two or more of them, `data` packs each sample's palette position at
/// `bits_for(pal.len(), min_bits)` bits.
pub open spec fn serializes<V>(
    pal: Seq<V>,
    data: Option<Seq<i64>>,
    v: Seq<V>,
    samples: Seq<V>,
    min_bits: nat,
) -> bool {
    &&& pal == first_uses(v)
    &&& pal.len() <= 1 ==> data is None
    &&& pal.len() > 1 ==> (data matches Some(words) && packed_layout(
        words,
        Seq::new(samples.len(), |k: int| pal.index_of(samples[k]) as u16),
        bits_for(pal.len(), min_bits),
    ))
}

/// Clones the palette entries that `order` names, in that order.
fn pick_states(palette: &Vec<BlockState>, order: &Vec<u16>) -> (r: Vec<BlockState>)
    requires
        forall|k: int| 0 <= k < order@.len() ==> order@[k] < palette@.len(),
    ensures
        views_of(r@) == order@.map_values(|o: u16| palette@[o as int]@),
{
    let mut out: Vec<BlockState> = Vec::new();
    let mut k: usize = 0;
    while k < order.len()
        invariant
            k <= order@.len(),
            out@.len() == k,
            forall|q: int| 0 <= q < order@.len() ==> order@[q] < palette@.len(),
            views_of(out@) =~= order@.take(k as int).map_values(|o: u16| palette@[o as int]@),
        decreases order@.len() - k,
    {
        let state = palette[order[k] as usize].clone();
        let ghost before = out@;
        out.push(state);
        proof {
            assert forall|j: int| 0 <= j < k + 1 implies views_of(out@)[j] == order@.take(
                k + 1,
            ).map_values(|o: u16| palette@[o as int]@)[j] by {
                if j < k {
                    assert(out@[j] == before[j]);
                    assert(views_of(before)[j] == order@.take(k as int).map_values(
                        |o: u16| palette@[o as int]@,
                    )[j]);
                }
            }
        }
        k = k + 1;
        assert(views_of(out@) =~= order@.take(k as int).map_values(|o: u16| palette@[o as int]@));
    }
    assert(order@.take(order@.len() as int) =~= order@);
    out
}

impl BlockStates {
    /// The palette, as the contracts see it.
    pub closed spec fn palette_view(&self) -> Seq<StateView> {
        views_of(self.palette@)
    }

    /// The store's invariant: 4096 voxels, each naming an entry of a palette
    /// of distinct states that 16-bit indices can address.
    pub closed spec fn wf(&self) -> bool {
        &&& self.data@.len() == 4096
        &&& 1 <= self.palette@.len() <= 65536
        &&& forall|i: int| 0 <= i < 4096 ==> self.data@[i] < self.palette@.len()
        &&& views_of(self.palette@).no_duplicates()
    }

    /// A section in which every voxel holds `state`.
    pub fn filled(state: BlockState) -> (r: BlockStates)
        ensures
            r.wf(),
            forall|i: int| 0 <= i < 4096 ==> #[trigger] r@[i] == state@,
    {
        let mut palette: Vec<BlockState> = Vec::new();
        palette.push(state);
        let data: Vec<u16> = vec![0u16; 4096];
        assert(views_of(palette@).no_duplicates());
        BlockStates { palette, data }
    }

    /// The state of voxel `index`.
    pub fn get(&self, index: usize) -> (r: &BlockState)
        requires
            self.wf(),
            index < 4096,
        ensures
            r@ == self@[index as int],
    {
        &self.palette[self.data[index] as usize]
    }

    /// The palette position of `state`, if the palette holds it.
    pub fn index_of(&self, state: &BlockState) -> (r: Option<u16>)
        requires
            self.wf(),
        ensures
            match r {
                Some(i) => i < self.palette_view().len() && self.palette_view()[i as int] == state@,
                None => !self.palette_view().contains(state@),
            },
    {
        let mut i: usize = 0;
        while i < self.palette.len()
            invariant
                i <= self.palette@.len(),
                self.palette@.len() <= 65536,
                forall|j: int| 0 <= j < i ==> self.palette@[j]@ != state@,
            decreases self.palette@.len() - i,
        {
            if self.palette[i] == *state {
                return Some(i as u16);
            }
            i = i + 1;
        }
        proof {
            if views_of(self.palette@).contains(state@) {
                let j = choose|j: int|
                    0 <= j < self.palette@.len() && views_of(self.palette@)[j] == state@;
                assert(self.palette@[j]@ == state@);
            }
        }
        None
    }

    /// Keeps only the palette entries in use, in the order of first use.
    fn compact(&mut self)
        requires
            old(self).wf(),
        ensures
            final(self).wf(),
            final(self)@ == old(self)@,
            final(self).palette@.len() <= 4096,
            forall|v: StateView|
                #[trigger] final(self).palette_view().contains(v) ==> old(self).palette_view().contains(v),
    {
        let (order, renumbered) = first_use_order(&self.data, self.palette.len());
        proof {
            lemma_first_uses(self.data@);
            assert forall|k: int| 0 <= k < order@.len() implies order@[k] < self.palette@.len() by {
                assert(first_uses(self.data@).contains(order@[k]));
                let i = choose|i: int| 0 <= i < self.data@.len() && self.data@[i] == order@[k];
            }
        }
        let palette = pick_states(&self.palette, &order);
        proof {
            assert(views_of(palette@).len() == palette@.len());
            assert(order@.map_values(|o: u16| self.palette@[o as int]@).len() == order@.len());
            assert(palette@.len() == order@.len());
            assert(order@.no_duplicates());
            assert forall|a: int, b: int|
                0 <= a < palette@.len() && 0 <= b < palette@.len() && a != b implies views_of(
                palette@,
            )[a] != views_of(palette@)[b] by {
                assert(order@[a] != order@[b]);
                assert(views_of(palette@)[a] == order@.map_values(|o: u16| self.palette@[o as int]@)[a]);
                assert(views_of(palette@)[b] == order@.map_values(|o: u16| self.palette@[o as int]@)[b]);
                assert(views_of(palette@)[a] == views_of(self.palette@)[order@[a] as int]);
                assert(views_of(palette@)[b] == views_of(self.palette@)[order@[b] as int]);
            }
            assert(renumbered@.len() == 4096);
            assert(renumbered@[0] < order@.len());
        }
        let ghost before = self@;
        let ghost old_palette = self.palette_view();
        *self = BlockStates { palette, data: renumbered };
        proof {
            assert forall|v: StateView| #[trigger] self.palette_view().contains(v) implies old_palette.contains(v) by {
                let q = choose|q: int| 0 <= q < self.palette@.len() && self.palette_view()[q] == v;
                assert(self.palette_view()[q] == order@.map_values(|o: u16| old_palette[o as int])[q]);
                assert(old_palette[order@[q] as int] == v);
            }
            assert forall|i: int| 0 <= i < 4096 implies #[trigger] self@[i] == before[i] by {
                assert(views_of(self.palette@)[self.data@[i] as int] == self.palette@[self.data@[i] as int]@);
            }
            assert(self@ =~= before);
        }
    }

    /// The palette position of `state`, added to the palette if it is new
    /// there; the voxels keep their states.
    fn intern(&mut self, state: BlockState) -> (id: u16)
        requires
            old(self).wf(),
        ensures
            final(self).wf(),
            final(self)@ == old(self)@,
            id < final(self).palette@.len(),
            final(self).palette@[id as int]@ == state@,
            interned(old(self).palette_view(), final(self).palette_view(), state@),
    {
        let ghost before = self@;
        let ghost pal0 = self.palette_view();
        let ghost sv = state@;
        let id = match self.index_of(&state) {
            Some(i) => {
                assert(pal0[i as int] == sv);
                i
            },
            None => {
                if self.palette.len() == 65536 {
                    self.compact();
                }
                proof {
                                        assert(!self.palette_view().contains(state@));
                }
                let next = self.palette.len() as u16;
                let ghost mid = self.palette@;
                let ghost full = pal0.len() >= 65536;
                assert(!full ==> mid == old(self).palette@);
                self.palette.push(state);
                assert(views_of(self.palette@) =~= views_of(mid).push(sv));
                assert(views_of(self.palette@)[mid.len() as int] == sv);
                proof {
                    assert forall|a: int, b: int|
                        0 <= a < self.palette@.len() && 0 <= b < self.palette@.len() && a != b implies
                        views_of(self.palette@)[a] != views_of(self.palette@)[b] by {
                        if a < mid.len() && b < mid.len() {
                            assert(views_of(mid)[a] != views_of(mid)[b]);
                        } else if a == mid.len() {
                            assert(views_of(mid)[b] == views_of(self.palette@)[b]);
                            assert(views_of(mid).contains(views_of(mid)[b]));
                        } else {
                            assert(views_of(mid)[a] == views_of(self.palette@)[a]);
                            assert(views_of(mid).contains(views_of(mid)[a]));
                        }
                    }
                    assert(self@ =~= before);
                }
                next
            },
        };
        id
    }

    /// Sets voxel `index` to `state`, adding `state` to the palette if it is
    /// new there.
    pub fn set(&mut self, index: usize, state: BlockState)
        requires
            old(self).wf(),
            index < 4096,
        ensures
            final(self).wf(),
            final(self)@ == old(self)@.update(index as int, state@),
            interned(old(self).palette_view(), final(self).palette_view(), state@),
    {
        let ghost before = self@;
        let id = self.intern(state);
        self.data.set(index, id);
        assert(self@ =~= before.update(index as int, state@));
    }

    /// Sets the voxels `(x, y, z)` for every `y` in `[y_from, y_to)` to `state`.
    #[verifier::rlimit(40)]
    pub fn set_column(&mut self, x: usize, z: usize, y_from: usize, y_to: usize, state: BlockState)
        requires
            old(self).wf(),
            x < 16,
            z < 16,
            y_from <= y_to <= 16,
        ensures
            final(self).wf(),
            forall|v: int|
                0 <= v < 4096 ==> #[trigger] final(self)@[v] == if in_column(v, x as int, z as int)
                    && y_from <= v / 256 < y_to {
                    state@
                } else {
                    old(self)@[v]
                },
    {
        if y_from == y_to {
            return;
        }
        let ghost before = self@;
        let ghost sv = state@;
        let id = self.intern(state);
        let mut y: usize = y_from;
        while y < y_to
            invariant
                self.wf(),
                x < 16,
                z < 16,
                y_from <= y <= y_to <= 16,
                id < self.palette@.len(),
                self.palette@[id as int]@ == sv,
                forall|v: int|
                    0 <= v < 4096 ==> #[trigger] self@[v] == if in_column(v, x as int, z as int)
                        && y_from <= v / 256 < y {
                        sv
                    } else {
                        before[v]
                    },
            decreases y_to - y,
        {
            let index = y * 256 + z * 16 + x;
            let ghost mid = self@;
            self.data.set(index, id);
            assert forall|v: int| 0 <= v < 4096 implies #[trigger] self@[v] == if in_column(v, x as int, z as int)
                && y_from <= v / 256 < y + 1 {
                sv
            } else {
                before[v]
            } by {
                if v == index {
                    assert(in_column(v, x as int, z as int) && v / 256 == y);
                } else {
                    assert(self@[v] == mid[v]);
                    if in_column(v, x as int, z as int) {
                        assert(v / 256 != y);
                    }
                }
            }
            y = y + 1;
        }
    }

    /// The serialized form: the states in use in the order of first use, and,
    /// when there are two or more, the voxels' positions in that palette
    /// packed at no fewer than 4 bits.
    pub fn to_packed(&self) -> (r: PackedBlockStates)
        requires
            self.wf(),
        ensures
            serializes(views_of(r.palette@), words_view(r.data), self@, self@, 4),
            views_of(r.palette@).no_duplicates(),
    {
        let (order, renumbered) = first_use_order(&self.data, self.palette.len());
        proof {
            lemma_first_uses(self.data@);
            assert forall|k: int| 0 <= k < order@.len() implies order@[k] < self.palette@.len() by {
                assert(first_uses(self.data@).contains(order@[k]));
                let i = choose|i: int| 0 <= i < self.data@.len() && self.data@[i] == order@[k];
            }
        }
        let palette = pick_states(&self.palette, &order);
        let ghost f = |o: u16| self.palette@[o as int]@;
        let ghost pal = views_of(palette@);
        proof {
            assert(pal.len() == palette@.len());
            assert(order@.map_values(f).len() == order@.len());
            assert(self@ =~= self.data@.map_values(f));
            assert forall|a1: u16, a2: u16|
                self.data@.contains(a1) && self.data@.contains(a2) && f(a1) == f(a2) implies a1
                == a2 by {
                let i = choose|i: int| 0 <= i < self.data@.len() && self.data@[i] == a1;
                let j = choose|j: int| 0 <= j < self.data@.len() && self.data@[j] == a2;
                assert(views_of(self.palette@)[a1 as int] == f(a1));
                assert(views_of(self.palette@)[a2 as int] == f(a2));
            }
            lemma_first_uses_map(self.data@, f);
            assert(pal =~= order@.map_values(f));
            lemma_first_uses(self@);
            assert(renumbered@[0] < order@.len());
            assert forall|k: int| 0 <= k < 4096 implies #[trigger] renumbered@[k] as int == pal.index_of(
                self@[k],
            ) by {
                assert(pal[renumbered@[k] as int] == f(order@[renumbered@[k] as int]));
                assert(pal[renumbered@[k] as int] == self@[k]);
                assert(pal.contains(self@[k]));
                let q = pal.index_of(self@[k]);
                assert(pal[q] == self@[k]);
            }
            assert(renumbered@ =~= Seq::new(4096, |k: int| pal.index_of(self@[k]) as u16));
        }
        let data = if palette.len() <= 1 {
            None
        } else {
            proof {
                assert forall|k: int| 0 <= k < renumbered@.len() implies (renumbered@[k] as nat)
                    < vstd::arithmetic::power2::pow2(bits_for(palette@.len() as nat, 4)) by {
                    lemma_index_fits(renumbered@[k] as nat, palette@.len() as nat, 4);
                }
            }
            Some(pack_data(renumbered, &palette.len(), 4))
        };
        PackedBlockStates { palette, data }
    }

    /// Rebuilds the store from its serialized form. An empty palette stands
    /// for air; absent data sets every voxel to the palette's first entry.
    pub fn from_packed(p: PackedBlockStates) -> (r: Result<BlockStates, ConvertError>)
        ensures
            match r {
                Ok(s) => s.wf() && s.palette_view() == (if p.palette@.len() == 0 {
                    seq![air_view()]
                } else {
                    views_of(p.palette@)
                }) && decoded_states(views_of(p.palette@), words_view(p.data)) == Ok::<
                    Seq<StateView>,
                    ConvertError,
                >(s@),
                Err(e) => decoded_states(views_of(p.palette@), words_view(p.data)) == Err::<
                    Seq<StateView>,
                    ConvertError,
                >(e),
            },
    {
        let ghost pv = views_of(p.palette@);
        let ghost pd = words_view(p.data);
        let PackedBlockStates { palette, data } = p;
        let palette = if palette.len() == 0 {
            let mut v: Vec<BlockState> = Vec::new();
            v.push(BlockState::air());
            assert(views_of(v@) =~= seq![air_view()]);
            v
        } else {
            palette
        };
        let ghost pal = views_of(palette@);
        assert(pal == if pv.len() == 0 {
            seq![air_view()]
        } else {
            pv
        });
        if palette.len() > 65536 {
            return Err(ConvertError::InvalidPalette);
        }
        let mut i: usize = 0;
        while i < palette.len()
            invariant
                pv == views_of(p.palette@),
                pal == views_of(palette@),
                pal == if pv.len() == 0 {
                    seq![air_view()]
                } else {
                    pv
                },
                palette@.len() <= 65536,
                i <= palette@.len(),
                forall|a: int, b: int| 0 <= a < i && a < b < palette@.len() ==> pal[a] != pal[b],
            decreases palette@.len() - i,
        {
            let mut j: usize = i + 1;
            while j < palette.len()
                invariant
                    pv == views_of(p.palette@),
                    pal == views_of(palette@),
                    pal == if pv.len() == 0 {
                        seq![air_view()]
                    } else {
                        pv
                    },
                    palette@.len() <= 65536,
                    i < palette@.len(),
                    i < j <= palette@.len(),
                    forall|a: int, b: int| 0 <= a < i && a < b < palette@.len() ==> pal[a] != pal[b],
                    forall|b: int| i < b < j ==> pal[i as int] != pal[b],
                decreases palette@.len() - j,
            {
                if palette[i] == palette[j] {
                    assert(pal[i as int] == palette@[i as int]@);
                    assert(pal[j as int] == palette@[j as int]@);
                    assert(!pal.no_duplicates());
                    return Err(ConvertError::InvalidPalette);
                }
                j = j + 1;
            }
            i = i + 1;
        }
        assert(pal.no_duplicates()) by {
            assert forall|a: int, b: int| 0 <= a < pal.len() && 0 <= b < pal.len() && a != b implies pal[a] != pal[b] by {
                if a > b {
                    assert(pal[b] != pal[a]);
                }
            }
        }
        match data {
            None => {
                let s = BlockStates { palette, data: vec![0u16; 4096] };
                assert(s@ =~= Seq::new(4096, |k: int| pal[0]));
                Ok(s)
            },
            Some(words) => {
                let ghost w = words@;
                let ghost bits = bits_for(pal.len(), 4);
                assert(pd == Some(w));
                let unpacked = unpack_data(words, &palette.len(), 4);
                if unpacked.len() < 4096 {
                    return Err(ConvertError::ShortPaletteData);
                }
                let mut idx: Vec<u16> = Vec::new();
                let mut k: usize = 0;
                while k < 4096
                    invariant
                        pv == views_of(p.palette@),
                        pd == words_view(p.data),
                        pd == Some(w),
                        bits == bits_for(pal.len(), 4),
                        pal == views_of(palette@),
                        pal == if pv.len() == 0 {
                            seq![air_view()]
                        } else {
                            pv
                        },
                        pal.no_duplicates(),
                        1 <= palette@.len() <= 65536,
                        unpacked@.len() >= 4096,
                        unpacked@.len() == w.len() * per_word(bits),
                        forall|q: int|
                            0 <= q < unpacked@.len() ==> #[trigger] unpacked@[q] as u64 == field(
                                w[q / per_word(bits) as int],
                                bits,
                                q % per_word(bits) as int,
                            ),
                        k <= 4096,
                        idx@.len() == k,
                        forall|q: int|
                            0 <= q < k ==> #[trigger] idx@[q] == unpacked@[q] && idx@[q]
                                < palette@.len(),
                    decreases 4096 - k,
                {
                    if unpacked[k] as usize >= palette.len() {
                        assert(unpacked@[k as int] as u64 == field(
                            w[k as int / per_word(bits) as int],
                            bits,
                            k as int % per_word(bits) as int,
                        ));
                        assert(field(w[k as int / per_word(bits) as int], bits, k as int % per_word(bits) as int)
                            >= pal.len());
                        assert(!(w.len() * per_word(bits) < 4096));
                        assert(!(pal.len() > 65536 || !pal.no_duplicates()));
                        assert(views_of(palette@).len() == palette@.len());
                        assert(decoded_states(pv, pd) == Err::<Seq<StateView>, ConvertError>(
                            ConvertError::PaletteIndexOutOfRange,
                        ));
                        return Err(ConvertError::PaletteIndexOutOfRange);
                    }
                    idx.push(unpacked[k]);
                    k = k + 1;
                }
                let s = BlockStates { palette, data: idx };
                proof {
                    assert forall|q: int| 0 <= q < 4096 implies #[trigger] field(
                        w[q / per_word(bits) as int],
                        bits,
                        q % per_word(bits) as int,
                    ) < pal.len() by {
                        assert(idx@[q] == unpacked@[q]);
                        assert(unpacked@[q] as u64 == field(
                            w[q / per_word(bits) as int],
                            bits,
                            q % per_word(bits) as int,
                        ));
                    }
                    assert(s@ =~= Seq::new(4096, |q: int| unpacked_voxel(pal, w, bits, q)));
                }
                Ok(s)
            },
        }
    }
}

pub open spec fn words_view(d: Option<Vec<i64>>) -> Option<Seq<i64>> {
    match d {
        Some(w) => Some(w@),
        None => None,
    }
}

pub open spec fn names_of(s: Seq<String>) -> Seq<Seq<char>> {
    s.map_values(|b: String| b@)
}

pub open spec fn plains_view() -> Seq<char> {
    "minecraft:plains"@
}

/// The voxel that stands for slot `i` of the 4x4x4 biome grid: the first
/// voxel of the slot's 4x4x4 cube for an even slot, the last for an odd one.
pub open spec fn sample_voxel(i: int) -> int {
    let base = (i / 16) * 4 * 256 + ((i / 4) % 4) * 4 * 16 + (i % 4) * 4;
    if i % 2 == 0 {
        base
    } else {
        base + 3 * 256 + 3 * 16 + 3
    }
}

/// The slot of the 4x4x4 biome grid that voxel `k` lies in:
/// `((y >> 2) << 4) | ((z >> 2) << 2) | (x >> 2)`.
pub open spec fn biome_slot(k: int) -> int {
    (k / 1024) * 16 + ((k / 64) % 4) * 4 + (k / 4) % 4
}

fn sample_index(i: usize) -> (r: usize)
    requires
        i < 64,
    ensures
        r == sample_voxel(i as int),
        r < 4096,
{
    let base = (i / 16) * 4 * 256 + ((i / 4) % 4) * 4 * 16 + (i % 4) * 4;
    if i % 2 == 0 {
        base
    } else {
        base + 3 * 256 + 3 * 16 + 3
    }
}

fn slot_of(k: usize) -> (r: usize)
    requires
        k < 4096,
    ensures
        r == biome_slot(k as int),
        r < 64,
{
    (k / 1024) * 16 + ((k / 64) % 4) * 4 + (k / 4) % 4
}

/// What deserializing a biome palette and its packed 4x4x4 samples gives:
/// the biome of each of the 4096 voxels, each sample spread over its cube,
/// or the error that the input calls for.
pub open spec fn decoded_biomes(pal: Seq<Seq<char>>, data: Option<Seq<i64>>) -> Result<
    Seq<Seq<char>>,
    ConvertError,
> {
    let pal = if pal.len() == 0 {
        seq![plains_view()]
    } else {
        pal
    };
    if pal.len() > 65536 || !pal.no_duplicates() {
        Err(ConvertError::InvalidPalette)
    } else {
        match data {
            None => Ok(Seq::new(4096, |k: int| pal[0])),
            Some(words) => if pal.len() == 1 {
                Ok(Seq::new(4096, |k: int| pal[0]))
            } else {
                let bits = bits_for(pal.len(), 0);
                if words.len() * per_word(bits) < 64 {
                    Err(ConvertError::ShortPaletteData)
                } else if !entries_below(words, bits, 64, pal.len()) {
                    Err(ConvertError::PaletteIndexOutOfRange)
                } else {
                    Ok(Seq::new(4096, |k: int| unpacked_voxel(pal, words, bits, biome_slot(k))))
                }
            },
        }
    }
}

/// The biomes of a section: one per voxel in memory, indexed like the block
/// states, through a palette of distinct biome names.
#[derive(Debug)]
pub struct Biomes {
    palette: Vec<String>,
    data: Vec<u16>,
}

/// The biomes as serialized: a palette of the biomes in use and, when it has
/// more than one entry, the packed 4x4x4 samples.
#[derive(Debug)]
pub struct PackedBiomes {
    pub palette: Vec<String>,
    pub data: Option<Vec<i64>>,
}

impl View for Biomes {
    type V = Seq<Seq<char>>;

    closed spec fn view(&self) -> Seq<Seq<char>> {
        Seq::new(4096, |i: int| self.palette@[self.data@[i] as int]@)
    }
}

/// Clones the biome names that `order` names, in that order.
fn pick_names(palette: &Vec<String>, order: &Vec<u16>) -> (r: Vec<String>)
    requires
        forall|k: int| 0 <= k < order@.len() ==> order@[k] < palette@.len(),
    ensures
        names_of(r@) == order@.map_values(|o: u16| palette@[o as int]@),
{
    let mut out: Vec<String> = Vec::new();
    let mut k: usize = 0;
    while k < order.len()
        invariant
            k <= order@.len(),
            out@.len() == k,
            forall|q: int| 0 <= q < order@.len() ==> order@[q] < palette@.len(),
            names_of(out@) =~= order@.take(k as int).map_values(|o: u16| palette@[o as int]@),
        decreases order@.len() - k,
    {
        let name = palette[order[k] as usize].clone();
        let ghost before = out@;
        out.push(name);
        proof {
            assert forall|j: int| 0 <= j < k + 1 implies names_of(out@)[j] == order@.take(
                k + 1,
            ).map_values(|o: u16| palette@[o as int]@)[j] by {
                if j < k {
                    assert(out@[j] == before[j]);
                    assert(names_of(before)[j] == order@.take(k as int).map_values(
                        |o: u16| palette@[o as int]@,
                    )[j]);
                }
            }
        }
        k = k + 1;
        assert(names_of(out@) =~= order@.take(k as int).map_values(|o: u16| palette@[o as int]@));
    }
    assert(order@.take(order@.len() as int) =~= order@);
    out
}

impl Biomes {
    /// The palette, as the contracts see it.
    pub closed spec fn palette_view(&self) -> Seq<Seq<char>> {
        names_of(self.palette@)
    }

    /// The store's invariant: 4096 voxels, each naming an entry of a palette
    /// of distinct biomes that 16-bit indices can address.
    pub closed spec fn wf(&self) -> bool {
        &&& self.data@.len() == 4096
        &&& 1 <= self.palette@.len() <= 65536
        &&& forall|i: int| 0 <= i < 4096 ==> self.data@[i] < self.palette@.len()
        &&& names_of(self.palette@).no_duplicates()
    }

    /// A section in which every voxel lies in `biome`.
    pub fn filled(biome: String) -> (r: Biomes)
        ensures
            r.wf(),
            forall|i: int| 0 <= i < 4096 ==> #[trigger] r@[i] == biome@,
    {
        let mut palette: Vec<String> = Vec::new();
        palette.push(biome);
        let data: Vec<u16> = vec![0u16; 4096];
        assert(names_of(palette@).no_duplicates());
        Biomes { palette, data }
    }

    /// The biome of voxel `index`.
    pub fn get(&self, index: usize) -> (r: &String)
        requires
            self.wf(),
            index < 4096,
        ensures
            r@ == self@[index as int],
    {
        &self.palette[self.data[index] as usize]
    }

    /// The palette position of `biome`, if the palette holds it.
    pub fn index_of(&self, biome: &String) -> (r: Option<u16>)
        requires
            self.wf(),
        ensures
            match r {
                Some(i) => i < self.palette_view().len() && self.palette_view()[i as int] == biome@,
                None => !self.palette_view().contains(biome@),
            },
    {
        let mut i: usize = 0;
        while i < self.palette.len()
            invariant
                i <= self.palette@.len(),
                self.palette@.len() <= 65536,
                forall|j: int| 0 <= j < i ==> self.palette@[j]@ != biome@,
            decreases self.palette@.len() - i,
        {
            if self.palette[i] == *biome {
                return Some(i as u16);
            }
            i = i + 1;
        }
        proof {
            if names_of(self.palette@).contains(biome@) {
                let j = choose|j: int|
                    0 <= j < self.palette@.len() && names_of(self.palette@)[j] == biome@;
                assert(self.palette@[j]@ == biome@);
            }
        }
        None
    }

    /// Keeps only the palette entries in use, in the order of first use.
    fn compact(&mut self)
        requires
            old(self).wf(),
        ensures
            final(self).wf(),
            final(self)@ == old(self)@,
            final(self).palette@.len() <= 4096,
            forall|v: Seq<char>|
                #[trigger] final(self).palette_view().contains(v) ==> old(self).palette_view().contains(v),
    {
        let (order, renumbered) = first_use_order(&self.data, self.palette.len());
        proof {
            lemma_first_uses(self.data@);
            assert forall|k: int| 0 <= k < order@.len() implies order@[k] < self.palette@.len() by {
                assert(first_uses(self.data@).contains(order@[k]));
                let i = choose|i: int| 0 <= i < self.data@.len() && self.data@[i] == order@[k];
            }
        }
        let palette = pick_names(&self.palette, &order);
        proof {
            assert(names_of(palette@).len() == palette@.len());
            assert(order@.map_values(|o: u16| self.palette@[o as int]@).len() == order@.len());
            assert(palette@.len() == order@.len());
            assert(order@.no_duplicates());
            assert forall|a: int, b: int|
                0 <= a < palette@.len() && 0 <= b < palette@.len() && a != b implies names_of(
                palette@,
            )[a] != names_of(palette@)[b] by {
                assert(order@[a] != order@[b]);
                assert(names_of(palette@)[a] == order@.map_values(|o: u16| self.palette@[o as int]@)[a]);
                assert(names_of(palette@)[b] == order@.map_values(|o: u16| self.palette@[o as int]@)[b]);
                assert(names_of(palette@)[a] == names_of(self.palette@)[order@[a] as int]);
                assert(names_of(palette@)[b] == names_of(self.palette@)[order@[b] as int]);
            }
            assert(renumbered@.len() == 4096);
            assert(renumbered@[0] < order@.len());
        }
        let ghost before = self@;
        let ghost old_palette = self.palette_view();
        *self = Biomes { palette, data: renumbered };
        proof {
            assert forall|v: Seq<char>| #[trigger] self.palette_view().contains(v) implies old_palette.contains(v) by {
                let q = choose|q: int| 0 <= q < self.palette@.len() && self.palette_view()[q] == v;
                assert(self.palette_view()[q] == order@.map_values(|o: u16| old_palette[o as int])[q]);
                assert(old_palette[order@[q] as int] == v);
            }
            assert forall|i: int| 0 <= i < 4096 implies #[trigger] self@[i] == before[i] by {
                assert(names_of(self.palette@)[self.data@[i] as int] == self.palette@[self.data@[i] as int]@);
            }
            assert(self@ =~= before);
        }
    }

    /// Sets voxel `index` to `biome`, adding `biome` to the palette if it is
    /// new there.
    pub fn set(&mut self, index: usize, biome: String)
        requires
            old(self).wf(),
            index < 4096,
        ensures
            final(self).wf(),
            final(self)@ == old(self)@.update(index as int, biome@),
            interned(old(self).palette_view(), final(self).palette_view(), biome@),
    {
        let ghost before = self@;
        let ghost pal0 = self.palette_view();
        let ghost bv = biome@;
        let id = match self.index_of(&biome) {
            Some(i) => {
                assert(pal0[i as int] == bv);
                i
            },
            None => {
                if self.palette.len() == 65536 {
                    self.compact();
                }
                proof {
                    assert(!self.palette_view().contains(biome@));
                }
                let next = self.palette.len() as u16;
                let ghost mid = self.palette@;
                assert(pal0.len() < 65536 ==> mid == old(self).palette@);
                self.palette.push(biome);
                assert(names_of(self.palette@) =~= names_of(mid).push(bv));
                assert(names_of(self.palette@)[mid.len() as int] == bv);
                proof {
                    assert forall|a: int, b: int|
                        0 <= a < self.palette@.len() && 0 <= b < self.palette@.len() && a != b implies
                        names_of(self.palette@)[a] != names_of(self.palette@)[b] by {
                        if a < mid.len() && b < mid.len() {
                            assert(names_of(mid)[a] != names_of(mid)[b]);
                        } else if a == mid.len() {
                            assert(names_of(mid)[b] == names_of(self.palette@)[b]);
                            assert(names_of(mid).contains(names_of(mid)[b]));
                        } else {
                            assert(names_of(mid)[a] == names_of(self.palette@)[a]);
                            assert(names_of(mid).contains(names_of(mid)[a]));
                        }
                    }
                    assert(self@ =~= before);
                }
                next
            },
        };
        proof {
            assert(id < self.palette@.len());
        }
        self.data.set(index, id);
        assert(self@ =~= before.update(index as int, biome@));
    }

    /// The serialized form: the biomes in use in the order of first use, and,
    /// when there are two or more, the palette positions of the 64 samples
    /// packed at the width the palette needs.
    pub fn to_packed(&self) -> (r: PackedBiomes)
        requires
            self.wf(),
        ensures
            serializes(
                names_of(r.palette@),
                words_view(r.data),
                self@,
                Seq::new(64, |i: int| self@[sample_voxel(i)]),
                0,
            ),
            names_of(r.palette@).no_duplicates(),
    {
        let (order, renumbered) = first_use_order(&self.data, self.palette.len());
        proof {
            lemma_first_uses(self.data@);
            assert forall|k: int| 0 <= k < order@.len() implies order@[k] < self.palette@.len() by {
                assert(first_uses(self.data@).contains(order@[k]));
                let i = choose|i: int| 0 <= i < self.data@.len() && self.data@[i] == order@[k];
            }
        }
        let palette = pick_names(&self.palette, &order);
        let ghost f = |o: u16| self.palette@[o as int]@;
        let ghost pal = names_of(palette@);
        proof {
            assert(pal.len() == palette@.len());
            assert(order@.map_values(f).len() == order@.len());
            assert(self@ =~= self.data@.map_values(f));
            assert forall|a1: u16, a2: u16|
                self.data@.contains(a1) && self.data@.contains(a2) && f(a1) == f(a2) implies a1
                == a2 by {
                let i = choose|i: int| 0 <= i < self.data@.len() && self.data@[i] == a1;
                let j = choose|j: int| 0 <= j < self.data@.len() && self.data@[j] == a2;
                assert(names_of(self.palette@)[a1 as int] == f(a1));
                assert(names_of(self.palette@)[a2 as int] == f(a2));
            }
            lemma_first_uses_map(self.data@, f);
            assert(pal =~= order@.map_values(f));
            lemma_first_uses(self@);
            assert(renumbered@[0] < order@.len());
            assert forall|k: int| 0 <= k < 4096 implies #[trigger] renumbered@[k] as int == pal.index_of(
                self@[k],
            ) by {
                assert(pal[renumbered@[k] as int] == f(order@[renumbered@[k] as int]));
                assert(pal[renumbered@[k] as int] == self@[k]);
                assert(pal.contains(self@[k]));
                let q = pal.index_of(self@[k]);
                assert(pal[q] == self@[k]);
            }
        }
        let data = if palette.len() <= 1 {
            None
        } else {
            let mut samples: Vec<u16> = Vec::new();
            let mut i: usize = 0;
            while i < 64
                invariant
                    i <= 64,
                    samples@.len() == i,
                    renumbered@.len() == 4096,
                    palette@.len() == pal.len(),
                    forall|k: int| 0 <= k < 4096 ==> #[trigger] renumbered@[k] as int == pal.index_of(self@[k]),
                    forall|k: int| 0 <= k < 4096 ==> #[trigger] renumbered@[k] < palette@.len(),
                    forall|q: int| 0 <= q < i ==> #[trigger] samples@[q] == renumbered@[sample_voxel(q)],
                decreases 64 - i,
            {
                let v = sample_index(i);
                samples.push(renumbered[v]);
                i = i + 1;
            }
            proof {
                assert(samples@ =~= Seq::new(64, |q: int| pal.index_of(Seq::new(64, |i: int| self@[sample_voxel(i)])[q]) as u16));
                lemma_two_entries_need_a_bit(palette@.len() as nat);
                assert forall|k: int| 0 <= k < samples@.len() implies (samples@[k] as nat)
                    < vstd::arithmetic::power2::pow2(bits_for(palette@.len() as nat, 0)) by {
                    assert(samples@[k] == renumbered@[sample_voxel(k)]);
                    assert(0 <= sample_voxel(k) < 4096);
                    lemma_index_fits(samples@[k] as nat, palette@.len() as nat, 0);
                }
            }
            Some(pack_data(samples, &palette.len(), 0))
        };
        PackedBiomes { palette, data }
    }

    /// Rebuilds the store from its serialized form. An empty palette stands
    /// for plains; absent data, or a palette of one entry, sets every voxel
    /// to the palette's first entry.
    pub fn from_packed(p: PackedBiomes) -> (r: Result<Biomes, ConvertError>)
        ensures
            match r {
                Ok(s) => s.wf() && s.palette_view() == (if p.palette@.len() == 0 {
                    seq![plains_view()]
                } else {
                    names_of(p.palette@)
                }) && decoded_biomes(names_of(p.palette@), words_view(p.data)) == Ok::<
                    Seq<Seq<char>>,
                    ConvertError,
                >(s@),
                Err(e) => decoded_biomes(names_of(p.palette@), words_view(p.data)) == Err::<
                    Seq<Seq<char>>,
                    ConvertError,
                >(e),
            },
    {
        let ghost pv = names_of(p.palette@);
        let ghost pd = words_view(p.data);
        let PackedBiomes { palette, data } = p;
        let palette = if palette.len() == 0 {
            let mut v: Vec<String> = Vec::new();
            v.push("minecraft:plains".to_owned());
            assert(names_of(v@) =~= seq![plains_view()]);
            v
        } else {
            palette
        };
        let ghost pal = names_of(palette@);
        assert(pal == if pv.len() == 0 {
            seq![plains_view()]
        } else {
            pv
        });
        if palette.len() > 65536 {
            return Err(ConvertError::InvalidPalette);
        }
        let mut i: usize = 0;
        while i < palette.len()
            invariant
                pv == names_of(p.palette@),
                pal == names_of(palette@),
                pal == if pv.len() == 0 {
                    seq![plains_view()]
                } else {
                    pv
                },
                palette@.len() <= 65536,
                i <= palette@.len(),
                forall|a: int, b: int| 0 <= a < i && a < b < palette@.len() ==> pal[a] != pal[b],
            decreases palette@.len() - i,
        {
            let mut j: usize = i + 1;
            while j < palette.len()
                invariant
                    pv == names_of(p.palette@),
                    pal == names_of(palette@),
                    pal == if pv.len() == 0 {
                        seq![plains_view()]
                    } else {
                        pv
                    },
                    palette@.len() <= 65536,
                    i < palette@.len(),
                    i < j <= palette@.len(),
                    forall|a: int, b: int| 0 <= a < i && a < b < palette@.len() ==> pal[a] != pal[b],
                    forall|b: int| i < b < j ==> pal[i as int] != pal[b],
                decreases palette@.len() - j,
            {
                if palette[i] == palette[j] {
                    assert(pal[i as int] == palette@[i as int]@);
                    assert(pal[j as int] == palette@[j as int]@);
                    assert(!pal.no_duplicates());
                    return Err(ConvertError::InvalidPalette);
                }
                j = j + 1;
            }
            i = i + 1;
        }
        assert(pal.no_duplicates()) by {
            assert forall|a: int, b: int| 0 <= a < pal.len() && 0 <= b < pal.len() && a != b implies pal[a] != pal[b] by {
                if a > b {
                    assert(pal[b] != pal[a]);
                }
            }
        }
        let words = match data {
            Some(words) if palette.len() > 1 => words,
            _ => {
                let s = Biomes { palette, data: vec![0u16; 4096] };
                assert(s@ =~= Seq::new(4096, |k: int| pal[0]));
                return Ok(s);
            },
        };
        let ghost w = words@;
        let ghost bits = bits_for(pal.len(), 0);
        assert(pd == Some(w));
        proof {
            lemma_two_entries_need_a_bit(palette@.len() as nat);
        }
        let unpacked = unpack_data(words, &palette.len(), 0);
        if unpacked.len() < 64 {
            return Err(ConvertError::ShortPaletteData);
        }
        let mut k: usize = 0;
        while k < 64
            invariant
                pv == names_of(p.palette@),
                pd == words_view(p.data),
                pd == Some(w),
                bits == bits_for(pal.len(), 0),
                pal == names_of(palette@),
                pal == if pv.len() == 0 {
                    seq![plains_view()]
                } else {
                    pv
                },
                pal.no_duplicates(),
                2 <= palette@.len() <= 65536,
                unpacked@.len() >= 64,
                unpacked@.len() == w.len() * per_word(bits),
                forall|q: int|
                    0 <= q < unpacked@.len() ==> #[trigger] unpacked@[q] as u64 == field(
                        w[q / per_word(bits) as int],
                        bits,
                        q % per_word(bits) as int,
                    ),
                k <= 64,
                forall|q: int| 0 <= q < k ==> #[trigger] unpacked@[q] < palette@.len(),
            decreases 64 - k,
        {
            if unpacked[k] as usize >= palette.len() {
                assert(unpacked@[k as int] as u64 == field(
                    w[k as int / per_word(bits) as int],
                    bits,
                    k as int % per_word(bits) as int,
                ));
                assert(!(w.len() * per_word(bits) < 64));
                assert(!(pal.len() > 65536 || !pal.no_duplicates()));
                assert(names_of(palette@).len() == palette@.len());
                assert(decoded_biomes(pv, pd) == Err::<Seq<Seq<char>>, ConvertError>(
                    ConvertError::PaletteIndexOutOfRange,
                ));
                return Err(ConvertError::PaletteIndexOutOfRange);
            }
            k = k + 1;
        }
        let mut spread: Vec<u16> = Vec::new();
        let mut v: usize = 0;
        while v < 4096
            invariant
                v <= 4096,
                spread@.len() == v,
                unpacked@.len() >= 64,
                forall|q: int| 0 <= q < 64 ==> #[trigger] unpacked@[q] < palette@.len(),
                forall|q: int| 0 <= q < v ==> #[trigger] spread@[q] == unpacked@[biome_slot(q)],
            decreases 4096 - v,
        {
            let slot = slot_of(v);
            spread.push(unpacked[slot]);
            v = v + 1;
        }
        let s = Biomes { palette, data: spread };
        proof {
            assert forall|q: int| 0 <= q < 4096 implies #[trigger] s.data@[q] < s.palette@.len() by {
                assert(spread@[q] == unpacked@[biome_slot(q)]);
                assert(unpacked@[biome_slot(q)] < palette@.len());
            }
            assert forall|q: int| 0 <= q < 64 implies #[trigger] field(
                w[q / per_word(bits) as int],
                bits,
                q % per_word(bits) as int,
            ) < pal.len() by {
                assert(unpacked@[q] < palette@.len());
            }
            assert forall|q: int| 0 <= q < 4096 implies #[trigger] s@[q] == unpacked_voxel(pal, w, bits, biome_slot(q)) by {
                assert(spread@[q] == unpacked@[biome_slot(q)]);
                assert(unpacked@[biome_slot(q)] as u64 == field(
                    w[biome_slot(q) / per_word(bits) as int],
                    bits,
                    biome_slot(q) % per_word(bits) as int,
                ));
            }
            assert(s@ =~= Seq::new(4096, |q: int| unpacked_voxel(pal, w, bits, biome_slot(q))));
        }
        Ok(s)
    }
}

/// Two or more palette entries need at least one bit.
proof fn lemma_two_entries_need_a_bit(n: nat)
    requires
        n >= 2,
    ensures
        crate::palette::ceil_log2(n) >= 1,
{
}

/// A 16x16x16 section of a chunk: its height index and its block and biome
/// stores.
#[derive(Debug)]
pub struct Section {
    pub y: i8,
    pub block_states: BlockStates,
    pub biomes: Biomes,
}

/// A section as serialized.
#[derive(Debug)]
pub struct PackedSection {
    pub y: i8,
    pub block_states: PackedBlockStates,
    pub biomes: PackedBiomes,
}

impl Section {
    pub open spec fn wf(&self) -> bool {
        self.block_states.wf() && self.biomes.wf()
    }

    /// A section of air in the plains.
    pub fn new(y: i8) -> (r: Section)
        ensures
            r.wf(),
            r.y == y,
            forall|i: int| 0 <= i < 4096 ==> #[trigger] r.block_states@[i] == air_view(),
            forall|i: int| 0 <= i < 4096 ==> #[trigger] r.biomes@[i] == plains_view(),
    {
        Section {
            y,
            block_states: BlockStates::filled(BlockState::air()),
            biomes: Biomes::filled("minecraft:plains".to_owned()),
        }
    }

    /// The serialized form of both stores.
    pub fn to_packed(&self) -> (r: PackedSection)
        requires
            self.wf(),
        ensures
            r.y == self.y,
            serializes(
                views_of(r.block_states.palette@),
                words_view(r.block_states.data),
                self.block_states@,
                self.block_states@,
                4,
            ),
            serializes(
                names_of(r.biomes.palette@),
                words_view(r.biomes.data),
                self.biomes@,
                Seq::new(64, |i: int| self.biomes@[sample_voxel(i)]),
                0,
            ),
    {
        PackedSection {
            y: self.y,
            block_states: self.block_states.to_packed(),
            biomes: self.biomes.to_packed(),
        }
    }

    /// Rebuilds a section from its serialized form; a fault in the block
    /// states is reported before one in the biomes.
    pub fn from_packed(p: PackedSection) -> (r: Result<Section, ConvertError>)
        ensures
            match (
                decoded_states(views_of(p.block_states.palette@), words_view(p.block_states.data)),
                decoded_biomes(names_of(p.biomes.palette@), words_view(p.biomes.data)),
            ) {
                (Ok(b), Ok(m)) => r matches Ok(s) && s.wf() && s.y == p.y && s.block_states@ == b
                    && s.biomes@ == m,
                (Err(e), _) => r == Err::<Section, ConvertError>(e),
                (Ok(_), Err(e)) => r == Err::<Section, ConvertError>(e),
            },
    {
        let PackedSection { y, block_states, biomes } = p;
        let block_states = match BlockStates::from_packed(block_states) {
            Ok(b) => b,
            Err(e) => return Err(e),
        };
        let biomes = match Biomes::from_packed(biomes) {
            Ok(b) => b,
            Err(e) => return Err(e),
        };
        Ok(Section { y, block_states, biomes })
    }
}

/// Whether `(x, y, z)` lies in a chunk: `x` and `z` in `[0, 16)`, `y` in
/// `[-64, 320)`.
pub open spec fn in_chunk(x: int, y: int, z: int) -> bool {
    0 <= x < 16 && 0 <= z < 16 && -64 <= y < 320
}

/// The section that holds height `y`: `floor(y / 16) + 4`.
pub open spec fn section_of(y: int) -> int {
    (y + 64) / 16
}

/// The index of `(x, y, z)` inside its section: `((y mod 16) << 8) | (z << 4) | x`.
pub open spec fn voxel_of(x: int, y: int, z: int) -> int {
    ((y + 64) % 16) * 256 + z * 16 + x
}

/// A chunk of the target format: its position, its generation status and
/// its sections from the bottom of the world up.
#[derive(Debug)]
pub struct Chunk {
    pub x: i32,
    pub z: i32,
    pub status: String,
    pub sections: Vec<Section>,
}

impl Chunk {
    pub open spec fn wf(&self) -> bool {
        forall|i: int| 0 <= i < self.sections@.len() ==> #[trigger] self.sections@[i].wf()
    }

    /// The state of block `(x, y, z)`, for a position inside the chunk.
    pub open spec fn block_view(&self, x: int, y: int, z: int) -> StateView {
        self.sections@[section_of(y)].block_states@[voxel_of(x, y, z)]
    }

    /// A chunk of air in the plains with the 24 sections from height -64 to 320.
    pub fn new(x: i32, z: i32, status: String) -> (r: Chunk)
        ensures
            r.wf(),
            r.x == x,
            r.z == z,
            r.status@ == status@,
            r.sections@.len() == 24,
            forall|i: int| 0 <= i < 24 ==> (#[trigger] r.sections@[i]).y == i - 4,
            forall|bx: int, by: int, bz: int|
                in_chunk(bx, by, bz) ==> #[trigger] r.block_view(bx, by, bz) == air_view(),
    {
        let mut sections: Vec<Section> = Vec::new();
        let mut i: usize = 0;
        while i < 24
            invariant
                i <= 24,
                sections@.len() == i,
                forall|q: int| 0 <= q < i ==> (#[trigger] sections@[q]).wf() && sections@[q].y == q - 4,
                forall|q: int, v: int|
                    0 <= q < i && 0 <= v < 4096 ==> #[trigger] sections@[q].block_states@[v] == air_view(),
            decreases 24 - i,
        {
            let section = Section::new(i as i8 - 4);
            let ghost before = sections@;
            sections.push(section);
            assert forall|q: int, v: int|
                0 <= q < i + 1 && 0 <= v < 4096 implies #[trigger] sections@[q].block_states@[v] == air_view() by {
                if q < i {
                    assert(sections@[q] == before[q]);
                    assert(before[q].block_states@[v] == air_view());
                } else {
                    assert(sections@[q] == section);
                }
            }
            i = i + 1;
        }
        let r = Chunk { x, z, status, sections };
        assert forall|bx: int, by: int, bz: int| in_chunk(bx, by, bz) implies #[trigger] r.block_view(
            bx,
            by,
            bz,
        ) == air_view() by {
            assert(0 <= section_of(by) < 24);
            assert(0 <= voxel_of(bx, by, bz) < 4096);
        }
        r
    }

    pub fn set_chunk_pos(&mut self, x: i32, z: i32)
        ensures
            *final(self) == (Chunk { x, z, ..*old(self) }),
    {
        self.x = x;
        self.z = z;
    }

    pub fn set_status(&mut self, status: String)
        ensures
            *final(self) == (Chunk { status, ..*old(self) }),
    {
        self.status = status;
    }

    /// The block at `(x, y, z)`, if that lies inside the chunk.
    pub fn block(&self, x: u32, y: i32, z: u32) -> (r: Option<&BlockState>)
        requires
            self.wf(),
        ensures
            match r {
                Some(b) => in_chunk(x as int, y as int, z as int) && section_of(y as int)
                    < self.sections@.len() && b@ == self.block_view(x as int, y as int, z as int),
                None => !(in_chunk(x as int, y as int, z as int) && section_of(y as int)
                    < self.sections@.len()),
            },
    {
        if x >= 16 || z >= 16 || y < -64 || y >= 320 {
            return None;
        }
        let s = ((y + 64) / 16) as usize;
        if s >= self.sections.len() {
            return None;
        }
        let idx = ((y + 64) % 16) as usize * 256 + z as usize * 16 + x as usize;
        assert(self.sections@[s as int].wf());
        Some(self.sections[s].block_states.get(idx))
    }

    /// Sets block `(x, y, z)` to `block`; fails with `OutOfBounds` outside
    /// the chunk or where the chunk lacks the section.
    pub fn set_block(&mut self, x: u32, y: i32, z: u32, block: BlockState) -> (r: Result<(), ConvertError>)
        requires
            old(self).wf(),
        ensures
            final(self).wf(),
            r is Ok <==> in_chunk(x as int, y as int, z as int) && section_of(y as int) < old(self).sections@.len(),
            r is Err ==> r == Err::<(), ConvertError>(ConvertError::OutOfBounds) && *final(self)
                == *old(self),
            r is Ok ==> blocks_set(
                *old(self),
                *final(self),
                section_of(y as int),
                voxel_of(x as int, y as int, z as int),
                block@,
            ),
    {
        if x >= 16 || z >= 16 || y < -64 || y >= 320 {
            return Err(ConvertError::OutOfBounds);
        }
        let s = ((y + 64) / 16) as usize;
        if s >= self.sections.len() {
            return Err(ConvertError::OutOfBounds);
        }
        let idx = ((y + 64) % 16) as usize * 256 + z as usize * 16 + x as usize;
        assert(self.sections@[s as int].wf());
        self.sections[s].block_states.set(idx, block);
        Ok(())
    }

    /// Gives every section the single biome `biome`.
    pub fn set_biome(&mut self, biome: String)
        requires
            old(self).wf(),
        ensures
            final(self).wf(),
            final(self).x == old(self).x,
            final(self).z == old(self).z,
            final(self).status == old(self).status,
            final(self).sections@.len() == old(self).sections@.len(),
            forall|i: int|
                0 <= i < old(self).sections@.len() ==> (#[trigger] final(self).sections@[i]).y == old(self).sections@[i].y && final(self).sections@[i].block_states == old(self).sections@[i].block_states,
            forall|i: int, v: int|
                0 <= i < old(self).sections@.len() && 0 <= v < 4096 ==> #[trigger] final(self).sections@[i].biomes@[v] == biome@,
    {
        let mut i: usize = 0;
        while i < self.sections.len()
            invariant
                i <= self.sections@.len(),
                self.wf(),
                self.x == old(self).x,
                self.z == old(self).z,
                self.status == old(self).status,
                self.sections@.len() == old(self).sections@.len(),
                forall|q: int|
                    0 <= q < old(self).sections@.len() ==> (#[trigger] self.sections@[q]).y == old(self).sections@[q].y && self.sections@[q].block_states == old(self).sections@[q].block_states,
                forall|q: int| i <= q < old(self).sections@.len() ==> #[trigger] self.sections@[q] == old(self).sections@[q],
                forall|q: int, v: int|
                    0 <= q < i && 0 <= v < 4096 ==> #[trigger] self.sections@[q].biomes@[v] == biome@,
            decreases old(self).sections@.len() - i,
        {
            let ghost before = self.sections@;
            assert(before[i as int].wf());
            assert(forall|q: int, v: int| 0 <= q < i && 0 <= v < 4096 ==> #[trigger] before[q].biomes@[v] == biome@);
            let filled = Biomes::filled(biome.clone());
            assert(forall|v: int| 0 <= v < 4096 ==> #[trigger] filled@[v] == biome@);
            self.sections[i].biomes = filled;
            assert forall|q: int| 0 <= q < self.sections@.len() implies #[trigger] self.sections@[q].wf() by {
                if q != i {
                    assert(self.sections@[q] == before[q]);
                    assert(before[q].wf());
                }
            }
            assert forall|q: int, v: int|
                0 <= q < i + 1 && 0 <= v < 4096 implies #[trigger] self.sections@[q].biomes@[v] == biome@ by {
                if q < i {
                    assert(self.sections@[q] == before[q]);
                    assert(before[q].biomes@[v] == biome@);
                } else {
                    assert(self.sections@[q].biomes == filled);
                    assert(filled@[v] == biome@);
                }
            }
            i = i + 1;
        }
    }

    /// Sets block `(x, y, z)` to `block` and its biome to `biome`; fails with
    /// `OutOfBounds` outside the chunk or where the chunk lacks the section.
    pub fn set_block_biome(
        &mut self,
        x: u32,
        y: i32,
        z: u32,
        block: BlockState,
        biome: String,
    ) -> (r: Result<(), ConvertError>)
        requires
            old(self).wf(),
        ensures
            final(self).wf(),
            r is Ok <==> in_chunk(x as int, y as int, z as int) && section_of(y as int) < old(self).sections@.len(),
            r is Err ==> r == Err::<(), ConvertError>(ConvertError::OutOfBounds) && *final(self)
                == *old(self),
            r is Ok ==> {
                let s = section_of(y as int);
                let v = voxel_of(x as int, y as int, z as int);
                &&& final(self).x == old(self).x && final(self).z == old(self).z
                &&& final(self).status == old(self).status
                &&& final(self).sections@.len() == old(self).sections@.len()
                &&& forall|i: int|
                    0 <= i < old(self).sections@.len() && i != s ==> #[trigger] final(self).sections@[i] == old(self).sections@[i]
                &&& final(self).sections@[s].y == old(self).sections@[s].y
                &&& final(self).sections@[s].block_states@ == old(self).sections@[s].block_states@.update(v, block@)
                &&& final(self).sections@[s].biomes@ == old(self).sections@[s].biomes@.update(
                    v,
                    biome@,
                )
                &&& interned(
                    old(self).sections@[s].block_states.palette_view(),
                    final(self).sections@[s].block_states.palette_view(),
                    block@,
                )
                &&& interned(
                    old(self).sections@[s].biomes.palette_view(),
                    final(self).sections@[s].biomes.palette_view(),
                    biome@,
                )
            },
    {
        if x >= 16 || z >= 16 || y < -64 || y >= 320 {
            return Err(ConvertError::OutOfBounds);
        }
        let s = ((y + 64) / 16) as usize;
        if s >= self.sections.len() {
            return Err(ConvertError::OutOfBounds);
        }
        let idx = ((y + 64) % 16) as usize * 256 + z as usize * 16 + x as usize;
        assert(self.sections@[s as int].wf());
        self.sections[s].block_states.set(idx, block);
        self.sections[s].biomes.set(idx, biome);
        Ok(())
    }
}

/// `after` is `before` with voxel `v` of section `s` set to `state`, and
/// nothing else changed.
pub open spec fn blocks_set(before: Chunk, after: Chunk, s: int, v: int, state: StateView) -> bool {
    &&& after.x == before.x && after.z == before.z
    &&& after.status == before.status
    &&& after.sections@.len() == before.sections@.len()
    &&& forall|i: int|
        0 <= i < before.sections@.len() && i != s ==> #[trigger] after.sections@[i]
            == before.sections@[i]
    &&& after.sections@[s].y == before.sections@[s].y
    &&& after.sections@[s].biomes == before.sections@[s].biomes
    &&& after.sections@[s].block_states@ == before.sections@[s].block_states@.update(v, state)
    &&& interned(
        before.sections@[s].block_states.palette_view(),
        after.sections@[s].block_states.palette_view(),
        state,
    )
}

fn copy_indices(v: &Vec<u16>) -> (r: Vec<u16>)
    ensures
        r@ == v@,
{
    let mut out: Vec<u16> = Vec::new();
    let mut i: usize = 0;
    while i < v.len()
        invariant
            i <= v@.len(),
            out@ =~= v@.take(i as int),
        decreases v@.len() - i,
    {
        out.push(v[i]);
        i = i + 1;
    }
    assert(v@.take(v@.len() as int) =~= v@);
    out
}

fn identity_order(n: usize) -> (r: Vec<u16>)
    requires
        n <= 65536,
    ensures
        r@.len() == n,
        forall|k: int| 0 <= k < n ==> r@[k] == k,
{
    let mut out: Vec<u16> = Vec::new();
    let mut i: usize = 0;
    while i < n
        invariant
            i <= n <= 65536,
            out@.len() == i,
            forall|k: int| 0 <= k < i ==> out@[k] == k,
        decreases n - i,
    {
        out.push(i as u16);
        i = i + 1;
    }
    out
}

impl Clone for BlockStates {
    fn clone(&self) -> (r: Self)
        ensures
            self.wf() ==> r.wf() && r@ == self@,
    {
        if self.palette.len() > 65536 {
            return BlockStates::filled(BlockState::air());
        }
        let order = identity_order(self.palette.len());
        let palette = pick_states(&self.palette, &order);
        let data = copy_indices(&self.data);
        let r = BlockStates { palette, data };
        proof {
            assert(views_of(r.palette@) =~= views_of(self.palette@)) by {
                assert forall|k: int| 0 <= k < self.palette@.len() implies views_of(r.palette@)[k]
                    == views_of(self.palette@)[k] by {
                    assert(views_of(r.palette@)[k] == order@.map_values(|o: u16| self.palette@[o as int]@)[k]);
                }
            }
            if self.wf() {
                assert forall|i: int| 0 <= i < 4096 implies #[trigger] r@[i] == self@[i] by {
                    assert(views_of(r.palette@)[r.data@[i] as int] == views_of(self.palette@)[self.data@[i] as int]);
                }
                assert(r@ =~= self@);
            }
        }
        r
    }
}

impl Clone for Biomes {
    fn clone(&self) -> (r: Self)
        ensures
            self.wf() ==> r.wf() && r@ == self@,
    {
        if self.palette.len() > 65536 {
            return Biomes::filled("minecraft:plains".to_owned());
        }
        let order = identity_order(self.palette.len());
        let palette = pick_names(&self.palette, &order);
        let data = copy_indices(&self.data);
        let r = Biomes { palette, data };
        proof {
            assert(names_of(r.palette@) =~= names_of(self.palette@)) by {
                assert forall|k: int| 0 <= k < self.palette@.len() implies names_of(r.palette@)[k]
                    == names_of(self.palette@)[k] by {
                    assert(names_of(r.palette@)[k] == order@.map_values(|o: u16| self.palette@[o as int]@)[k]);
                }
            }
            if self.wf() {
                assert forall|i: int| 0 <= i < 4096 implies #[trigger] r@[i] == self@[i] by {
                    assert(names_of(r.palette@)[r.data@[i] as int] == names_of(self.palette@)[self.data@[i] as int]);
                }
                assert(r@ =~= self@);
            }
        }
        r
    }
}

/// `a` and `b` hold the same blocks and biomes at the same height index.
pub open spec fn same_section(a: Section, b: Section) -> bool {
    a.y == b.y && a.block_states@ == b.block_states@ && a.biomes@ == b.biomes@
}

impl Clone for Section {
    fn clone(&self) -> (r: Self)
        ensures
            self.wf() ==> r.wf() && same_section(r, *self),
    {
        Section { y: self.y, block_states: self.block_states.clone(), biomes: self.biomes.clone() }
    }
}

impl Clone for Chunk {
    fn clone(&self) -> (r: Self)
        ensures
            self.wf() ==> r.wf(),
            r.x == self.x,
            r.z == self.z,
            r.status == self.status,
            r.sections@.len() == self.sections@.len(),
            self.wf() ==> forall|i: int|
                0 <= i < self.sections@.len() ==> same_section(#[trigger] r.sections@[i], self.sections@[i]),
    {
        let mut sections: Vec<Section> = Vec::new();
        let mut i: usize = 0;
        while i < self.sections.len()
            invariant
                i <= self.sections@.len(),
                sections@.len() == i,
                self.wf() ==> forall|q: int|
                    0 <= q < i ==> (#[trigger] sections@[q]).wf() && same_section(sections@[q], self.sections@[q]),
            decreases self.sections@.len() - i,
        {
            sections.push(self.sections[i].clone());
            i = i + 1;
        }
        Chunk { x: self.x, z: self.z, status: self.status.clone(), sections }
    }
}

/// The height of voxel `v` of section `s`.
pub open spec fn height_of(s: int, v: int) -> int {
    s * 16 - 64 + v / 256
}

/// Whether voxel `v` lies in the column at `(x, z)` of its section.
pub open spec fn in_column(v: int, x: int, z: int) -> bool {
    v % 16 == x && (v / 16) % 16 == z
}

impl Chunk {
    /// Sets the blocks at `(x, y, z)` for every `y` in `[lo, hi)` to `block`.
    pub fn fill_column(&mut self, x: u32, z: u32, lo: i32, hi: i32, block: &BlockState)
        requires
            old(self).wf(),
            old(self).sections@.len() >= 24,
            x < 16,
            z < 16,
            -64 <= lo <= hi <= 320,
        ensures
            final(self).wf(),
            final(self).x == old(self).x,
            final(self).z == old(self).z,
            final(self).status == old(self).status,
            final(self).sections@.len() == old(self).sections@.len(),
            forall|s: int|
                0 <= s < old(self).sections@.len() ==> (#[trigger] final(self).sections@[s]).y == old(self).sections@[s].y
                    && final(self).sections@[s].biomes == old(self).sections@[s].biomes,
            forall|s: int, v: int|
                0 <= s < old(self).sections@.len() && 0 <= v < 4096 ==> #[trigger] final(self).sections@[s].block_states@[v]
                    == if in_column(v, x as int, z as int) && lo <= height_of(s, v) < hi {
                    block@
                } else {
                    old(self).sections@[s].block_states@[v]
                },
    {
        let mut y: i32 = lo;
        while y < hi
            invariant
                lo <= y <= hi <= 320,
                -64 <= lo,
                x < 16,
                z < 16,
                self.wf(),
                self.x == old(self).x,
                self.z == old(self).z,
                self.status == old(self).status,
                self.sections@.len() == old(self).sections@.len(),
                old(self).sections@.len() >= 24,
                forall|s: int|
                    0 <= s < old(self).sections@.len() ==> (#[trigger] self.sections@[s]).y == old(self).sections@[s].y
                        && self.sections@[s].biomes == old(self).sections@[s].biomes,
                forall|s: int, v: int|
                    0 <= s < old(self).sections@.len() && 0 <= v < 4096 ==> #[trigger] self.sections@[s].block_states@[v]
                        == if in_column(v, x as int, z as int) && lo <= height_of(s, v) < y {
                        block@
                    } else {
                        old(self).sections@[s].block_states@[v]
                    },
            decreases hi - y,
        {
            let s = ((y + 64) / 16) as usize;
            let base = s as i32 * 16 - 64;
            let top = if hi < base + 16 {
                hi
            } else {
                base + 16
            };
            let y_from = (y - base) as usize;
            let y_to = (top - base) as usize;
            let ghost before = self.sections@;
            assert(before[s as int].wf());
            self.sections[s].block_states.set_column(x as usize, z as usize, y_from, y_to, block.clone());
            proof {
                assert forall|q: int, v: int|
                    0 <= q < old(self).sections@.len() && 0 <= v < 4096 implies #[trigger] self.sections@[q].block_states@[v]
                        == if in_column(v, x as int, z as int) && lo <= height_of(q, v) < top {
                        block@
                    } else {
                        old(self).sections@[q].block_states@[v]
                    } by {
                    assert(before[q].block_states@[v] == if in_column(v, x as int, z as int) && lo <= height_of(q, v) < y {
                        block@
                    } else {
                        old(self).sections@[q].block_states@[v]
                    });
                    if q != s {
                        assert(self.sections@[q] == before[q]);
                    }
                }
                assert forall|q: int| 0 <= q < self.sections@.len() implies #[trigger] self.sections@[q].wf() by {
                    if q != s {
                        assert(self.sections@[q] == before[q]);
                    }
                }
                assert forall|q: int|
                    0 <= q < old(self).sections@.len() implies (#[trigger] self.sections@[q]).y == old(self).sections@[q].y
                        && self.sections@[q].biomes == old(self).sections@[q].biomes by {
                    if q != s {
                        assert(self.sections@[q] == before[q]);
                    }
                }
            }
            y = top;
        }
    }
}

/// A block-state store always holds 4096 voxels.
pub broadcast proof fn lemma_states_len(s: &BlockStates)
    ensures
        #[trigger] s@.len() == 4096,
{
}

/// A biome store always holds 4096 voxels.
pub broadcast proof fn lemma_biomes_len(b: &Biomes)
    ensures
        #[trigger] b@.len() == 4096,
{
}

/// A section's height index picks it, and its low bits pick the voxel: the
/// bottom height -64 writes section 0 at `(z << 4) | x`, the top height 319
/// writes section 23 at `(15 << 8) | (z << 4) | x`.
pub proof fn lemma_height_extremes(x: u32, z: u32)
    requires
        x < 16,
        z < 16,
    ensures
        section_of(-64) == 0,
        voxel_of(x as int, -64, z as int) == ((z << 4) | x),
        section_of(319) == 23,
        voxel_of(x as int, 319, z as int) == ((15u32 << 8) | (z << 4) | x),
{
    assert(((z << 4) | x) == z * 16 + x) by (bit_vector)
        requires
            x < 16,
            z < 16,
    ;
    assert(((15u32 << 8) | (z << 4) | x) == 3840 + z * 16 + x) by (bit_vector)
        requires
            x < 16,
            z < 16,
    ;
}

/// The palette of a store holds each state once, so looking a palette entry
/// up gives back its own position: the palette and its reverse lookup are
/// inverse to each other.
pub proof fn lemma_palette_lookup(s: &BlockStates, i: int)
    requires
        s.wf(),
        0 <= i < s.palette_view().len(),
    ensures
        s.palette_view().no_duplicates(),
        s.palette_view().index_of(s.palette_view()[i]) == i,
{
    let pv = s.palette_view();
    assert(pv.contains(pv[i]));
}

/// Serializing block states and deserializing the result gives every voxel
/// its state back: a palette and data that `to_packed` may return for `s`
/// (`serializes`) decode, as `from_packed` does, to `s`'s voxels.
pub proof fn lemma_states_round_trip(s: &BlockStates, pal: Seq<StateView>, data: Option<Seq<i64>>)
    requires
        s.wf(),
        serializes(pal, data, s@, s@, 4),
    ensures
        decoded_states(pal, data) == Ok::<Seq<StateView>, ConvertError>(s@),
{
    let v = s@;
    lemma_first_uses(v);
    assert(v.contains(v[0]));
    assert(pal.contains(v[0]));
    assert(pal.len() >= 1);
    assert(pal.len() <= 4096);
    match data {
        None => {
            assert forall|k: int| 0 <= k < 4096 implies v[k] == pal[0] by {
                assert(v.contains(v[k]));
                assert(pal.contains(v[k]));
            }
            assert(Seq::new(4096, |k: int| pal[0]) =~= v);
        },
        Some(words) => {
            let bits = bits_for(pal.len(), 4);
            let idx = Seq::new(v.len(), |k: int| pal.index_of(v[k]) as u16);
            crate::palette::lemma_bits_width(pal.len(), 4);
            let per = per_word(bits) as int;
            let n = 4096int;
            let len = words.len() as int;
            assert(per >= 1) by (nonlinear_arith)
                requires
                    per == 64int / (bits as int),
                    1 <= bits <= 16,
            ;
            assert(n <= len * per) by (nonlinear_arith)
                requires
                    len == (n + per - 1) / per,
                    per > 0,
            ;
            assert forall|k: int| 0 <= k < 4096 implies #[trigger] field(
                words[k / per_word(bits) as int],
                bits,
                k % per_word(bits) as int,
            ) == pal.index_of(v[k]) && pal.index_of(v[k]) < pal.len() && pal[pal.index_of(v[k])] == v[k] by {
                assert(v.contains(v[k]));
                assert(pal.contains(v[k]));
                assert(idx[k] as u64 == field(words[k / per_word(bits) as int], bits, k % per_word(bits) as int));
            }
            assert(Seq::new(4096, |k: int| unpacked_voxel(pal, words, bits, k)) =~= v);
        },
    }
}

/// Serializing biomes and deserializing the result gives every voxel the
/// biome of the voxel that samples its 4x4x4 cube.
pub proof fn lemma_biomes_round_trip(b: &Biomes, pal: Seq<Seq<char>>, data: Option<Seq<i64>>)
    requires
        b.wf(),
        serializes(pal, data, b@, Seq::new(64, |i: int| b@[sample_voxel(i)]), 0),
    ensures
        decoded_biomes(pal, data) == Ok::<Seq<Seq<char>>, ConvertError>(
            Seq::new(4096, |k: int| b@[sample_voxel(biome_slot(k))]),
        ),
{
    let v = b@;
    let samples = Seq::new(64, |i: int| v[sample_voxel(i)]);
    lemma_first_uses(v);
    assert(v.contains(v[0]));
    assert(pal.contains(v[0]));
    assert(pal.len() >= 1);
    assert(pal.len() <= 4096);
    let target = Seq::new(4096, |k: int| v[sample_voxel(biome_slot(k))]);
    if pal.len() == 1 {
        assert forall|k: int| 0 <= k < 4096 implies target[k] == pal[0] by {
            let q = sample_voxel(biome_slot(k));
            assert(v.contains(v[q]));
            assert(pal.contains(v[q]));
        }
        assert(Seq::new(4096, |k: int| pal[0]) =~= target);
    } else {
        let words = data->Some_0;
        let bits = bits_for(pal.len(), 0);
        lemma_two_entries_need_a_bit(pal.len());
        crate::palette::lemma_bits_width(pal.len(), 1);
        assert(bits == bits_for(pal.len(), 1));
        let idx = Seq::new(samples.len(), |k: int| pal.index_of(samples[k]) as u16);
        let per = per_word(bits) as int;
        let n = 64int;
        let len = words.len() as int;
        assert(per >= 1) by (nonlinear_arith)
            requires
                per == 64int / (bits as int),
                1 <= bits <= 16,
        ;
        assert(n <= len * per) by (nonlinear_arith)
            requires
                len == (n + per - 1) / per,
                per > 0,
        ;
        assert forall|i: int| 0 <= i < 64 implies #[trigger] field(
            words[i / per_word(bits) as int],
            bits,
            i % per_word(bits) as int,
        ) == pal.index_of(samples[i]) && pal.index_of(samples[i]) < pal.len() && pal[pal.index_of(samples[i])] == samples[i] by {
            assert(v.contains(v[sample_voxel(i)]));
            assert(pal.contains(samples[i]));
            assert(idx[i] as u64 == field(words[i / per_word(bits) as int], bits, i % per_word(bits) as int));
        }
        assert forall|k: int| 0 <= k < 4096 implies #[trigger] target[k] == unpacked_voxel(pal, words, bits, biome_slot(k)) by {
            assert(0 <= biome_slot(k) < 64);
        }
        assert(Seq::new(4096, |k: int| unpacked_voxel(pal, words, bits, biome_slot(k))) =~= target);
    }
}

} // verus!

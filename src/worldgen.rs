use crate::chunk::{height_of, in_column, pairs_view, BlockState, Chunk, StateView};
use crate::data::{
    entries_view, DHFullDataPoint, DHSectionData, DHSectionPos, EntryView, RegionPos,
};
use crate::error::ConvertError;
use vstd::prelude::*;
use vstd::utf8::{encode_utf8, encode_utf8_decode_utf8};

verus! {

/// The offset from far-render heights to world heights.
pub const Y_OFFSET: i32 = -64;

/// How many far-render sections lie along one side of a region.
pub const SECTION_REGION_SCALE: usize = 8;

/// A progress event sent from a worker to the reporter.
#[allow(inconsistent_fields)]
#[derive(Debug, Clone, Copy, PartialEq, Eq, Structural)]
pub enum WorldGenStatus {
    StartRegion { pos: RegionPos, thread_idx: usize },
    FinishDHSection { pos: DHSectionPos },
    FinishRegion { pos: RegionPos },
}

/// Whether the section coordinates of a region fit the 32-bit fields.
pub open spec fn region_fits(region: RegionPos) -> bool {
    -0x1000_0000 <= region.x < 0x1000_0000 && -0x1000_0000 <= region.z < 0x1000_0000
}

/// The `k`-th section of a region, in section-major, row-major order.
pub open spec fn region_section(region: RegionPos, k: int) -> DHSectionPos {
    DHSectionPos { x: (region.x * 8 + k / 8) as i32, z: (region.z * 8 + k % 8) as i32 }
}

/// The events of one region's work, in order: its start, one finish per
/// section of the region, and its finish.
pub open spec fn region_events(region: RegionPos, thread_idx: usize) -> Seq<WorldGenStatus> {
    seq![WorldGenStatus::StartRegion { pos: region, thread_idx }] + Seq::new(
        64,
        |k: int| WorldGenStatus::FinishDHSection { pos: region_section(region, k) },
    ) + seq![WorldGenStatus::FinishRegion { pos: region }]
}

/// The progress of one region's work: which of its 64 sections are done.
#[derive(Debug)]
pub struct RegionRun {
    region: RegionPos,
    thread_idx: usize,
    done: usize,
}

impl RegionRun {
    pub closed spec fn region(&self) -> RegionPos {
        self.region
    }

    pub closed spec fn thread_idx(&self) -> usize {
        self.thread_idx
    }

    /// How many sections are done.
    pub closed spec fn done(&self) -> nat {
        self.done as nat
    }

    pub closed spec fn wf(&self) -> bool {
        self.done <= 64 && region_fits(self.region)
    }

    /// Starts the work on `region` in worker `thread_idx`, with the event
    /// that announces it.
    pub fn start(region: RegionPos, thread_idx: usize) -> (r: (RegionRun, WorldGenStatus))
        requires
            region_fits(region),
        ensures
            r.0.wf(),
            r.0.region() == region,
            r.0.thread_idx() == thread_idx,
            r.0.done() == 0,
            r.1 == region_events(region, thread_idx)[0],
    {
        (RegionRun { region, thread_idx, done: 0 }, WorldGenStatus::StartRegion { pos: region, thread_idx })
    }

    /// The next section to work on, with its offsets `(osx, osz)` inside the
    /// region, or none once all 64 are done.
    pub fn next_section(&self) -> (r: Option<(DHSectionPos, usize, usize)>)
        requires
            self.wf(),
        ensures
            self.done() < 64 ==> r == Some((
                region_section(self.region(), self.done() as int),
                (self.done() / 8) as usize,
                (self.done() % 8) as usize,
            )),
            self.done() == 64 ==> r is None,
    {
        if self.done == 64 {
            None
        } else {
            let osx = self.done / 8;
            let osz = self.done % 8;
            let pos = DHSectionPos {
                x: self.region.x * 8 + osx as i32,
                z: self.region.z * 8 + osz as i32,
            };
            Some((pos, osx, osz))
        }
    }

    /// Marks the next section done, with the event that reports it.
    pub fn finish_section(&mut self) -> (r: WorldGenStatus)
        requires
            old(self).wf(),
            old(self).done() < 64,
        ensures
            final(self).wf(),
            final(self).region() == old(self).region(),
            final(self).thread_idx() == old(self).thread_idx(),
            final(self).done() == old(self).done() + 1,
            r == region_events(old(self).region(), old(self).thread_idx())[old(self).done() + 1int],
    {
        let osx = self.done / 8;
        let osz = self.done % 8;
        let pos = DHSectionPos { x: self.region.x * 8 + osx as i32, z: self.region.z * 8 + osz as i32 };
        self.done = self.done + 1;
        WorldGenStatus::FinishDHSection { pos }
    }

    /// Ends the work on the region once all its sections are done, with the
    /// event that reports it.
    pub fn finish(self) -> (r: WorldGenStatus)
        requires
            self.wf(),
            self.done() == 64,
        ensures
            r == region_events(self.region(), self.thread_idx())[65],
    {
        WorldGenStatus::FinishRegion { pos: self.region }
    }
}

/// A region's work reports exactly 64 finished sections, all after its start
/// and before its finish; they are the 64 distinct sections of the region.
pub proof fn lemma_region_events(region: RegionPos, thread_idx: usize)
    requires
        region_fits(region),
    ensures
        region_events(region, thread_idx).len() == 66,
        region_events(region, thread_idx)[0] == (WorldGenStatus::StartRegion { pos: region, thread_idx }),
        region_events(region, thread_idx)[65] == (WorldGenStatus::FinishRegion { pos: region }),
        forall|k: int|
            1 <= k <= 64 ==> (#[trigger] region_events(region, thread_idx)[k]) is FinishDHSection,
        forall|k: int|
            1 <= k <= 64 ==> ((#[trigger] region_events(region, thread_idx)[k])->FinishDHSection_pos.x
                >> 3) == region.x && (region_events(region, thread_idx)[k]->FinishDHSection_pos.z
                >> 3) == region.z,
        forall|j: int, k: int|
            1 <= j < k <= 64 ==> #[trigger] region_events(region, thread_idx)[j]
                != #[trigger] region_events(region, thread_idx)[k],
{
    let ev = region_events(region, thread_idx);
    assert forall|k: int| 1 <= k <= 64 implies (#[trigger] ev[k]) == (WorldGenStatus::FinishDHSection {
        pos: region_section(region, k - 1),
    }) by {}
    assert forall|k: int| 1 <= k <= 64 implies ((#[trigger] ev[k])->FinishDHSection_pos.x >> 3)
        == region.x && (ev[k]->FinishDHSection_pos.z >> 3) == region.z by {
        let q = k - 1;
        let ox = (q / 8) as i32;
        let oz = (q % 8) as i32;
        assert(0 <= ox < 8 && 0 <= oz < 8);
        assert(ox == q / 8 && oz == q % 8);
        let rx = region.x;
        let rz = region.z;
        let sx = (rx * 8 + ox) as i32;
        let sz = (rz * 8 + oz) as i32;
        assert(sx == rx * 8 + ox);
        assert(sz == rz * 8 + oz);
        assert((sx >> 3) == rx) by (bit_vector)
            requires
                sx == rx * 8 + ox,
                0 <= ox < 8,
                -0x1000_0000 <= rx < 0x1000_0000,
        ;
        assert((sz >> 3) == rz) by (bit_vector)
            requires
                sz == rz * 8 + oz,
                0 <= oz < 8,
                -0x1000_0000 <= rz < 0x1000_0000,
        ;
    }
    assert forall|j: int, k: int| 1 <= j < k <= 64 implies #[trigger] ev[j] != #[trigger] ev[k] by {
        let a = j - 1;
        let b = k - 1;
        if a / 8 == b / 8 {
            assert(a % 8 != b % 8);
        }
    }
}

/// Whether a region passes the range filter: with `range` zero all do,
/// otherwise those with `x` and `z` in `[-range, range)`.
pub open spec fn region_selected(pos: RegionPos, range: u32) -> bool {
    range == 0 || (-(range as int) <= pos.x < range && -(range as int) <= pos.z < range)
}

/// Computes `region_selected(pos, range)`.
pub fn region_in_range(pos: &RegionPos, range: u32) -> (r: bool)
    ensures
        r == region_selected(*pos, range),
{
    let limit = range as i64;
    range == 0 || (-limit <= pos.x as i64 && (pos.x as i64) < limit && -limit <= pos.z as i64
        && (pos.z as i64) < limit)
}

/// The region of a section: `(x >> 3, z >> 3)`.
pub open spec fn region_of(s: DHSectionPos) -> RegionPos {
    RegionPos { x: s.x >> 3, z: s.z >> 3 }
}

/// Whether one of the first `n` sections lies in region `p`.
pub open spec fn has_section_in(sections: Seq<DHSectionPos>, n: int, p: RegionPos) -> bool {
    exists|i: int| 0 <= i < n && region_of(sections[i]) == p
}

/// The regions to generate: those that hold a section of `sections` and pass
/// the range filter, each once.
pub fn regions_to_generate(sections: &Vec<DHSectionPos>, range: u32) -> (r: Vec<RegionPos>)
    ensures
        r@.no_duplicates(),
        forall|p: RegionPos|
            #![trigger r@.contains(p)]
            r@.contains(p) <==> region_selected(p, range) && has_section_in(
                sections@,
                sections@.len() as int,
                p,
            ),
{
    let mut regions: Vec<RegionPos> = Vec::new();
    let mut i: usize = 0;
    while i < sections.len()
        invariant
            i <= sections@.len(),
            regions@.no_duplicates(),
            forall|p: RegionPos|
                #![trigger regions@.contains(p)]
                regions@.contains(p) <==> region_selected(p, range) && has_section_in(
                    sections@,
                    i as int,
                    p,
                ),
        decreases sections@.len() - i,
    {
        let pos = sections[i].to_region_pos();
        let mut seen = false;
        let mut q: usize = 0;
        while q < regions.len()
            invariant
                q <= regions@.len(),
                seen ==> regions@.contains(pos),
                !seen ==> forall|t: int| 0 <= t < q ==> regions@[t] != pos,
            decreases regions@.len() - q,
        {
            if regions[q] == pos {
                seen = true;
            }
            q = q + 1;
        }
        let ghost before = regions@;
        if !seen && region_in_range(&pos, range) {
            regions.push(pos);
            proof {
                assert forall|a: int, b: int|
                    0 <= a < regions@.len() && 0 <= b < regions@.len() && a != b implies regions@[a]
                    != regions@[b] by {
                    if a < before.len() && b < before.len() {
                    } else if a == before.len() {
                        assert(before[b] != pos);
                    } else {
                        assert(before[a] != pos);
                    }
                }
            }
        }
        proof {
            assert(region_of(sections@[i as int]) == pos);
            assert forall|p: RegionPos| #![trigger regions@.contains(p)] regions@.contains(p) <==> region_selected(p, range)
                && has_section_in(sections@, i + 1, p) by {
                if regions@.contains(p) && !before.contains(p) {
                    let t = choose|t: int| 0 <= t < regions@.len() && regions@[t] == p;
                    assert(t == before.len());
                    assert(p == pos);
                }
                if before.contains(p) {
                    let t = choose|t: int| 0 <= t < before.len() && before[t] == p;
                    assert(regions@[t] == p);
                    assert(regions@.contains(p));
                    let j = choose|j: int| 0 <= j < i && region_of(sections@[j]) == p;
                    assert(has_section_in(sections@, i + 1, p));
                }
                if region_selected(p, range) && p == pos {
                    if !seen {
                        assert(regions@[before.len() as int] == pos);
                        assert(regions@.contains(p));
                    }
                    assert(has_section_in(sections@, i + 1, p));
                }
                if region_selected(p, range) && has_section_in(sections@, i + 1, p) && p != pos {
                    let j = choose|j: int| 0 <= j < i + 1 && region_of(sections@[j]) == p;
                    assert(j < i);
                    assert(has_section_in(sections@, i as int, p));
                    assert(before.contains(p));
                }
            }
        }
        i = i + 1;
    }
    regions
}

/// Byte-wise lexicographic order.
pub open spec fn bytes_lt(a: Seq<u8>, b: Seq<u8>) -> bool
    decreases a.len(),
{
    if a.len() == 0 {
        b.len() > 0
    } else if b.len() == 0 {
        false
    } else if a[0] != b[0] {
        a[0] < b[0]
    } else {
        bytes_lt(a.skip(1), b.skip(1))
    }
}

/// The order of property keys: that of their UTF-8 bytes.
pub open spec fn key_lt(a: Seq<char>, b: Seq<char>) -> bool {
    bytes_lt(encode_utf8(a), encode_utf8(b))
}

/// `sorted` with the pair `p` put in by key: it replaces a pair with an
/// equal key, or goes before the first greater key.
pub open spec fn insert_pair(sorted: Seq<(Seq<char>, Seq<char>)>, p: (Seq<char>, Seq<char>)) -> Seq<
    (Seq<char>, Seq<char>),
>
    decreases sorted.len(),
{
    if sorted.len() == 0 {
        seq![p]
    } else if sorted[0].0 == p.0 {
        seq![p] + sorted.skip(1)
    } else if key_lt(p.0, sorted[0].0) {
        seq![p] + sorted
    } else {
        seq![sorted[0]] + insert_pair(sorted.skip(1), p)
    }
}

/// The pairs ordered by key, a later pair replacing an earlier one with the
/// same key.
pub open spec fn sorted_pairs(pairs: Seq<(Seq<char>, Seq<char>)>) -> Seq<(Seq<char>, Seq<char>)>
    decreases pairs.len(),
{
    if pairs.len() == 0 {
        Seq::empty()
    } else {
        insert_pair(sorted_pairs(pairs.drop_last()), pairs.last())
    }
}

/// Properties in strictly increasing key order, so each key occurs once.
pub open spec fn keys_ordered(p: Seq<(Seq<char>, Seq<char>)>) -> bool {
    forall|i: int| 0 <= i < p.len() - 1 ==> key_lt(#[trigger] p[i].0, p[i + 1].0)
}

/// Of two distinct byte strings, one orders before the other, and never both.
proof fn lemma_bytes_order(a: Seq<u8>, b: Seq<u8>)
    ensures
        a != b ==> bytes_lt(a, b) || bytes_lt(b, a),
        !(bytes_lt(a, b) && bytes_lt(b, a)),
    decreases a.len(),
{
    if a.len() > 0 && b.len() > 0 && a[0] == b[0] {
        lemma_bytes_order(a.skip(1), b.skip(1));
        if a != b {
            assert(a.skip(1) != b.skip(1)) by {
                if a.skip(1) == b.skip(1) {
                    assert(a =~= seq![a[0]] + a.skip(1));
                    assert(b =~= seq![b[0]] + b.skip(1));
                }
            }
        }
    } else if a.len() == 0 && b.len() == 0 {
        assert(a =~= b);
    }
}

/// Of two distinct keys, one orders before the other, and never both.
proof fn lemma_key_order(a: Seq<char>, b: Seq<char>)
    ensures
        a != b ==> key_lt(a, b) || key_lt(b, a),
        !(key_lt(a, b) && key_lt(b, a)),
{
    lemma_bytes_order(encode_utf8(a), encode_utf8(b));
    if a != b {
        encode_utf8_decode_utf8(a);
        encode_utf8_decode_utf8(b);
    }
}

/// The first pair of `insert_pair(sorted, p)` is `p` or the first of `sorted`.
proof fn lemma_insert_first(sorted: Seq<(Seq<char>, Seq<char>)>, p: (Seq<char>, Seq<char>))
    ensures
        insert_pair(sorted, p).len() > 0,
        insert_pair(sorted, p)[0] == p || (sorted.len() > 0 && insert_pair(sorted, p)[0]
            == sorted[0]),
    decreases sorted.len(),
{
    if sorted.len() > 0 && sorted[0].0 != p.0 && !key_lt(p.0, sorted[0].0) {
        lemma_insert_first(sorted.skip(1), p);
    }
}

proof fn lemma_insert_ordered(sorted: Seq<(Seq<char>, Seq<char>)>, p: (Seq<char>, Seq<char>))
    requires
        keys_ordered(sorted),
    ensures
        keys_ordered(insert_pair(sorted, p)),
    decreases sorted.len(),
{
    if sorted.len() == 0 {
    } else if sorted[0].0 == p.0 {
        let r = seq![p] + sorted.skip(1);
        assert forall|i: int| 0 <= i < r.len() - 1 implies key_lt(#[trigger] r[i].0, r[i + 1].0) by {
            assert(key_lt(sorted[i].0, sorted[i + 1].0));
        }
    } else if key_lt(p.0, sorted[0].0) {
        let r = seq![p] + sorted;
        assert forall|i: int| 0 <= i < r.len() - 1 implies key_lt(#[trigger] r[i].0, r[i + 1].0) by {
            if i > 0 {
                assert(key_lt(sorted[i - 1].0, sorted[i].0));
            }
        }
    } else {
        let t = sorted.skip(1);
        assert forall|i: int| 0 <= i < t.len() - 1 implies key_lt(#[trigger] t[i].0, t[i + 1].0) by {
            assert(key_lt(sorted[i + 1].0, sorted[i + 2].0));
        }
        lemma_insert_ordered(t, p);
        lemma_insert_first(t, p);
        lemma_key_order(p.0, sorted[0].0);
        let rest = insert_pair(t, p);
        let r = seq![sorted[0]] + rest;
        assert forall|i: int| 0 <= i < r.len() - 1 implies key_lt(#[trigger] r[i].0, r[i + 1].0) by {
            if i == 0 {
                if rest[0] != p {
                    assert(key_lt(sorted[0].0, sorted[1].0));
                }
            } else {
                assert(key_lt(rest[i - 1].0, rest[i].0));
            }
        }
    }
}

/// `sorted_pairs` puts the keys in strictly increasing order.
pub proof fn lemma_sorted_pairs_ordered(pairs: Seq<(Seq<char>, Seq<char>)>)
    ensures
        keys_ordered(sorted_pairs(pairs)),
        pairs.len() > 0 ==> sorted_pairs(pairs).len() > 0,
    decreases pairs.len(),
{
    if pairs.len() > 0 {
        lemma_sorted_pairs_ordered(pairs.drop_last());
        lemma_insert_ordered(sorted_pairs(pairs.drop_last()), pairs.last());
        lemma_insert_first(sorted_pairs(pairs.drop_last()), pairs.last());
    }
}

/// The block state that a mapping entry shows: its block, or air, with its
/// properties ordered by key when it has any.
pub open spec fn state_of_entry(e: EntryView) -> StateView {
    (
        match e.1 {
            Some(b) => b,
            None => "minecraft:air"@,
        },
        if e.2.len() == 0 {
            None
        } else {
            Some(sorted_pairs(e.2))
        },
    )
}

/// Whether key `a` orders before key `b`.
fn key_less(a: &String, b: &String) -> (r: bool)
    ensures
        r == key_lt(a@, b@),
{
    let x = a.as_str().as_bytes();
    let y = b.as_str().as_bytes();
    let ghost xa = x@;
    let ghost yb = y@;
    let mut i: usize = 0;
    assert(xa.skip(0) =~= xa);
    assert(yb.skip(0) =~= yb);
    while i < x.len() && i < y.len() && x[i] == y[i]
        invariant
            xa == x@,
            yb == y@,
            xa == encode_utf8(a@),
            yb == encode_utf8(b@),
            i <= xa.len(),
            i <= yb.len(),
            bytes_lt(xa, yb) == bytes_lt(xa.skip(i as int), yb.skip(i as int)),
        decreases xa.len() - i,
    {
        assert(xa.skip(i as int).skip(1) =~= xa.skip(i + 1));
        assert(yb.skip(i as int).skip(1) =~= yb.skip(i + 1));
        i = i + 1;
    }
    if i == x.len() {
        i < y.len()
    } else if i == y.len() {
        false
    } else {
        x[i] < y[i]
    }
}

/// Puts `p` into the key-ordered `sorted`.
fn insert_by_key(sorted: &mut Vec<(String, String)>, p: (String, String))
    ensures
        pairs_view(final(sorted)@) == insert_pair(pairs_view(old(sorted)@), (p.0@, p.1@)),
{
    let ghost pv = (p.0@, p.1@);
    let ghost start = pairs_view(sorted@);
    let mut i: usize = 0;
    assert(start.skip(0) =~= start);
    assert(start.take(0) + insert_pair(start, pv) =~= insert_pair(start, pv));
    while i < sorted.len()
        invariant
            i <= sorted@.len(),
            start == pairs_view(sorted@),
            start == pairs_view(old(sorted)@),
            pv == (p.0@, p.1@),
            insert_pair(start, pv) == start.take(i as int) + insert_pair(start.skip(i as int), pv),
        decreases sorted@.len() - i,
    {
        let ghost rest = start.skip(i as int);
        assert(rest[0] == start[i as int]);
        assert(start[i as int] == (sorted@[i as int].0@, sorted@[i as int].1@));
        if sorted[i].0 == p.0 {
            let ghost before = sorted@;
            sorted.set(i, p);
            proof {
                assert(rest[0].0 == pv.0);
                assert(insert_pair(rest, pv) == seq![pv] + rest.skip(1));
                assert(rest.skip(1) =~= start.skip(i + 1));
                assert(pairs_view(sorted@) =~= start.take(i as int) + (seq![pv] + rest.skip(1)));
            }
            return;
        }
        if key_less(&p.0, &sorted[i].0) {
            sorted.insert(i, p);
            proof {
                assert(rest[0].0 != pv.0);
                assert(insert_pair(rest, pv) == seq![pv] + rest);
                assert(pairs_view(sorted@) =~= start.take(i as int) + (seq![pv] + rest));
            }
            return;
        }
        proof {
            assert(rest.skip(1) =~= start.skip(i + 1));
            assert(start.take(i as int) + (seq![rest[0]] + insert_pair(rest.skip(1), pv))
                =~= start.take(i + 1) + insert_pair(start.skip(i + 1), pv));
        }
        i = i + 1;
    }
    let ghost n = sorted@.len();
    sorted.push(p);
    proof {
        assert(start.skip(n as int) =~= Seq::<(Seq<char>, Seq<char>)>::empty());
        assert(start.take(n as int) =~= start);
        assert(pairs_view(sorted@) =~= start + seq![pv]);
    }
}

/// The block state that a data point shows, or none where its `id` names no
/// mapping entry.
pub fn get_block(data_point: &DHFullDataPoint, dh_section: &DHSectionData) -> (r: Option<
    BlockState,
>)
    ensures
        match r {
            Some(b) => 0 <= data_point.id < dh_section.mapping@.len() && b@ == state_of_entry(
                dh_section.mapping@[data_point.id as int]@,
            ) && (b@.1 matches Some(p) ==> p.len() > 0 && keys_ordered(p)),
            None => !(0 <= data_point.id < dh_section.mapping@.len()),
        },
{
    if data_point.id < 0 || data_point.id as usize >= dh_section.mapping.len() {
        return None;
    }
    let mapping = &dh_section.mapping[data_point.id as usize];
    let name = match &mapping.block {
        Some(b) => b.clone(),
        None => "minecraft:air".to_owned(),
    };
    let ghost pairs = pairs_view(mapping.block_state@);
    let properties = if mapping.block_state.len() > 0 {
        let mut sorted: Vec<(String, String)> = Vec::new();
        let mut i: usize = 0;
        while i < mapping.block_state.len()
            invariant
                i <= mapping.block_state@.len(),
                pairs == pairs_view(mapping.block_state@),
                pairs_view(sorted@) == sorted_pairs(pairs.take(i as int)),
            decreases mapping.block_state@.len() - i,
        {
            let p = (mapping.block_state[i].0.clone(), mapping.block_state[i].1.clone());
            insert_by_key(&mut sorted, p);
            proof {
                assert(pairs.take(i + 1).drop_last() =~= pairs.take(i as int));
                assert(pairs.take(i + 1).last() == pairs[i as int]);
            }
            i = i + 1;
        }
        assert(pairs.take(pairs.len() as int) =~= pairs);
        proof {
            lemma_sorted_pairs_ordered(pairs);
        }
        Some(sorted)
    } else {
        None
    };
    Some(BlockState { name, properties })
}

/// Whether the chunk coordinates of a section fit the 32-bit fields.
pub open spec fn section_fits(pos: DHSectionPos) -> bool {
    -0x2000_0000 <= pos.x < 0x2000_0000 && -0x2000_0000 <= pos.z < 0x2000_0000
}

/// `c` is chunk `i` of section `pos` as made from `template`: placed, with
/// the status and biome that generation forces, and the template's blocks.
pub open spec fn initial_chunk(c: Chunk, template: Chunk, pos: DHSectionPos, i: int) -> bool {
    &&& c.wf()
    &&& c.x == pos.x * 4 + i / 4
    &&& c.z == pos.z * 4 + i % 4
    &&& c.status@ == "minecraft:initialize_light"@
    &&& c.sections@.len() == template.sections@.len()
    &&& forall|s: int|
        0 <= s < template.sections@.len() ==> (#[trigger] c.sections@[s]).y == template.sections@[s].y
            && c.sections@[s].block_states@ == template.sections@[s].block_states@
    &&& forall|s: int, v: int|
        0 <= s < template.sections@.len() && 0 <= v < 4096 ==> #[trigger] c.sections@[s].biomes@[v]
            == "minecraft:plains"@
}

/// The 16 chunks of a far-render section, each a copy of `chunk_temp` placed
/// at its position, with status `minecraft:initialize_light` and biome
/// `minecraft:plains`. Chunk `i` lies at `(pos.x * 4 + i / 4, pos.z * 4 + i % 4)`.
pub fn init_section_chunks(chunk_temp: &Chunk, pos: &DHSectionPos) -> (r: Vec<Chunk>)
    requires
        chunk_temp.wf(),
        section_fits(*pos),
    ensures
        r@.len() == 16,
        forall|i: int| 0 <= i < 16 ==> initial_chunk(#[trigger] r@[i], *chunk_temp, *pos, i),
{
    let mut chunks: Vec<Chunk> = Vec::new();
    let mut i: usize = 0;
    while i < 16
        invariant
            i <= 16,
            chunk_temp.wf(),
            section_fits(*pos),
            chunks@.len() == i,
            forall|q: int| 0 <= q < i ==> initial_chunk(#[trigger] chunks@[q], *chunk_temp, *pos, q),
        decreases 16 - i,
    {
        let mut chunk = chunk_temp.clone();
        chunk.set_chunk_pos(pos.x * 4 + (i / 4) as i32, pos.z * 4 + (i % 4) as i32);
        chunk.set_biome("minecraft:plains".to_owned());
        chunk.set_status("minecraft:initialize_light".to_owned());
        proof {
            assert forall|s: int|
                0 <= s < chunk_temp.sections@.len() implies (#[trigger] chunk.sections@[s]).y
                == chunk_temp.sections@[s].y && chunk.sections@[s].block_states@
                == chunk_temp.sections@[s].block_states@ by {}
        }
        chunks.push(chunk);
        i = i + 1;
    }
    chunks
}

/// Whether a data point can be placed: its `id` names a mapping entry, and a
/// run of blocks does not start below the world.
pub open spec fn point_ok(p: DHFullDataPoint, mapping_len: int) -> bool {
    0 <= p.id < mapping_len && (p.height <= 0 || p.min_y >= 0)
}

/// The error that a data point that cannot be placed gives.
pub open spec fn point_error(p: DHFullDataPoint, mapping_len: int) -> ConvertError {
    if !(0 <= p.id < mapping_len) {
        ConvertError::UnknownMappingId
    } else {
        ConvertError::OutOfBounds
    }
}

/// Every point of the columns before `col`, and the first `k` points of
/// column `col`, can be placed.
pub open spec fn points_ok_before(
    data: Seq<Vec<DHFullDataPoint>>,
    mapping_len: int,
    col: int,
    k: int,
) -> bool {
    forall|c: int, j: int|
        0 <= c <= col && 0 <= j < data[c]@.len() && (c < col || j < k) ==> point_ok(
            #[trigger] data[c]@[j],
            mapping_len,
        )
}

pub open spec fn min_of(a: int, b: int) -> int {
    if a < b {
        a
    } else {
        b
    }
}

/// Whether a data point's run covers world height `y`: the run fills
/// `[min_y - 64, min_y - 64 + height)`, each height above 319 taken as 319.
pub open spec fn covers(p: DHFullDataPoint, y: int) -> bool {
    p.height > 0 && min_of(p.min_y - 64, 319) <= y < min_of(p.min_y + p.height - 64, 320)
}

/// The block that a column shows at height `y`: that of its last data point
/// whose run covers `y`, or `dflt` where none does.
pub open spec fn column_value(
    pts: Seq<DHFullDataPoint>,
    mapping: Seq<EntryView>,
    y: int,
    dflt: StateView,
) -> StateView
    decreases pts.len(),
{
    if pts.len() == 0 {
        dflt
    } else if covers(pts.last(), y) {
        state_of_entry(mapping[pts.last().id as int])
    } else {
        column_value(pts.drop_last(), mapping, y, dflt)
    }
}

/// The far-render column, `x * 64 + z`, that holds voxel `v` of chunk `i`.
pub open spec fn column_of(i: int, v: int) -> int {
    ((i / 4) * 16 + v % 16) * 64 + (i % 4) * 16 + (v / 16) % 16
}

/// The chunk that holds far-render column `col`: `((x & 0x30) >> 2) | ((z & 0x30) >> 4)`.
pub open spec fn chunk_of_column(col: int) -> int {
    ((col / 64) / 16) * 4 + (col % 64) / 16
}

proof fn lemma_column_of(i: int, v: int, col: int)
    requires
        0 <= i < 16,
        0 <= v < 4096,
        0 <= col < 4096,
    ensures
        column_of(i, v) == col <==> (i == chunk_of_column(col) && in_column(
            v,
            (col / 64) % 16,
            (col % 64) % 16,
        )),
{
}

/// `c` is chunk `i` of `section`, built on `template`: placed and set up as
/// `initial_chunk` says, each voxel showing its column's block.
pub open spec fn built_chunk(c: Chunk, template: Chunk, section: DHSectionData, i: int) -> bool {
    &&& c.wf()
    &&& c.x == section.pos.x * 4 + i / 4
    &&& c.z == section.pos.z * 4 + i % 4
    &&& c.status@ == "minecraft:initialize_light"@
    &&& c.sections@.len() == template.sections@.len()
    &&& forall|s: int|
        0 <= s < template.sections@.len() ==> (#[trigger] c.sections@[s]).y == template.sections@[s].y
    &&& forall|s: int, v: int|
        0 <= s < template.sections@.len() && 0 <= v < 4096 ==> #[trigger] c.sections@[s].biomes@[v]
            == "minecraft:plains"@
    &&& forall|s: int, v: int|
        0 <= s < template.sections@.len() && 0 <= v < 4096 ==> #[trigger] c.sections@[s].block_states@[v]
            == column_value(
            section.data@[column_of(i, v)]@,
            entries_view(section.mapping@),
            height_of(s, v),
            template.sections@[s].block_states@[v],
        )
}

/// Builds the 16 chunks of a far-render section on copies of `template`,
/// placing each column's runs of blocks in the chunk that owns the column.
pub fn build_section_chunks(template: &Chunk, section: &DHSectionData) -> (r: Result<
    Vec<Chunk>,
    ConvertError,
>)
    requires
        template.wf(),
        section_fits(section.pos),
    ensures
        template.sections@.len() < 24 ==> r == Err::<Vec<Chunk>, ConvertError>(
            ConvertError::BadTemplate,
        ),
        template.sections@.len() >= 24 && section.data@.len() != 4096 ==> r == Err::<
            Vec<Chunk>,
            ConvertError,
        >(ConvertError::ShortBlob),
        template.sections@.len() >= 24 && section.data@.len() == 4096 ==> match r {
            Ok(chunks) => {
                &&& points_ok_before(section.data@, section.mapping@.len() as int, 4095, section.data@[4095]@.len() as int)
                &&& chunks@.len() == 16
                &&& forall|i: int| 0 <= i < 16 ==> built_chunk(#[trigger] chunks@[i], *template, *section, i)
            },
            Err(e) => exists|col: int, k: int|
                0 <= col < 4096 && 0 <= k < section.data@[col]@.len() && !point_ok(
                    #[trigger] section.data@[col]@[k],
                    section.mapping@.len() as int,
                ) && e == point_error(section.data@[col]@[k], section.mapping@.len() as int)
                    && points_ok_before(section.data@, section.mapping@.len() as int, col, k),
        },
{
    if template.sections.len() < 24 {
        return Err(ConvertError::BadTemplate);
    }
    if section.data.len() != 4096 {
        return Err(ConvertError::ShortBlob);
    }
    let ghost mapping = entries_view(section.mapping@);
    let ghost mlen = section.mapping@.len() as int;
    let ghost data = section.data@;
    let mut chunks = init_section_chunks(template, &section.pos);
    let mut col: usize = 0;
    while col < 4096
        invariant
            template.wf(),
            template.sections@.len() >= 24,
            data == section.data@,
            data.len() == 4096,
            mapping == entries_view(section.mapping@),
            mlen == section.mapping@.len(),
            col <= 4096,
            chunks@.len() == 16,
            points_ok_before(data, mlen, col as int, 0),
            forall|i: int|
                0 <= i < 16 ==> initial_frame(#[trigger] chunks@[i], *template, section.pos, i),
            forall|i: int, s: int, v: int|
                0 <= i < 16 && 0 <= s < template.sections@.len() && 0 <= v < 4096
                    ==> #[trigger] chunks@[i].sections@[s].block_states@[v] == if column_of(i, v)
                    < col {
                    column_value(
                        data[column_of(i, v)]@,
                        mapping,
                        height_of(s, v),
                        template.sections@[s].block_states@[v],
                    )
                } else {
                    template.sections@[s].block_states@[v]
                },
        decreases 4096 - col,
    {
        let x = col / 64;
        let z = col % 64;
        let c = ((x & 0x30) >> 2) | ((z & 0x30) >> 4);
        assert(c == chunk_of_column(col as int)) by (bit_vector)
            requires
                x == col / 64,
                z == col % 64,
                col < 4096,
                c == ((x & 0x30) >> 2) | ((z & 0x30) >> 4),
        ;
        let points = &section.data[col];
        let ghost pts = points@;
        let ghost at_start = chunks@;
        let mut k: usize = 0;
        assert(pts.take(0) =~= Seq::<DHFullDataPoint>::empty());
        while k < points.len()
            invariant
                template.wf(),
                template.sections@.len() >= 24,
                data == section.data@,
                data.len() == 4096,
                mapping == entries_view(section.mapping@),
                mlen == section.mapping@.len(),
                col < 4096,
                x == col / 64,
                z == col % 64,
                c == chunk_of_column(col as int),
                pts == data[col as int]@,
                points@ == pts,
                k <= pts.len(),
                chunks@.len() == 16,
                at_start.len() == 16,
                points_ok_before(data, mlen, col as int, k as int),
                forall|i: int|
                    0 <= i < 16 ==> initial_frame(#[trigger] chunks@[i], *template, section.pos, i),
                forall|i: int| 0 <= i < 16 && i != c ==> #[trigger] chunks@[i] == at_start[i],
                forall|s: int, v: int|
                    0 <= s < template.sections@.len() && 0 <= v < 4096 ==> #[trigger] chunks@[c as int].sections@[s].block_states@[v]
                        == if column_of(c as int, v) == col {
                        column_value(
                            pts.take(k as int),
                            mapping,
                            height_of(s, v),
                            at_start[c as int].sections@[s].block_states@[v],
                        )
                    } else {
                        at_start[c as int].sections@[s].block_states@[v]
                    },
            decreases pts.len() - k,
        {
            let p = points[k];
            let block = match get_block(&p, section) {
                Some(b) => b,
                None => {
                    assert(!point_ok(data[col as int]@[k as int], mlen));
                    return Err(ConvertError::UnknownMappingId);
                },
            };
            if p.height > 0 && p.min_y < 0 {
                assert(!point_ok(data[col as int]@[k as int], mlen));
                return Err(ConvertError::OutOfBounds);
            }
            let ghost before = chunks@;
            if p.height > 0 {
                let start = p.min_y as i64 + Y_OFFSET as i64;
                let end = p.min_y as i64 + p.height as i64 + Y_OFFSET as i64;
                let lo: i32 = if start > 319 { 319 } else { start as i32 };
                let hi: i32 = if end > 320 { 320 } else { end as i32 };
                assert(template.sections@.len() == chunks@[c as int].sections@.len());
                chunks[c].fill_column((x % 16) as u32, (z % 16) as u32, lo, hi, &block);
                proof {
                    assert forall|s: int, v: int|
                        0 <= s < template.sections@.len() && 0 <= v < 4096 implies #[trigger] chunks@[c as int].sections@[s].block_states@[v]
                            == if column_of(c as int, v) == col {
                            column_value(
                                pts.take(k + 1),
                                mapping,
                                height_of(s, v),
                                at_start[c as int].sections@[s].block_states@[v],
                            )
                        } else {
                            at_start[c as int].sections@[s].block_states@[v]
                        } by {
                        lemma_column_of(c as int, v, col as int);
                        assert(pts.take(k + 1).drop_last() =~= pts.take(k as int));
                        assert(pts.take(k + 1).last() == p);
                    }
                }
            } else {
                proof {
                    assert forall|s: int, v: int|
                        0 <= s < template.sections@.len() && 0 <= v < 4096 implies #[trigger] chunks@[c as int].sections@[s].block_states@[v]
                            == if column_of(c as int, v) == col {
                            column_value(
                                pts.take(k + 1),
                                mapping,
                                height_of(s, v),
                                at_start[c as int].sections@[s].block_states@[v],
                            )
                        } else {
                            at_start[c as int].sections@[s].block_states@[v]
                        } by {
                        assert(pts.take(k + 1).drop_last() =~= pts.take(k as int));
                        assert(pts.take(k + 1).last() == p);
                    }
                }
            }
            k = k + 1;
        }
        proof {
            assert(pts.take(pts.len() as int) =~= pts);
            assert forall|i: int, s: int, v: int|
                0 <= i < 16 && 0 <= s < template.sections@.len() && 0 <= v < 4096
                    implies #[trigger] chunks@[i].sections@[s].block_states@[v] == if column_of(i, v)
                    < col + 1 {
                    column_value(
                        data[column_of(i, v)]@,
                        mapping,
                        height_of(s, v),
                        template.sections@[s].block_states@[v],
                    )
                } else {
                    template.sections@[s].block_states@[v]
                } by {
                lemma_column_of(i, v, col as int);
                if i != c {
                    assert(chunks@[i] == at_start[i]);
                }
            }
        }
        col = col + 1;
    }
    proof {
        assert forall|i: int| 0 <= i < 16 implies built_chunk(#[trigger] chunks@[i], *template, *section, i) by {
            assert(initial_frame(chunks@[i], *template, section.pos, i));
            assert forall|s: int, v: int|
                0 <= s < template.sections@.len() && 0 <= v < 4096 implies #[trigger] chunks@[i].sections@[s].block_states@[v]
                    == column_value(
                    section.data@[column_of(i, v)]@,
                    entries_view(section.mapping@),
                    height_of(s, v),
                    template.sections@[s].block_states@[v],
                ) by {
                assert(column_of(i, v) < 4096);
            }
        }
    }
    Ok(chunks)
}

/// The parts of `initial_chunk` that placing blocks keeps.
pub open spec fn initial_frame(c: Chunk, template: Chunk, pos: DHSectionPos, i: int) -> bool {
    &&& c.wf()
    &&& c.x == pos.x * 4 + i / 4
    &&& c.z == pos.z * 4 + i % 4
    &&& c.status@ == "minecraft:initialize_light"@
    &&& c.sections@.len() == template.sections@.len()
    &&& forall|s: int|
        0 <= s < template.sections@.len() ==> (#[trigger] c.sections@[s]).y == template.sections@[s].y
    &&& forall|s: int, v: int|
        0 <= s < template.sections@.len() && 0 <= v < 4096 ==> #[trigger] c.sections@[s].biomes@[v]
            == "minecraft:plains"@
}

/// The slot in its region file of chunk `i` of the section at offsets
/// `(osx, osz)` inside the region.
pub fn chunk_slot(osx: usize, osz: usize, i: usize) -> (r: (usize, usize))
    requires
        osx < 8,
        osz < 8,
        i < 16,
    ensures
        r.0 == osx * 4 + i / 4,
        r.1 == osz * 4 + i % 4,
        r.0 < 32,
        r.1 < 32,
{
    (osx * 4 + i / 4, osz * 4 + i % 4)
}

} // verus!

//! Per-slot assembly: FEC sets plus the bookkeeping needed to know when a run
//! of data shreds forms a complete entry batch.
//!
//! The leader serializes one block component (normally a vector of entries) and
//! spreads it over consecutive data shreds; the last shred of the run has the
//! data-complete flag. A run can span several FEC sets and a set can hold
//! several runs. A run is ready when every shred from the one after the
//! previous data-complete one (or index 0) up to the next data-complete one is
//! present. It is not enough to wait for one FEC set: the batch may have started
//! in the previous one.

use crate::bitset;
use crate::bitset::{ones, width};
use crate::buffer;
use crate::fec::{
    belongs, law_recovery_adds, lemma_empty_valid, lemma_inserted, part_of, same_up_to_proof,
    whole_set, FecModel, FecSet, Insert, ReedSolomon,
};
use crate::shred::{
    data_complete_of, data_of, fec_set_index_of, index_of, kind_of, last_in_slot_of, law_layout,
    lemma_indexes, valid_wire, DATA_CAPACITY, MAX_SHREDS_PER_SLOT, Shred, ShredKind,
};
use crate::stats;
use crate::stats::{counted, Stats};
use fixedbitset::FixedBitSet;
use std::collections::HashMap;
use std::ops::RangeInclusive;
use vstd::prelude::*;
use vstd::set_lib::set_int_range;
use vstd::std_specs::range::RangeInclusiveView;

verus! {

/// Whether `first..=last` is a complete run: all of it is present, it ends with
/// a data-complete shred and has no other, and what is before it, if anything,
/// is a data-complete shred too.
pub open spec fn is_run(received: Set<int>, complete: Set<int>, first: int, last: int) -> bool {
    &&& 0 <= first <= last < MAX_SHREDS_PER_SLOT
    &&& forall|i: int| first <= i <= last ==> #[trigger] received.contains(i)
    &&& complete.contains(last)
    &&& forall|i: int| first <= i < last ==> !#[trigger] complete.contains(i)
    &&& first == 0 || complete.contains(first - 1)
}

/// Whether `index` is part of a complete run.
pub open spec fn in_run(received: Set<int>, complete: Set<int>, index: int) -> bool {
    exists|first: int, last: int|
        first <= index <= last && #[trigger] is_run(received, complete, first, last)
}

/// An index is part of one complete run at most.
pub proof fn law_run_unique(
    received: Set<int>,
    complete: Set<int>,
    index: int,
    a: (int, int),
    b: (int, int),
)
    requires
        a.0 <= index <= a.1,
        b.0 <= index <= b.1,
        is_run(received, complete, a.0, a.1),
        is_run(received, complete, b.0, b.1),
    ensures
        a == b,
{
    if a.1 < b.1 {
        assert(!complete.contains(a.1));
    }
    if b.1 < a.1 {
        assert(!complete.contains(b.1));
    }
    if a.0 < b.0 {
        assert(!complete.contains(b.0 - 1));
    }
    if b.0 < a.0 {
        assert(!complete.contains(a.0 - 1));
    }
}

/// The deshredded bytes of one complete run of data shreds.
#[verifier::ext_equal]
pub struct SegmentModel {
    pub shreds: RangeInclusiveView<u32>,
    pub bytes: Seq<u8>,
    pub last_in_slot: bool,
}

/// The range `first..=last`.
pub open spec fn indexes(first: int, last: int) -> RangeInclusiveView<u32> {
    RangeInclusiveView { start: first as u32, end: last as u32, exhausted: false }
}

/// What is known of a slot: its FEC sets, which data shreds are present, which
/// of them end a batch, and which were emitted as part of a segment.
#[verifier::ext_equal]
pub struct SlotModel {
    pub sets: Map<u32, FecModel>,
    pub received: Set<int>,
    pub complete: Set<int>,
    pub consumed: Set<int>,
}

/// What an insert comes to.
#[verifier::ext_equal]
pub struct Inserted {
    pub slot: SlotModel,
    pub stats: Stats,
    pub segments: Seq<SegmentModel>,
}

/// Whether all shreds of a set name `k` as their FEC set.
pub open spec fn of_set(set: FecModel, k: u32) -> bool {
    &&& forall|p: int|
        0 <= p < 32 && (#[trigger] set.data[p]) is Some ==> fec_set_index_of(set.data[p]->0) == k
    &&& forall|p: int|
        0 <= p < 32 && (#[trigger] set.code[p]) is Some ==> fec_set_index_of(set.code[p]->0) == k
}

/// Whether all 32 indexes from `k` on were emitted.
pub open spec fn all_consumed(consumed: Set<int>, k: int) -> bool {
    forall|i: int| k <= i < k + 32 ==> #[trigger] consumed.contains(i)
}

/// Whether all of the indexes are such as a slot can have.
pub open spec fn within_slot(indexes: Set<int>) -> bool {
    forall|i: int| #[trigger] indexes.contains(i) ==> 0 <= i < MAX_SHREDS_PER_SLOT
}

/// First index of the FEC set that `index` is in.
pub open spec fn set_of(index: int) -> int {
    index - index % 32
}

/// The indexes in `fresh`.
pub open spec fn index_set(fresh: Seq<u32>) -> Set<int> {
    Set::new(|i: int| exists|j: int| 0 <= j < fresh.len() && #[trigger] fresh[j] == i)
}

impl SlotModel {
    /// A slot of which nothing has been seen.
    pub open spec fn empty() -> SlotModel {
        SlotModel {
            sets: Map::empty(),
            received: Set::empty(),
            complete: Set::empty(),
            consumed: Set::empty(),
        }
    }

    /// What is known of FEC set `k`.
    pub open spec fn set(self, k: u32) -> FecModel {
        if self.sets.contains_key(k) {
            self.sets[k]
        } else {
            FecModel::empty()
        }
    }

    /// The slot with FEC set `k` replaced.
    pub open spec fn with_set(self, k: u32, set: FecModel) -> SlotModel {
        SlotModel { sets: self.sets.insert(k, set), ..self }
    }

    /// The data shred at `index`, if its FEC set holds it.
    pub open spec fn shred_at(self, index: int) -> Option<Seq<u8>> {
        self.set(set_of(index) as u32).data[index % 32]
    }

    /// Whether `index` is part of a complete run.
    pub open spec fn in_run(self, index: int) -> bool {
        in_run(self.received, self.complete, index)
    }

    /// Bounds of the complete run that `index` is part of.
    pub open spec fn run_of(self, index: int) -> (int, int) {
        choose|first: int, last: int|
            first <= index <= last && #[trigger] is_run(self.received, self.complete, first, last)
    }

    /// All but that complete runs have been emitted: the index sets lie within
    /// the slot and within each other, what was emitted is made of whole complete
    /// runs, every FEC set is valid, holds shreds of its own and still has
    /// something to give, and every data shred marked present is held by its set
    /// or has been emitted with all of its set.
    pub open spec fn coherent(self) -> bool {
        &&& within_slot(self.received)
        &&& forall|i: int| #[trigger] self.complete.contains(i) ==> self.received.contains(i)
        &&& forall|i: int| #[trigger] self.consumed.contains(i) ==> self.in_run(i)
        &&& forall|first: int, last: int, i: int, j: int|
            #![trigger is_run(self.received, self.complete, first, last), self.consumed.contains(i), self.consumed.contains(j)]
            is_run(self.received, self.complete, first, last) && first <= i <= last && first <= j
                <= last && self.consumed.contains(i) ==> self.consumed.contains(j)
        &&& forall|k: u32|
            #[trigger]
            self.sets.contains_key(k) ==> k % 32 == 0 && self.sets[k].valid() && of_set(
                self.sets[k],
                k,
            ) && !all_consumed(self.consumed, k as int)
        &&& forall|i: int| #[trigger]
            self.received.contains(i) ==> all_consumed(self.consumed, set_of(i)) || (
            self.sets.contains_key(set_of(i) as u32) && self.shred_at(i) is Some
                && self.complete.contains(i) == data_complete_of(self.shred_at(i)->0))
    }

    /// The slot is coherent, and every complete run in it has been emitted.
    pub open spec fn valid(self) -> bool {
        &&& self.coherent()
        &&& forall|i: int| #[trigger] self.in_run(i) ==> self.consumed.contains(i)
    }

    /// Entry bytes of the data shreds from `first` up to, not including, `end`.
    pub open spec fn bytes_of(self, first: int, end: int) -> Seq<u8>
        decreases end - first,
    {
        if end <= first {
            Seq::empty()
        } else {
            self.bytes_of(first, end - 1) + data_of(self.shred_at(end - 1)->0)
        }
    }

    /// The segment that the run `first..=last` makes.
    pub open spec fn segment(self, first: int, last: int) -> SegmentModel {
        SegmentModel {
            shreds: indexes(first, last),
            bytes: self.bytes_of(first, last + 1),
            last_in_slot: last_in_slot_of(self.shred_at(last)->0),
        }
    }

    /// The slot once the run `first..=last` has been emitted. FEC sets that have
    /// nothing left to give are freed.
    pub open spec fn without_run(self, first: int, last: int) -> SlotModel {
        let consumed = self.consumed.union(set_int_range(first, last + 1));
        SlotModel {
            sets: self.sets.remove_keys(Set::new(|k: u32| all_consumed(consumed, k as int))),
            consumed,
            ..self
        }
    }

    /// Emit the run that `index` is part of, if there is one and it has not been
    /// emitted before.
    pub open spec fn try_complete(self, index: int) -> (SlotModel, Seq<SegmentModel>) {
        if !self.consumed.contains(index) && self.in_run(index) {
            let (first, last) = self.run_of(index);
            (self.without_run(first, last), seq![self.segment(first, last)])
        } else {
            (self, Seq::empty())
        }
    }

    /// Emit the run that `index` is part of, and the run after it where `index`
    /// ends a batch: that one may have been waiting only for this boundary to
    /// become known.
    pub open spec fn try_both(self, index: int) -> (SlotModel, Seq<SegmentModel>) {
        let (next, segments) = self.try_complete(index);
        if next.complete.contains(index) {
            let (after, more) = next.try_complete(index + 1);
            (after, segments + more)
        } else {
            (next, segments)
        }
    }

    /// Emit what the indexes in `fresh` complete, in their order.
    pub open spec fn complete_all(self, fresh: Seq<u32>) -> (SlotModel, Seq<SegmentModel>)
        decreases fresh.len(),
    {
        if fresh.len() == 0 {
            (self, Seq::empty())
        } else {
            let (next, segments) = self.complete_all(fresh.drop_last());
            let (after, more) = next.try_both(fresh.last() as int);
            (after, segments + more)
        }
    }

    /// The slot with the data shreds in `fresh` marked present.
    pub open spec fn marked(self, fresh: Seq<u32>) -> SlotModel {
        SlotModel {
            received: self.received.union(index_set(fresh)),
            complete: self.complete.union(
                index_set(fresh).filter(|i: int| data_complete_of(self.shred_at(i)->0)),
            ),
            ..self
        }
    }

    /// Mark the data shreds in `fresh` present and emit what that completes.
    pub open spec fn settled(self, fresh: Seq<u32>, stats: Stats) -> Inserted {
        let (slot, segments) = self.marked(fresh).complete_all(fresh);
        Inserted { slot, stats, segments }
    }

    /// What adding a shred that its FEC set takes comes to: `set` is the set with
    /// the shred in it.
    pub open spec fn added(self, b: Seq<u8>, set: FecModel, recovery: bool, stats: Stats) -> Inserted {
        let k = fec_set_index_of(b);
        let fresh = if kind_of(b) == ShredKind::Data {
            seq![index_of(b)]
        } else {
            Seq::empty()
        };
        if recovery && set.can_recover() {
            match set.recover_outcome() {
                Ok(recovered) => self.with_set(k, set.recovered()).settled(
                    fresh + recovered,
                    Stats { recovered: counted(stats.recovered, recovered.len()), ..stats },
                ),
                Err(_) => self.with_set(k, set.recovered()).settled(
                    fresh,
                    Stats { recovery_failures: counted(stats.recovery_failures, 1), ..stats },
                ),
            }
        } else {
            self.with_set(k, set).settled(fresh, stats)
        }
    }

    /// Whether adding the shred `b` runs a recovery of its FEC set.
    pub open spec fn recovers(self, b: Seq<u8>, recovery: bool) -> bool {
        let k = fec_set_index_of(b);
        let early = if kind_of(b) == ShredKind::Data {
            self.received.contains(index_of(b) as int)
        } else {
            all_consumed(self.consumed, k as int)
        };
        recovery && !early && self.set(k).insert_outcome(b) == Insert::New && self.set(
            k,
        ).inserted(b).can_recover()
    }

    /// What adding the shred `b` comes to, with or without recovery.
    pub open spec fn inserted(self, b: Seq<u8>, recovery: bool, stats: Stats) -> Inserted {
        let k = fec_set_index_of(b);
        let is_data = kind_of(b) == ShredKind::Data;
        let duplicate = Stats { duplicates: counted(stats.duplicates, 1), ..stats };
        let unneeded = Stats { unneeded: counted(stats.unneeded, 1), ..stats };
        let rejected = Stats { rejected: counted(stats.rejected, 1), ..stats };
        if is_data && self.received.contains(index_of(b) as int) {
            Inserted { slot: self, stats: duplicate, segments: Seq::empty() }
        } else if !is_data && all_consumed(self.consumed, k as int) {
            Inserted { slot: self, stats: unneeded, segments: Seq::empty() }
        } else {
            let set = self.set(k).inserted(b);
            match self.set(k).insert_outcome(b) {
                Insert::New => self.added(b, set, recovery, stats),
                Insert::Duplicate => Inserted {
                    slot: self.with_set(k, set),
                    stats: duplicate,
                    segments: Seq::empty(),
                },
                Insert::Unneeded => Inserted {
                    slot: self.with_set(k, set),
                    stats: unneeded,
                    segments: Seq::empty(),
                },
                Insert::Rejected(_) => Inserted {
                    slot: self.with_set(k, set),
                    stats: rejected,
                    segments: Seq::empty(),
                },
            }
        }
    }
}

/// Whether `index` is one of those that a segment was made from.
pub open spec fn covers(segment: SegmentModel, index: int) -> bool {
    segment.shreds.start <= index <= segment.shreds.end
}

/// Whether going from `before` to `after` emits `segments` once and for all:
/// nothing in them was emitted before, no two of them overlap, each is a complete
/// run, and they are all that is emitted in `after` and was not in `before`.
pub open spec fn emits(before: SlotModel, after: SlotModel, segments: Seq<SegmentModel>) -> bool {
    &&& forall|s: int, i: int|
        #![trigger segments[s], before.consumed.contains(i)]
        0 <= s < segments.len() && covers(segments[s], i) ==> !before.consumed.contains(i)
    &&& forall|s: int, t: int, i: int|
        #![trigger covers(segments[s], i), covers(segments[t], i)]
        0 <= s < t < segments.len() && covers(segments[s], i) ==> !covers(segments[t], i)
    &&& forall|s: int|
        0 <= s < segments.len() ==> is_run(
            after.received,
            after.complete,
            (#[trigger] segments[s]).shreds.start as int,
            segments[s].shreds.end as int,
        ) && !segments[s].shreds.exhausted
    &&& forall|i: int| #[trigger]
        after.consumed.contains(i) <==> before.consumed.contains(i) || exists|s: int|
            0 <= s < segments.len() && covers(segments[s], i)
}

/// A run that has not been emitted is there to be emitted, shred by shred, and
/// the slot is coherent once it has been.
pub proof fn lemma_without_run(m: SlotModel, first: int, last: int, index: int)
    requires
        m.coherent(),
        is_run(m.received, m.complete, first, last),
        first <= index <= last,
        !m.consumed.contains(index),
    ensures
        forall|i: int| #[trigger]
            m.received.contains(i) && first <= i <= last ==> !m.consumed.contains(i)
                && m.sets.contains_key(set_of(i) as u32) && m.shred_at(i) is Some,
        m.without_run(first, last).coherent(),
        emits(m, m.without_run(first, last), seq![m.segment(first, last)]),
{
    let next = m.without_run(first, last);
    assert forall|i: int| first <= i <= last implies !m.consumed.contains(i) by {
        if m.consumed.contains(i) {
            assert(m.consumed.contains(index));
        }
    }
    assert forall|i: int| #[trigger] m.received.contains(i) && first <= i <= last implies
        m.sets.contains_key(set_of(i) as u32) && m.shred_at(i) is Some by {
        assert(!m.consumed.contains(i));
        assert(!all_consumed(m.consumed, set_of(i)));
    }
    assert forall|i: int| #[trigger] next.consumed.contains(i) implies next.in_run(i) by {
        if m.consumed.contains(i) {
            assert(m.in_run(i));
        }
    }
    assert forall|f: int, l: int, i: int, j: int|
        #![trigger is_run(next.received, next.complete, f, l), next.consumed.contains(i), next.consumed.contains(j)]
        is_run(next.received, next.complete, f, l) && f <= i <= l && f <= j <= l
            && next.consumed.contains(i) implies next.consumed.contains(j) by {
        if first <= i <= last {
            law_run_unique(m.received, m.complete, i, (first, last), (f, l));
        } else {
            assert(m.consumed.contains(i));
            assert(m.consumed.contains(j));
        }
    }
    assert forall|i: int| #[trigger] next.received.contains(i) implies all_consumed(
        next.consumed,
        set_of(i),
    ) || (next.sets.contains_key(set_of(i) as u32) && next.shred_at(i) is Some
        && next.complete.contains(i) == data_complete_of(next.shred_at(i)->0)) by {
        assert(m.received.contains(i));
        if all_consumed(m.consumed, set_of(i)) {
            assert(all_consumed(next.consumed, set_of(i)));
        }
    }
    let segments = seq![m.segment(first, last)];
    assert forall|i: int| #[trigger]
        next.consumed.contains(i) <==> m.consumed.contains(i) || exists|s: int|
            0 <= s < segments.len() && covers(segments[s], i) by {
        if first <= i <= last {
            assert(covers(segments[0], i));
        }
    }
}

/// Emitting in two steps, where complete runs stay what they are.
pub proof fn lemma_emits_join(
    a: SlotModel,
    b: SlotModel,
    c: SlotModel,
    first: Seq<SegmentModel>,
    second: Seq<SegmentModel>,
)
    requires
        emits(a, b, first),
        emits(b, c, second),
        forall|f: int, l: int| #[trigger]
            is_run(b.received, b.complete, f, l) ==> is_run(c.received, c.complete, f, l),
    ensures
        emits(a, c, first + second),
{
    let all = first + second;
    assert forall|s: int, i: int|
        #![trigger all[s], a.consumed.contains(i)]
        0 <= s < all.len() && covers(all[s], i) implies !a.consumed.contains(i) by {
        if s >= first.len() {
            assert(second[s - first.len()] == all[s]);
            assert(!b.consumed.contains(i));
        } else {
            assert(first[s] == all[s]);
        }
    }
    assert forall|s: int, t: int, i: int|
        #![trigger covers(all[s], i), covers(all[t], i)]
        0 <= s < t < all.len() && covers(all[s], i) implies !covers(all[t], i) by {
        if t < first.len() {
            assert(!covers(first[t], i) || !covers(first[s], i));
        } else if s >= first.len() {
            assert(!covers(second[s - first.len()], i) || !covers(second[t - first.len()], i));
        } else {
            assert(covers(first[s], i));
            assert(b.consumed.contains(i));
            assert(second[t - first.len()] == all[t]);
        }
    }
    assert forall|s: int| 0 <= s < all.len() implies is_run(
        c.received,
        c.complete,
        (#[trigger] all[s]).shreds.start as int,
        all[s].shreds.end as int,
    ) && !all[s].shreds.exhausted by {
        if s < first.len() {
            assert(first[s] == all[s]);
        } else {
            assert(second[s - first.len()] == all[s]);
        }
    }
    assert forall|i: int| #[trigger]
        c.consumed.contains(i) <==> a.consumed.contains(i) || exists|s: int|
            0 <= s < all.len() && covers(all[s], i) by {
        if c.consumed.contains(i) && !a.consumed.contains(i) {
            if b.consumed.contains(i) {
                let s = choose|s: int| 0 <= s < first.len() && covers(first[s], i);
                assert(covers(all[s], i));
            } else {
                let s = choose|s: int| 0 <= s < second.len() && covers(second[s], i);
                assert(covers(all[first.len() + s], i));
            }
        }
        if a.consumed.contains(i) {
            assert(b.consumed.contains(i));
        }
        if exists|s: int| 0 <= s < all.len() && covers(all[s], i) {
            let s = choose|s: int| 0 <= s < all.len() && covers(all[s], i);
            if s < first.len() {
                assert(covers(first[s], i));
                assert(b.consumed.contains(i));
            } else {
                assert(covers(second[s - first.len()], i));
            }
        }
    }
}

/// Trying an index keeps a slot coherent, and leaves no run of that index behind.
pub proof fn lemma_try_complete(m: SlotModel, index: int)
    requires
        m.coherent(),
    ensures
        ({
            let (next, segments) = m.try_complete(index);
            &&& next.coherent()
            &&& next.received == m.received
            &&& next.complete == m.complete
            &&& emits(m, next, segments)
            &&& next.in_run(index) ==> next.consumed.contains(index)
        }),
{
    if !m.consumed.contains(index) && m.in_run(index) {
        let (first, last) = m.run_of(index);
        lemma_without_run(m, first, last, index);
    }
}

/// Trying an index, and the one after it where it ends a batch.
proof fn lemma_try_both(m: SlotModel, index: int)
    requires
        m.coherent(),
    ensures
        ({
            let (next, segments) = m.try_both(index);
            &&& next.coherent()
            &&& next.received == m.received
            &&& next.complete == m.complete
            &&& emits(m, next, segments)
            &&& next.in_run(index) ==> next.consumed.contains(index)
            &&& next.complete.contains(index) && next.in_run(index + 1) ==> next.consumed.contains(
                index + 1,
            )
        }),
{
    lemma_try_complete(m, index);
    let (next, segments) = m.try_complete(index);
    if next.complete.contains(index) {
        lemma_try_complete(next, index + 1);
        let (after, more) = next.try_complete(index + 1);
        lemma_emits_join(m, next, after, segments, more);
        if next.consumed.contains(index) {
            assert(after.consumed.contains(index));
        }
    }
}

/// Trying all of `fresh`.
pub proof fn lemma_complete_all(m: SlotModel, fresh: Seq<u32>)
    requires
        m.coherent(),
    ensures
        ({
            let (next, segments) = m.complete_all(fresh);
            &&& next.coherent()
            &&& next.received == m.received
            &&& next.complete == m.complete
            &&& emits(m, next, segments)
            &&& forall|j: int|
                0 <= j < fresh.len() ==> {
                    let i = #[trigger] fresh[j] as int;
                    &&& next.in_run(i) ==> next.consumed.contains(i)
                    &&& next.complete.contains(i) && next.in_run(i + 1) ==> next.consumed.contains(
                        i + 1,
                    )
                }
        }),
    decreases fresh.len(),
{
    if fresh.len() > 0 {
        let front = fresh.drop_last();
        lemma_complete_all(m, front);
        let (next, segments) = m.complete_all(front);
        lemma_try_both(next, fresh.last() as int);
        let (after, more) = next.try_both(fresh.last() as int);
        lemma_emits_join(m, next, after, segments, more);
        assert forall|j: int| 0 <= j < fresh.len() implies {
            let i = #[trigger] fresh[j] as int;
            &&& after.in_run(i) ==> after.consumed.contains(i)
            &&& after.complete.contains(i) && after.in_run(i + 1) ==> after.consumed.contains(i + 1)
        } by {
            let i = fresh[j] as int;
            if j < fresh.len() - 1 {
                assert(front[j] == fresh[j]);
                if next.consumed.contains(i) {
                    assert(after.consumed.contains(i));
                }
                if next.consumed.contains(i + 1) {
                    assert(after.consumed.contains(i + 1));
                }
            }
        }
    }
}

/// Whether all data shreds in `fresh` are held by their FEC sets and none of them
/// is marked present yet.
pub open spec fn arrived(m: SlotModel, fresh: Seq<u32>) -> bool {
    forall|j: int|
        0 <= j < fresh.len() ==> {
            let i = #[trigger] fresh[j] as int;
            &&& i < MAX_SHREDS_PER_SLOT
            &&& !m.received.contains(i)
            &&& m.sets.contains_key(set_of(i) as u32)
            &&& m.shred_at(i) is Some
        }
}

/// Marking more data shreds present leaves the complete runs as they are.
pub proof fn lemma_runs_stay(m: SlotModel, fresh: Seq<u32>, first: int, last: int)
    requires
        arrived(m, fresh),
        is_run(m.received, m.complete, first, last),
    ensures
        is_run(m.marked(fresh).received, m.marked(fresh).complete, first, last),
{
    let next = m.marked(fresh);
    assert forall|i: int| first <= i < last implies !#[trigger] next.complete.contains(i) by {
        assert(m.received.contains(i));
        assert(!m.complete.contains(i));
    }
}

/// Marking more data shreds present keeps a slot coherent.
pub proof fn lemma_marked(m: SlotModel, fresh: Seq<u32>)
    requires
        m.valid(),
        arrived(m, fresh),
    ensures
        m.marked(fresh).coherent(),
{
    let next = m.marked(fresh);
    assert forall|i: int| #[trigger] next.consumed.contains(i) implies next.in_run(i) by {
        assert(m.in_run(i));
        let (first, last) = m.run_of(i);
        lemma_runs_stay(m, fresh, first, last);
    }
    assert forall|f: int, l: int, i: int, j: int|
        #![trigger is_run(next.received, next.complete, f, l), next.consumed.contains(i), next.consumed.contains(j)]
        is_run(next.received, next.complete, f, l) && f <= i <= l && f <= j <= l
            && next.consumed.contains(i) implies next.consumed.contains(j) by {
        assert(m.in_run(i));
        let (first, last) = m.run_of(i);
        lemma_runs_stay(m, fresh, first, last);
        law_run_unique(next.received, next.complete, i, (first, last), (f, l));
        assert(m.consumed.contains(j));
    }
    assert forall|i: int| #[trigger] next.received.contains(i) implies 0 <= i
        < MAX_SHREDS_PER_SLOT && (all_consumed(next.consumed, set_of(i)) || (
    next.sets.contains_key(set_of(i) as u32) && next.shred_at(i) is Some && next.complete.contains(
        i,
    ) == data_complete_of(next.shred_at(i)->0))) by {
        assert(next.shred_at(i) == m.shred_at(i));
        if m.received.contains(i) {
            assert(!index_set(fresh).contains(i));
        } else {
            assert(index_set(fresh).contains(i));
            assert(!m.complete.contains(i));
        }
    }
}

/// A run that marking `fresh` makes has one of them in it, or right before it as
/// the end of a batch.
proof fn lemma_new_run(m: SlotModel, fresh: Seq<u32>, first: int, last: int)
    requires
        is_run(m.marked(fresh).received, m.marked(fresh).complete, first, last),
        !is_run(m.received, m.complete, first, last),
    ensures
        exists|j: int|
            0 <= j < fresh.len() && (first <= #[trigger] fresh[j] <= last || (fresh[j] == first - 1
                && m.marked(fresh).complete.contains(first - 1))),
{
    let next = m.marked(fresh);
    if forall|i: int| first <= i <= last ==> !#[trigger] index_set(fresh).contains(i) {
        assert forall|i: int| first <= i <= last implies #[trigger] m.received.contains(i) by {
            assert(next.received.contains(i));
            assert(!index_set(fresh).contains(i));
        }
        assert(next.complete.contains(last));
        assert(!index_set(fresh).contains(last));
        assert(m.complete.contains(last));
        assert forall|i: int| first <= i < last implies !#[trigger] m.complete.contains(i) by {
            assert(!next.complete.contains(i));
        }
        assert(first != 0 && !m.complete.contains(first - 1));
        assert(index_set(fresh).contains(first - 1));
        let j = choose|j: int| 0 <= j < fresh.len() && #[trigger] fresh[j] == first - 1;
        assert(fresh[j] == first - 1);
    } else {
        let i = choose|i: int| first <= i <= last && #[trigger] index_set(fresh).contains(i);
        let j = choose|j: int| 0 <= j < fresh.len() && #[trigger] fresh[j] == i;
        assert(first <= fresh[j] <= last);
    }
}

/// Marking data shreds present and emitting what they complete keeps a slot
/// valid: no complete run is left behind, and nothing is emitted twice.
proof fn lemma_settled(m: SlotModel, fresh: Seq<u32>, stats: Stats)
    requires
        m.valid(),
        arrived(m, fresh),
    ensures
        m.settled(fresh, stats).slot.valid(),
        emits(m, m.settled(fresh, stats).slot, m.settled(fresh, stats).segments),
{
    let marked = m.marked(fresh);
    lemma_marked(m, fresh);
    lemma_complete_all(marked, fresh);
    let (next, segments) = marked.complete_all(fresh);
    assert forall|i: int| #[trigger] next.in_run(i) implies next.consumed.contains(i) by {
        let (first, last) = next.run_of(i);
        if is_run(m.received, m.complete, first, last) {
            assert(m.in_run(i));
            assert(m.consumed.contains(i));
            assert(marked.consumed.contains(i));
            assert(next.consumed.contains(i));
        } else {
            lemma_new_run(m, fresh, first, last);
            let j = choose|j: int|
                0 <= j < fresh.len() && (first <= #[trigger] fresh[j] <= last || (fresh[j] == first
                    - 1 && marked.complete.contains(first - 1)));
            let f = fresh[j] as int;
            if first <= f <= last {
                assert(next.in_run(f));
                assert(next.consumed.contains(f));
            } else {
                assert(next.in_run(f + 1));
                assert(next.consumed.contains(f + 1));
            }
            assert(next.consumed.contains(i));
        }
    }
    assert forall|s: int, i: int|
        #![trigger segments[s], m.consumed.contains(i)]
        0 <= s < segments.len() && covers(segments[s], i) implies !m.consumed.contains(i) by {
        assert(!marked.consumed.contains(i));
    }
    assert forall|i: int| #[trigger]
        next.consumed.contains(i) <==> m.consumed.contains(i) || exists|s: int|
            0 <= s < segments.len() && covers(segments[s], i) by {
        assert(m.consumed.contains(i) == marked.consumed.contains(i));
    }
}

/// A FEC set may gain shreds.
pub proof fn lemma_with_set(m: SlotModel, k: u32, set: FecModel)
    requires
        m.valid(),
        k % 32 == 0,
        set.valid(),
        of_set(set, k),
        !all_consumed(m.consumed, k as int),
        forall|p: int|
            0 <= p < 32 && (#[trigger] m.set(k).data[p]) is Some ==> set.data[p] == m.set(
                k,
            ).data[p],
    ensures
        m.with_set(k, set).valid(),
        emits(m, m.with_set(k, set), Seq::empty()),
{
    let next = m.with_set(k, set);
    assert forall|i: int| #[trigger] next.received.contains(i) implies all_consumed(
        next.consumed,
        set_of(i),
    ) || (next.sets.contains_key(set_of(i) as u32) && next.shred_at(i) is Some
        && next.complete.contains(i) == data_complete_of(next.shred_at(i)->0)) by {
        assert(m.received.contains(i));
        if set_of(i) == k {
            assert(m.set(k).data[i % 32] == m.shred_at(i));
        }
    }
    assert forall|i: int| #[trigger] next.in_run(i) implies next.consumed.contains(i) by {
        assert(m.in_run(i));
    }
    assert forall|i: int| #[trigger] next.consumed.contains(i) implies next.in_run(i) by {
        assert(m.in_run(i));
    }
    assert forall|f: int, l: int, i: int, j: int|
        #![trigger is_run(next.received, next.complete, f, l), next.consumed.contains(i), next.consumed.contains(j)]
        is_run(next.received, next.complete, f, l) && f <= i <= l && f <= j <= l
            && next.consumed.contains(i) implies next.consumed.contains(j) by {
        assert(is_run(m.received, m.complete, f, l));
        assert(m.consumed.contains(i));
        assert(m.consumed.contains(j));
    }
}

/// Which data shreds are present and which of them end a batch decides what has
/// been emitted, in whatever order they came and however they were obtained.
pub proof fn law_emitted_is_determined(a: SlotModel, b: SlotModel)
    requires
        a.valid(),
        b.valid(),
        a.received == b.received,
        a.complete == b.complete,
    ensures
        a.consumed == b.consumed,
{
    assert forall|i: int| a.consumed.contains(i) == b.consumed.contains(i) by {
        if a.consumed.contains(i) {
            assert(a.in_run(i));
            assert(b.in_run(i));
        }
        if b.consumed.contains(i) {
            assert(b.in_run(i));
            assert(a.in_run(i));
        }
    }
    assert(a.consumed =~= b.consumed);
}

/// What trying an index leaves alone.
pub proof fn lemma_try_complete_frame(m: SlotModel, index: int)
    ensures
        ({
            let next = m.try_complete(index).0;
            &&& next.received == m.received
            &&& next.complete == m.complete
            &&& m.consumed.subset_of(next.consumed)
            &&& forall|k: u32| #[trigger]
                next.sets.contains_key(k) ==> m.sets.contains_key(k) && next.sets[k] == m.sets[k]
            &&& forall|k: u32| #[trigger]
                m.sets.contains_key(k) ==> next.sets.contains_key(k) || all_consumed(
                    next.consumed,
                    k as int,
                )
        }),
{
}

/// What completing runs leaves alone: it only frees FEC sets of which all was
/// emitted.
pub proof fn lemma_complete_all_frame(m: SlotModel, fresh: Seq<u32>)
    ensures
        ({
            let next = m.complete_all(fresh).0;
            &&& next.received == m.received
            &&& next.complete == m.complete
            &&& m.consumed.subset_of(next.consumed)
            &&& forall|k: u32| #[trigger]
                next.sets.contains_key(k) ==> m.sets.contains_key(k) && next.sets[k] == m.sets[k]
            &&& forall|k: u32| #[trigger]
                m.sets.contains_key(k) ==> next.sets.contains_key(k) || all_consumed(
                    next.consumed,
                    k as int,
                )
        }),
    decreases fresh.len(),
{
    if fresh.len() > 0 {
        lemma_complete_all_frame(m, fresh.drop_last());
        let next = m.complete_all(fresh.drop_last()).0;
        let i = fresh.last() as int;
        lemma_try_complete_frame(next, i);
        let after = next.try_complete(i).0;
        lemma_try_complete_frame(after, i + 1);
    }
}

/// Whether recovery gives back what a set is part of: where all its shreds are those
/// of a whole set, recovery succeeds and gives every data shred of that one, up to the
/// proofs.
#[verifier::opaque]
pub open spec fn restores(held: FecModel) -> bool {
    &&& held.recovered().valid()
    &&& forall|whole: Seq<Seq<u8>>|
        whole_set(whole) && #[trigger] part_of(held, whole) ==> {
            &&& held.recover_outcome() is Ok
            &&& held.recovered().is_complete()
            &&& forall|p: int|
                0 <= p < 32 ==> same_up_to_proof(
                    (#[trigger] held.recovered().data[p])->0,
                    whole[p],
                )
        }
}

/// What adding the shred `b` does to a slot: `after` is what becomes of `before`,
/// `segments` is what is emitted, nothing of it for the second time, and a recovery
/// that is run gives back what the FEC set is part of.
pub open spec fn step(
    before: SlotModel,
    b: Seq<u8>,
    recovery: bool,
    after: SlotModel,
    segments: Seq<SegmentModel>,
) -> bool {
    &&& valid_wire(b)
    &&& before.valid()
    &&& after.valid()
    &&& after == before.inserted(b, recovery, Stats::zero()).slot
    &&& segments == before.inserted(b, recovery, Stats::zero()).segments
    &&& emits(before, after, segments)
    &&& before.recovers(b, recovery) ==> restores(before.set(fec_set_index_of(b)).inserted(b))
}

/// Segments come with ranges that have not been iterated.
proof fn lemma_complete_all_ranges(m: SlotModel, fresh: Seq<u32>)
    ensures
        forall|s: int|
            0 <= s < m.complete_all(fresh).1.len() ==> !(#[trigger] m.complete_all(
                fresh,
            ).1[s]).shreds.exhausted,
    decreases fresh.len(),
{
    if fresh.len() > 0 {
        lemma_complete_all_ranges(m, fresh.drop_last());
        let (next, segments) = m.complete_all(fresh.drop_last());
        let (_, more) = next.try_both(fresh.last() as int);
        let all = m.complete_all(fresh).1;
        assert forall|s: int| 0 <= s < all.len() implies !(
        #[trigger] all[s]).shreds.exhausted by {
            if s < segments.len() {
                assert(all[s] == segments[s]);
            } else {
                assert(all[s] == more[s - segments.len()]);
            }
        }
    }
}

/// Segments come with ranges that have not been iterated.
pub proof fn lemma_inserted_ranges(m: SlotModel, b: Seq<u8>, recovery: bool, stats: Stats)
    ensures
        forall|s: int|
            0 <= s < m.inserted(b, recovery, stats).segments.len() ==> !(#[trigger] m.inserted(
                b,
                recovery,
                stats,
            ).segments[s]).shreds.exhausted,
{
    let k = fec_set_index_of(b);
    let held = m.set(k).inserted(b);
    let fresh = if kind_of(b) == ShredKind::Data {
        seq![index_of(b)]
    } else {
        Seq::empty()
    };
    lemma_complete_all_ranges(m.with_set(k, held).marked(fresh), fresh);
    lemma_complete_all_ranges(m.with_set(k, held.recovered()).marked(fresh), fresh);
    if let Ok(recovered) = held.recover_outcome() {
        let all = fresh + recovered;
        lemma_complete_all_ranges(m.with_set(k, held.recovered()).marked(all), all);
    }
}

/// The deshredded bytes of one complete run of data shreds.
pub struct Segment {
    pub shreds: RangeInclusive<u32>,
    pub bytes: Vec<u8>,
    pub last_in_slot: bool,
}

impl View for Segment {
    type V = SegmentModel;

    open spec fn view(&self) -> SegmentModel {
        SegmentModel {
            shreds: self.shreds@,
            bytes: self.bytes@,
            last_in_slot: self.last_in_slot,
        }
    }
}

/// Views of segments.
pub open spec fn segment_models(segments: Seq<Segment>) -> Seq<SegmentModel> {
    segments.map_values(|segment: Segment| segment@)
}

pub struct SlotState {
    sets: HashMap<u32, FecSet>,
    /// Data shred present (received or recovered).
    received: FixedBitSet,
    /// Data shred ends a batch.
    complete: FixedBitSet,
    /// Data shred already emitted as part of a segment.
    consumed: FixedBitSet,
}

impl View for SlotState {
    type V = SlotModel;

    closed spec fn view(&self) -> SlotModel {
        SlotModel {
            sets: self.sets@.map_values(|set: FecSet| set@),
            received: ones(self.received),
            complete: ones(self.complete),
            consumed: ones(self.consumed),
        }
    }
}

impl Default for SlotState {
    fn default() -> (slot: Self)
        ensures
            slot.wf(),
            slot@ == SlotModel::empty(),
    {
        let bits: usize = MAX_SHREDS_PER_SLOT as usize;
        let slot = Self {
            sets: HashMap::new(),
            received: bitset::with_capacity(bits),
            complete: bitset::with_capacity(bits),
            consumed: bitset::with_capacity(bits),
        };
        assert(slot@ =~= SlotModel::empty());
        slot
    }
}

impl SlotState {
    /// The slot is valid, and so are the parts that its state is kept in.
    pub open spec fn wf(&self) -> bool {
        &&& self@.valid()
        &&& self.parts_ok()
    }

    /// There is room for every index, and every FEC set is well formed.
    pub closed spec fn parts_ok(&self) -> bool {
        &&& width(self.received) == MAX_SHREDS_PER_SLOT
        &&& width(self.complete) == MAX_SHREDS_PER_SLOT
        &&& width(self.consumed) == MAX_SHREDS_PER_SLOT
        &&& forall|k: u32| #[trigger] self.sets@.contains_key(k) ==> self.sets@[k].wf()
    }

    /// Whether all of a FEC set was emitted. A set past the last index that a
    /// slot can have never is.
    fn set_is_consumed(&self, fec_set_index: u32) -> (consumed: bool)
        requires
            self.parts_ok(),
            within_slot(self@.consumed),
        ensures
            consumed == all_consumed(self@.consumed, fec_set_index as int),
    {
        let ghost range = set_int_range(fec_set_index as int, fec_set_index + 32);
        if fec_set_index > MAX_SHREDS_PER_SLOT - 32 {
            assert(!self@.consumed.contains(fec_set_index + 31));
            return false;
        }
        let start: usize = fec_set_index as usize;
        let count: usize = bitset::count_ones(&self.consumed, start, start + 32);
        proof {
            vstd::set_lib::lemma_int_range(fec_set_index as int, fec_set_index + 32);
            let common = self@.consumed.intersect(range);
            if all_consumed(self@.consumed, fec_set_index as int) {
                assert(common =~= range);
            } else if common.len() == 32 {
                assert(common.subset_of(range));
                vstd::set_lib::lemma_subset_equality(common, range);
                assert forall|i: int| fec_set_index <= i < fec_set_index + 32 implies
                    #[trigger] self@.consumed.contains(i) by {
                    assert(range.contains(i));
                    assert(common.contains(i));
                }
            }
        }
        count == 32
    }

    /// Bounds of the run containing `index`, if every shred in it is present.
    fn find_segment(&self, index: u32) -> (bounds: Option<(u32, u32)>)
        requires
            self.parts_ok(),
            self@.coherent(),
            index < MAX_SHREDS_PER_SLOT,
        ensures
            match bounds {
                Some((first, last)) => first <= index <= last && is_run(
                    self@.received,
                    self@.complete,
                    first as int,
                    last as int,
                ),
                None => !self@.in_run(index as int),
            },
    {
        let ghost received = self@.received;
        let ghost complete = self@.complete;
        let mut last: u32 = index;
        loop
            invariant
                received == self@.received,
                complete == self@.complete,
                index <= last < MAX_SHREDS_PER_SLOT,
                forall|i: int| index <= i < last ==> #[trigger] received.contains(i),
                forall|i: int| index <= i < last ==> !#[trigger] complete.contains(i),
            ensures
                received.contains(last as int),
                complete.contains(last as int),
            decreases MAX_SHREDS_PER_SLOT - last,
        {
            if !bitset::contains(&self.received, last as usize) {
                proof {
                    lemma_no_run(received, complete, index as int, last as int);
                }
                return None;
            }
            if bitset::contains(&self.complete, last as usize) {
                break;
            }
            last = last + 1;
            if last >= MAX_SHREDS_PER_SLOT {
                proof {
                    lemma_no_run(received, complete, index as int, last as int);
                }
                return None;
            }
        }
        let mut first: u32 = index;
        while first > 0 && !bitset::contains(&self.complete, first as usize - 1)
            invariant
                received == self@.received,
                complete == self@.complete,
                first <= index <= last < MAX_SHREDS_PER_SLOT,
                forall|i: int| index <= i <= last ==> #[trigger] received.contains(i),
                forall|i: int| index <= i < last ==> !#[trigger] complete.contains(i),
                complete.contains(last as int),
                forall|i: int| first <= i < index ==> #[trigger] received.contains(i),
                forall|i: int| first <= i < index ==> !#[trigger] complete.contains(i),
            decreases first,
        {
            if !bitset::contains(&self.received, first as usize - 1) {
                assert forall|f: int, l: int| f <= index <= l implies !#[trigger] is_run(
                    received,
                    complete,
                    f,
                    l,
                ) by {
                    if is_run(received, complete, f, l) {
                        if f > first - 1 {
                            assert(!complete.contains(f - 1));
                        } else {
                            assert(received.contains(first - 1));
                        }
                    }
                }
                return None;
            }
            first = first - 1;
        }
        assert forall|i: int| first <= i <= last implies #[trigger] received.contains(i) by {}
        assert forall|i: int| first <= i < last implies !#[trigger] complete.contains(i) by {}
        Some((first, last))
    }

    /// The data shred at `index`.
    fn data(&self, index: u32) -> (shred: &Shred)
        requires
            self.parts_ok(),
            self@.sets.contains_key(set_of(index as int) as u32),
            self@.shred_at(index as int) is Some,
        ensures
            self@.shred_at(index as int) == Some(shred@),
    {
        broadcast use vstd::std_specs::hash::group_hash_axioms;

        let fec_set_index: u32 = index - index % 32;
        assert(self.sets@.contains_key(fec_set_index));
        let set: &FecSet = self.sets.get(&fec_set_index).unwrap();
        set.data((index - fec_set_index) as usize).unwrap()
    }

    /// Entry bytes of the run `first..=last`.
    fn bytes_of(&self, first: u32, last: u32) -> (bytes: Vec<u8>)
        requires
            self.parts_ok(),
            first <= last < MAX_SHREDS_PER_SLOT,
            forall|i: int|
                first <= i <= last ==> self@.sets.contains_key(#[trigger] set_of(i) as u32)
                    && self@.shred_at(i) is Some,
        ensures
            bytes@ == self@.bytes_of(first as int, last + 1),
    {
        let mut bytes: Vec<u8> = Vec::with_capacity((last - first + 1) as usize * DATA_CAPACITY);
        let mut i: u32 = first;
        while i <= last
            invariant
                self.parts_ok(),
                first <= i <= last + 1,
                last < MAX_SHREDS_PER_SLOT,
                forall|i: int|
                    first <= i <= last ==> self@.sets.contains_key(#[trigger] set_of(i) as u32)
                        && self@.shred_at(i) is Some,
                bytes@ == self@.bytes_of(first as int, i as int),
            decreases last + 1 - i,
        {
            assert(self@.sets.contains_key(set_of(i as int) as u32));
            buffer::append(&mut bytes, self.data(i).data());
            i = i + 1;
        }
        bytes
    }

    /// Emit the run that `index` is part of, if it is complete and has not been
    /// emitted before.
    fn try_complete(&mut self, index: u32, out: &mut Vec<Segment>)
        requires
            old(self).parts_ok(),
            old(self)@.coherent(),
        ensures
            final(self).parts_ok(),
            final(self)@ == old(self)@.try_complete(index as int).0,
            segment_models(final(out)@) == segment_models(old(out)@) + old(self)@.try_complete(
                index as int,
            ).1,
    {
        let ghost before = self@;
        let ghost emitted = segment_models(out@);
        assert(emitted + Seq::<SegmentModel>::empty() =~= emitted);
        if index >= MAX_SHREDS_PER_SLOT || bitset::contains(&self.consumed, index as usize) {
            return;
        }
        let (first, last) = match self.find_segment(index) {
            Some(bounds) => bounds,
            None => return,
        };
        proof {
            let (f, l) = before.run_of(index as int);
            law_run_unique(
                before.received,
                before.complete,
                index as int,
                (first as int, last as int),
                (f, l),
            );
            lemma_without_run(before, first as int, last as int, index as int);
            assert forall|i: int| first <= i <= last implies before.sets.contains_key(
                #[trigger] set_of(i) as u32,
            ) && before.shred_at(i) is Some by {
                assert(before.received.contains(i));
            }
            assert(before.sets.contains_key(set_of(last as int) as u32));
        }
        let bytes: Vec<u8> = self.bytes_of(first, last);
        let last_in_slot: bool = self.data(last).last_in_slot();
        bitset::insert_range(&mut self.consumed, first as usize, last as usize + 1);
        let segment = Segment { shreds: RangeInclusive::new(first, last), bytes, last_in_slot };
        assert(segment@ =~= before.segment(first as int, last as int));
        let ghost out_before = out@;
        out.push(segment);
        assert(segment_models(out@) =~= segment_models(out_before).push(segment@));
        proof {
            lemma_freed(before.sets, before.consumed, first as int, last as int);
            lemma_consumed_within(before.without_run(first as int, last as int));
        }
        self.free_sets(first, last);
    }

    /// Free the FEC sets around the run `first..=last` that have nothing left to
    /// give, now that it has been emitted.
    fn free_sets(&mut self, first: u32, last: u32)
        requires
            old(self).parts_ok(),
            within_slot(old(self)@.consumed),
            first <= last < MAX_SHREDS_PER_SLOT,
        ensures
            final(self).parts_ok(),
            final(self)@ == (SlotModel {
                sets: freed(
                    old(self)@.sets,
                    old(self)@.consumed,
                    first - first % 32,
                    last + 1,
                ),
                ..old(self)@
            }),
    {
        broadcast use vstd::std_specs::hash::group_hash_axioms;

        let ghost before = self@;
        let mut k: u32 = first - first % 32;
        while k <= last
            invariant
                k % 32 == 0,
                first - first % 32 <= k <= last + 32,
                last < MAX_SHREDS_PER_SLOT,
                self.parts_ok(),
                within_slot(before.consumed),
                self@ == (SlotModel {
                    sets: freed(before.sets, before.consumed, first - first % 32, k as int),
                    ..before
                }),
            decreases last + 32 - k,
        {
            let ghost here = self@;
            if self.set_is_consumed(k) {
                self.sets.remove(&k);
                assert(self@.sets =~= here.sets.remove(k));
            }
            k = k + 32;
            assert(self@.sets =~= freed(
                before.sets,
                before.consumed,
                first - first % 32,
                k as int,
            ));
        }
        assert(self@.sets =~= freed(before.sets, before.consumed, first - first % 32, last + 1));
    }

    /// Mark data shreds that their FEC sets hold as present.
    fn mark(&mut self, fresh: &Vec<u32>)
        requires
            old(self).parts_ok(),
            arrived(old(self)@, fresh@),
        ensures
            final(self).parts_ok(),
            final(self)@ == old(self)@.marked(fresh@),
    {
        let ghost before = self@;
        assert(self@ =~= before.marked(fresh@.take(0)));
        let mut j: usize = 0;
        while j < fresh.len()
            invariant
                j <= fresh@.len(),
                self.parts_ok(),
                arrived(before, fresh@),
                self@ == before.marked(fresh@.take(j as int)),
            decreases fresh@.len() - j,
        {
            let i: u32 = fresh[j];
            let ghost here = self@;
            assert(before.sets.contains_key(set_of(i as int) as u32));
            let completes: bool = self.data(i).data_complete();
            bitset::insert(&mut self.received, i as usize);
            if completes {
                bitset::insert(&mut self.complete, i as usize);
            }
            proof {
                lemma_index_set_step(fresh@, j as int);
                let next = before.marked(fresh@.take(j + 1));
                assert(self@.received =~= next.received);
                assert(self@.complete =~= next.complete);
            }
            j = j + 1;
        }
        assert(fresh@.take(j as int) =~= fresh@);
    }

    /// Emit the run that `index` is part of and, where it ends a batch, the run
    /// after it.
    fn try_both(&mut self, index: u32, out: &mut Vec<Segment>)
        requires
            old(self).parts_ok(),
            old(self)@.coherent(),
            index < MAX_SHREDS_PER_SLOT,
        ensures
            final(self).parts_ok(),
            final(self)@ == old(self)@.try_both(index as int).0,
            segment_models(final(out)@) == segment_models(old(out)@) + old(self)@.try_both(
                index as int,
            ).1,
    {
        let ghost before = self@;
        let ghost emitted = segment_models(out@);
        proof {
            lemma_try_complete(before, index as int);
        }
        self.try_complete(index, out);
        // The run after a data-complete shred may have been waiting only for
        // this boundary to become known.
        if bitset::contains(&self.complete, index as usize) {
            let ghost first = before.try_complete(index as int).1;
            let ghost second = self@.try_complete(index + 1).1;
            self.try_complete(index + 1, out);
            assert(emitted + first + second =~= emitted + (first + second));
        }
    }

    /// Emit what the data shreds in `fresh` complete.
    fn complete_all(&mut self, fresh: &Vec<u32>, out: &mut Vec<Segment>)
        requires
            old(self).parts_ok(),
            old(self)@.coherent(),
            forall|j: int| 0 <= j < fresh@.len() ==> #[trigger] fresh@[j] < MAX_SHREDS_PER_SLOT,
        ensures
            final(self).parts_ok(),
            final(self)@ == old(self)@.complete_all(fresh@).0,
            segment_models(final(out)@) == segment_models(old(out)@) + old(self)@.complete_all(
                fresh@,
            ).1,
    {
        let ghost before = self@;
        let ghost emitted = segment_models(out@);
        assert(emitted + Seq::<SegmentModel>::empty() =~= emitted);
        let mut j: usize = 0;
        while j < fresh.len()
            invariant
                j <= fresh@.len(),
                self.parts_ok(),
                before.coherent(),
                forall|j: int| 0 <= j < fresh@.len() ==> #[trigger] fresh@[j] < MAX_SHREDS_PER_SLOT,
                self@ == before.complete_all(fresh@.take(j as int)).0,
                segment_models(out@) == emitted + before.complete_all(fresh@.take(j as int)).1,
            decreases fresh@.len() - j,
        {
            let i: u32 = fresh[j];
            proof {
                lemma_complete_all(before, fresh@.take(j as int));
                assert(fresh@.take(j + 1).drop_last() =~= fresh@.take(j as int));
            }
            let ghost so_far = before.complete_all(fresh@.take(j as int)).1;
            let ghost more = self@.try_both(i as int).1;
            self.try_both(i, out);
            j = j + 1;
            assert(emitted + so_far + more =~= emitted + (so_far + more));
        }
        assert(fresh@.take(j as int) =~= fresh@);
    }

    /// Take a FEC set out to change it.
    fn take_set(&mut self, k: u32) -> (set: FecSet)
        requires
            old(self).parts_ok(),
        ensures
            final(self).parts_ok(),
            set.counted(),
            set@ == old(self)@.set(k),
            set@.valid(),
            final(self)@ == (SlotModel { sets: old(self)@.sets.remove(k), ..old(self)@ }),
    {
        broadcast use vstd::std_specs::hash::group_hash_axioms;

        let ghost before = self@;
        let ghost sets = self.sets@;
        let set: FecSet = match self.sets.remove(&k) {
            Some(set) => set,
            None => FecSet::default(),
        };
        assert(self@.sets =~= before.sets.remove(k));
        proof {
            if sets.contains_key(k) {
                assert(before.sets.contains_key(k));
            } else {
                assert(!before.sets.contains_key(k));
            }
        }
        set
    }

    /// Put a FEC set back.
    fn put_set(&mut self, k: u32, set: FecSet)
        requires
            old(self).parts_ok(),
            set.wf(),
        ensures
            final(self).parts_ok(),
            final(self)@ == old(self)@.with_set(k, set@),
    {
        broadcast use vstd::std_specs::hash::group_hash_axioms;

        let ghost before = self@;
        self.sets.insert(k, set);
        assert(self@.sets =~= before.sets.insert(k, set@));
    }

    /// Add a shred, run recovery if it became possible, and push every segment
    /// that is now complete onto `out`. Nothing is emitted twice.
    pub fn insert(
        &mut self,
        shred: Shred,
        rs: Option<&ReedSolomon>,
        stats: &mut Stats,
        out: &mut Vec<Segment>,
    )
        requires
            old(self).wf(),
        ensures
            final(self).wf(),
            ({
                let done = old(self)@.inserted(shred@, rs is Some, *old(stats));
                &&& final(self)@ == done.slot
                &&& *final(stats) == done.stats
                &&& segment_models(final(out)@) == segment_models(old(out)@) + done.segments
                &&& step(old(self)@, shred@, rs is Some, final(self)@, done.segments)
            }),
    {
        let ghost before = self@;
        let ghost b = shred@;
        let ghost emitted = segment_models(out@);
        assert(emitted + Seq::<SegmentModel>::empty() =~= emitted);
        let fec_set_index: u32 = shred.fec_set_index();
        let index: u32 = shred.index();
        let is_data: bool = shred.kind() == ShredKind::Data;
        proof {
            lemma_consumed_within(before);
        }
        if is_data && bitset::contains(&self.received, index as usize) {
            stats::count(&mut stats.duplicates, 1);
            return;
        }
        if !is_data && self.set_is_consumed(fec_set_index) {
            stats::count(&mut stats.unneeded, 1);
            return;
        }
        proof {
            lemma_set_ready(before, b);
        }
        let mut set: FecSet = self.take_set(fec_set_index);
        let outcome = set.insert(shred);
        let ghost held = set@;
        match outcome {
            Insert::New => {},
            Insert::Duplicate => stats::count(&mut stats.duplicates, 1),
            Insert::Unneeded => stats::count(&mut stats.unneeded, 1),
            Insert::Rejected(_) => stats::count(&mut stats.rejected, 1),
        }
        if outcome != Insert::New {
            self.put_set(fec_set_index, set);
            proof {
                lemma_put_back(before, fec_set_index, held);
                lemma_with_set(before, fec_set_index, held);
            }
            return;
        }
        // Indexes that became available with this packet, at most a whole set.
        let mut fresh: Vec<u32> = Vec::new();
        if is_data {
            fresh.push(index);
        }
        try_recover(&mut set, rs, stats, &mut fresh);
        let ghost after = set@;
        self.put_set(fec_set_index, set);
        proof {
            if before.recovers(b, rs is Some) {
                law_recovery_adds(held, fec_set_index);
            }
            lemma_put_back(before, fec_set_index, after);
            lemma_with_set(before, fec_set_index, after);
            lemma_arrived(before, fec_set_index, after, fresh@);
            lemma_settled(self@, fresh@, *stats);
            lemma_marked(self@, fresh@);
        }
        self.mark(&fresh);
        self.complete_all(&fresh, out);
    }
}

/// Recover the missing data shreds of a FEC set if that is possible and wanted, and
/// append their indexes to `fresh`.
fn try_recover(
    set: &mut FecSet,
    rs: Option<&ReedSolomon>,
    stats: &mut Stats,
    fresh: &mut Vec<u32>,
)
    requires
        old(set).wf(),
    ensures
        final(set).wf(),
        rs is Some && old(set)@.can_recover() ==> {
            &&& final(set)@ == old(set)@.recovered()
            &&& restores(old(set)@)
            &&& match old(set)@.recover_outcome() {
                Ok(recovered) => final(fresh)@ == old(fresh)@ + recovered && *final(stats) == (
                Stats {
                    recovered: counted(old(stats).recovered, recovered.len()),
                    ..*old(stats)
                }),
                Err(_) => final(fresh)@ == old(fresh)@ && *final(stats) == (Stats {
                    recovery_failures: counted(old(stats).recovery_failures, 1),
                    ..*old(stats)
                }),
            }
        },
        !(rs is Some && old(set)@.can_recover()) ==> final(set)@ == old(set)@ && final(fresh)@
            == old(fresh)@ && *final(stats) == *old(stats),
{
    if let Some(rs) = rs {
        if set.can_recover() {
            match set.recover(rs) {
                Ok(indexes) => {
                    stats::count(&mut stats.recovered, indexes.len() as u64);
                    let mut recovered = indexes;
                    fresh.append(&mut recovered);
                },
                Err(_) => {
                    stats::count(&mut stats.recovery_failures, 1);
                },
            }
            reveal(restores);
        }
    }
}

/// Taking a set out and putting it back.
proof fn lemma_put_back(m: SlotModel, k: u32, set: FecModel)
    ensures
        (SlotModel { sets: m.sets.remove(k), ..m }).with_set(k, set) == m.with_set(k, set),
{
    assert(m.sets.remove(k).insert(k, set) =~= m.sets.insert(k, set));
}

/// What holds of the FEC set of a shred that is neither a duplicate nor too late.
pub proof fn lemma_set_ready(m: SlotModel, b: Seq<u8>)
    requires
        m.valid(),
        valid_wire(b),
        kind_of(b) == ShredKind::Data ==> !m.received.contains(index_of(b) as int),
        kind_of(b) == ShredKind::Code ==> !all_consumed(m.consumed, fec_set_index_of(b) as int),
    ensures
        ({
            let k = fec_set_index_of(b);
            let set = m.set(k);
            let next = set.inserted(b);
            &&& k % 32 == 0
            &&& !all_consumed(m.consumed, k as int)
            &&& next.valid()
            &&& of_set(next, k)
            &&& forall|p: int|
                0 <= p < 32 && (#[trigger] set.data[p]) is Some ==> next.data[p] == set.data[p]
            &&& set.insert_outcome(b) == Insert::New && kind_of(b) == ShredKind::Data ==> k
                <= index_of(b) < k + 32 && set.data[index_of(b) - k] is None && next.data[index_of(
                b,
            ) - k] == Some(b)
        }),
{
    let k = fec_set_index_of(b);
    let set = m.set(k);
    lemma_indexes(b);
    law_layout(b);
    lemma_empty_valid();
    lemma_inserted(set, b);
    if kind_of(b) == ShredKind::Data {
        let i = index_of(b) as int;
        if m.consumed.contains(i) {
            assert(m.in_run(i));
            let (first, last) = m.run_of(i);
            assert(m.received.contains(i));
        }
    }
}

/// Data shreds that a FEC set gained have arrived.
pub proof fn lemma_arrived(m: SlotModel, k: u32, set: FecModel, fresh: Seq<u32>)
    requires
        m.valid(),
        k % 32 == 0,
        !all_consumed(m.consumed, k as int),
        set.valid(),
        of_set(set, k),
        forall|j: int|
            0 <= j < fresh.len() ==> k <= #[trigger] fresh[j] < k + 32 && m.set(k).data[fresh[j]
                - k] is None && set.data[fresh[j] - k] is Some,
    ensures
        arrived(m.with_set(k, set), fresh),
{
    let next = m.with_set(k, set);
    assert forall|j: int| 0 <= j < fresh.len() implies {
        let i = #[trigger] fresh[j] as int;
        &&& i < MAX_SHREDS_PER_SLOT
        &&& !next.received.contains(i)
        &&& next.sets.contains_key(set_of(i) as u32)
        &&& next.shred_at(i) is Some
    } by {
        let i = fresh[j] as int;
        let p = i - k;
        assert(set_of(i) == k && i % 32 == p);
        assert(belongs(set.data[p]->0, ShredKind::Data, p));
        lemma_indexes(set.data[p]->0);
        if m.received.contains(i) {
            assert(m.shred_at(i) == m.set(k).data[p]);
        }
    }
}

/// One more of the indexes in `fresh`.
proof fn lemma_index_set_step(fresh: Seq<u32>, j: int)
    requires
        0 <= j < fresh.len(),
    ensures
        index_set(fresh.take(j + 1)) == index_set(fresh.take(j)).insert(fresh[j] as int),
{
    let more = index_set(fresh.take(j + 1));
    let before = index_set(fresh.take(j));
    assert forall|i: int| #[trigger] more.contains(i) <==> before.insert(fresh[j] as int).contains(
        i,
    ) by {
        if more.contains(i) {
            let k = choose|k: int| 0 <= k < j + 1 && #[trigger] fresh.take(j + 1)[k] == i;
            if k < j {
                assert(fresh.take(j)[k] == i);
            }
        }
        if before.contains(i) {
            let k = choose|k: int| 0 <= k < j && #[trigger] fresh.take(j)[k] == i;
            assert(fresh.take(j + 1)[k] == i);
        }
        if i == fresh[j] {
            assert(fresh.take(j + 1)[j] == i);
        }
    }
    assert(more =~= before.insert(fresh[j] as int));
}

/// `sets` without those from `first` up to, not including, `end` of which all was
/// emitted.
pub open spec fn freed(
    sets: Map<u32, FecModel>,
    consumed: Set<int>,
    first: int,
    end: int,
) -> Map<u32, FecModel> {
    sets.remove_keys(
        Set::new(
            |k: u32| k % 32 == 0 && first <= k < end && all_consumed(consumed, k as int),
        ),
    )
}

/// Emitting a run leaves nothing to give only in FEC sets that it has part in.
proof fn lemma_freed(sets: Map<u32, FecModel>, consumed: Set<int>, first: int, last: int)
    requires
        0 <= first <= last,
        forall|k: u32| #[trigger]
            sets.contains_key(k) ==> k % 32 == 0 && !all_consumed(consumed, k as int),
    ensures
        ({
            let next = consumed.union(set_int_range(first, last + 1));
            freed(sets, next, first - first % 32, last + 1) == sets.remove_keys(
                Set::new(|k: u32| all_consumed(next, k as int)),
            )
        }),
{
    let next = consumed.union(set_int_range(first, last + 1));
    let kept = freed(sets, next, first - first % 32, last + 1);
    let wanted = sets.remove_keys(Set::new(|k: u32| all_consumed(next, k as int)));
    assert forall|k: u32| kept.contains_key(k) == #[trigger] wanted.contains_key(k) by {
        if sets.contains_key(k) && all_consumed(next, k as int) {
            let i = choose|i: int| k <= i < k + 32 && !#[trigger] consumed.contains(i);
            assert(next.contains(i));
            assert(first <= i <= last);
        }
    }
    assert(kept =~= wanted);
}

/// What was emitted lies within the slot.
proof fn lemma_consumed_within(m: SlotModel)
    requires
        m.coherent(),
    ensures
        within_slot(m.consumed),
{
    assert forall|i: int| #[trigger] m.consumed.contains(i) implies 0 <= i
        < MAX_SHREDS_PER_SLOT by {
        assert(m.in_run(i));
        let (first, last) = m.run_of(i);
        assert(m.received.contains(i));
    }
}

/// No run reaches over a place where no shred is present.
proof fn lemma_no_run(received: Set<int>, complete: Set<int>, index: int, gap: int)
    requires
        index <= gap,
        gap >= MAX_SHREDS_PER_SLOT || !received.contains(gap),
        forall|i: int| index <= i < gap ==> !#[trigger] complete.contains(i),
    ensures
        !in_run(received, complete, index),
{
    if in_run(received, complete, index) {
        let (first, last) = choose|first: int, last: int|
            first <= index <= last && #[trigger] is_run(received, complete, first, last);
        if last >= gap {
            assert(received.contains(gap));
        } else {
            assert(!complete.contains(last));
        }
    }
}

} // verus!

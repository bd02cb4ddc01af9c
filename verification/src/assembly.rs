//! How a slot is put together: which data shreds make a batch, what its bytes are, and
//! what becomes of every shred.

use crate::fec::Insert;
use crate::gather::law_half_is_enough;
use crate::shred::{
    data_complete_of, data_of, erasure_index_of, fec_set_index_of, index_of, kind_of,
    last_in_slot_of, law_layout, merkle_root_of, valid_wire, ShredKind,
};
use crate::slot::{
    all_consumed, covers, in_run, index_set, is_run, lemma_complete_all_frame, SlotModel,
};
use crate::stats::{counted, Stats};
use vstd::prelude::*;
use vstd::set_lib::set_int_range;

verus! {

/// The run `first..=last` is ready exactly if every shred of it is there, its last
/// one, and no other of it, ends a batch, and a batch ended right before it unless it
/// is where the slot starts.
pub proof fn law_ready_run(received: Set<int>, complete: Set<int>, first: int, last: int)
    requires
        0 <= first <= last < 32768,
    ensures
        is_run(received, complete, first, last) <==> {
            let indexes = set_int_range(first, last + 1);
            &&& indexes.subset_of(received)
            &&& indexes.intersect(complete) == Set::empty().insert(last)
            &&& first > 0 ==> complete.contains(first - 1)
        },
{
    let indexes = set_int_range(first, last + 1);
    if is_run(received, complete, first, last) {
        assert(indexes.intersect(complete) =~= Set::empty().insert(last));
    }
    if indexes.subset_of(received) && indexes.intersect(complete) == Set::empty().insert(last) && (
    first > 0 ==> complete.contains(first - 1)) {
        assert(indexes.intersect(complete).contains(last));
        assert forall|i: int| first <= i <= last implies #[trigger] received.contains(i) by {
            assert(indexes.contains(i));
        }
        assert forall|i: int| first <= i < last implies !#[trigger] complete.contains(i) by {
            if complete.contains(i) {
                assert(indexes.intersect(complete).contains(i));
            }
        }
    }
}

/// Once all shreds up to one that ends a batch are there, each of them is part of a
/// run that is ready, however long the runs are and wherever they end.
pub proof fn law_received_shreds_are_in_runs(
    received: Set<int>,
    complete: Set<int>,
    n: int,
    index: int,
)
    requires
        0 <= index <= n < 32768,
        forall|i: int| 0 <= i <= n ==> #[trigger] received.contains(i),
        complete.contains(n),
    ensures
        in_run(received, complete, index),
{
    let last = lemma_next_end(complete, index, n);
    let first = lemma_start(complete, index);
    assert forall|i: int| first <= i < last implies !#[trigger] complete.contains(i) by {}
    assert(is_run(received, complete, first, last));
}

/// The first end of a batch from `index` on.
proof fn lemma_next_end(complete: Set<int>, index: int, n: int) -> (last: int)
    requires
        index <= n,
        complete.contains(n),
    ensures
        index <= last <= n,
        complete.contains(last),
        forall|i: int| index <= i < last ==> !#[trigger] complete.contains(i),
    decreases n - index,
{
    if complete.contains(index) {
        index
    } else {
        lemma_next_end(complete, index + 1, n)
    }
}

/// Where the batch that `index` is part of starts.
proof fn lemma_start(complete: Set<int>, index: int) -> (first: int)
    requires
        0 <= index,
    ensures
        0 <= first <= index,
        first == 0 || complete.contains(first - 1),
        forall|i: int| first <= i < index ==> !#[trigger] complete.contains(i),
    decreases index,
{
    if index == 0 || complete.contains(index - 1) {
        index
    } else {
        lemma_start(complete, index - 1)
    }
}

/// The data shred at an index is the one that its FEC set holds at the index less
/// that of the set.
pub proof fn law_shred_of_an_index(m: SlotModel, k: u32, p: int)
    requires
        m.sets.contains_key(k),
        k % 32 == 0,
        0 <= p < 32,
    ensures
        m.shred_at(k + p) == m.sets[k].data[p],
{
    assert((k + p) % 32 == p);
}

/// The bytes of a run are those of its data shreds, one after the other.
pub proof fn law_bytes_of_a_run(m: SlotModel, first: int, mid: int, end: int)
    requires
        first <= mid <= end,
    ensures
        m.bytes_of(first, end) == m.bytes_of(first, mid) + m.bytes_of(mid, end),
        m.bytes_of(first, first).len() == 0,
        m.bytes_of(first, first + 1) == data_of(m.shred_at(first)->0),
    decreases end - mid,
{
    reveal_with_fuel(SlotModel::bytes_of, 2);
    assert(m.bytes_of(first, first + 1) =~= data_of(m.shred_at(first)->0));
    if mid == end {
        assert(m.bytes_of(first, mid) + m.bytes_of(mid, end) =~= m.bytes_of(first, end));
    } else {
        law_bytes_of_a_run(m, first, mid, end - 1);
        assert(m.bytes_of(first, end) =~= m.bytes_of(first, mid) + m.bytes_of(mid, end));
    }
}

/// A segment says which shreds it was made from, holds all of their bytes, and ends
/// the slot if its last shred does.
pub proof fn law_segment(m: SlotModel, first: int, last: int)
    requires
        0 <= first <= last < 32768,
    ensures
        ({
            let segment = m.segment(first, last);
            &&& segment.shreds.start == first
            &&& segment.shreds.end == last
            &&& !segment.shreds.exhausted
            &&& segment.bytes == m.bytes_of(first, last) + data_of(m.shred_at(last)->0)
            &&& segment.last_in_slot <==> last_in_slot_of(m.shred_at(last)->0)
        }),
{
}

/// An index that completes runs gives the one that it is part of, and then the one
/// that starts right after it.
pub proof fn law_runs_in_order(m: SlotModel, index: int)
    requires
        0 <= index < 32768,
    ensures
        ({
            let segments = m.try_both(index).1;
            &&& segments.len() <= 2
            &&& forall|s: int|
                0 <= s < segments.len() ==> covers(#[trigger] segments[s], index) || covers(
                    segments[s],
                    index + 1,
                )
            &&& segments.len() == 2 ==> covers(segments[0], index) && covers(
                segments[1],
                index + 1,
            )
        }),
{
    let (next, segments) = m.try_complete(index);
    let (after, more) = next.try_complete(index + 1);
    if segments.len() > 0 {
        let (first, last) = m.run_of(index);
        assert(is_run(m.received, m.complete, first, last) && first <= index <= last);
        assert(covers(segments[0], index));
    }
    if more.len() > 0 {
        let (first, last) = next.run_of(index + 1);
        assert(is_run(next.received, next.complete, first, last) && first <= index + 1 <= last);
        assert(covers(more[0], index + 1));
    }
}

/// Runs are completed index by index, in the order of the indexes.
pub proof fn law_complete_in_steps(m: SlotModel, a: Seq<u32>, b: Seq<u32>)
    ensures
        ({
            let (mid, first) = m.complete_all(a);
            let (end, second) = mid.complete_all(b);
            &&& m.complete_all(a + b).0 == end
            &&& m.complete_all(a + b).1 == first + second
        }),
    decreases b.len(),
{
    let (mid, first) = m.complete_all(a);
    if b.len() == 0 {
        assert(a + b =~= a);
        assert(first + Seq::empty() =~= first);
    } else {
        assert((a + b).drop_last() =~= a + b.drop_last());
        law_complete_in_steps(m, a, b.drop_last());
        let (end, second) = mid.complete_all(b);
        assert(m.complete_all(a + b).1 =~= first + second);
    }
}

/// The counters but for those of what became of a shred and of recoveries.
pub open spec fn same_otherwise(a: Stats, b: Stats) -> bool {
    a == (Stats {
        duplicates: a.duplicates,
        unneeded: a.unneeded,
        rejected: a.rejected,
        recovered: a.recovered,
        recovery_failures: a.recovery_failures,
        ..b
    })
}

/// What became of a data shred: a duplicate where it is present or its set holds one
/// in its place, rejected where its set has another root or signature or its proof
/// leads nowhere, and otherwise taken and present. What it was counts once, and
/// nothing but a shred that was taken changes anything else.
pub proof fn law_fate_of_a_data_shred(m: SlotModel, b: Seq<u8>, recovery: bool, stats: Stats)
    requires
        m.valid(),
        valid_wire(b),
        kind_of(b) == ShredKind::Data,
    ensures
        ({
            let set = m.set(fec_set_index_of(b));
            let index = index_of(b) as int;
            let after = m.inserted(b, recovery, stats);
            let there = m.received.contains(index) || set.data[index - fec_set_index_of(b)] is Some;
            let differs = {
                ||| merkle_root_of(b) is None
                ||| set.root is Some && (merkle_root_of(b) != set.root || b.take(64)
                    != set.signature)
            };
            &&& same_otherwise(after.stats, stats)
            &&& after.stats.unneeded == stats.unneeded
            &&& after.stats.duplicates == counted(
                stats.duplicates,
                if there {
                    1
                } else {
                    0
                },
            )
            &&& after.stats.rejected == counted(
                stats.rejected,
                if !there && differs {
                    1
                } else {
                    0
                },
            )
            &&& there || differs ==> {
                &&& after.segments.len() == 0
                &&& after.slot.received == m.received
                &&& after.slot.complete == m.complete
                &&& after.slot.consumed == m.consumed
                &&& after.stats.recovered == stats.recovered
                &&& after.stats.recovery_failures == stats.recovery_failures
            }
            &&& !there && !differs ==> after.slot.received.contains(index)
        }),
{
    let k = fec_set_index_of(b);
    law_layout(b);
    lemma_set_is_valid(m, k);
    if m.set(k).insert_outcome(b) == Insert::New && !m.received.contains(index_of(b) as int) {
        lemma_taken_is_present(m, b, recovery, stats);
    }
}

/// What became of a code shred: not needed where all data shreds of its set were
/// emitted or are held, a duplicate where its set holds it, rejected where its set has
/// another root or signature or its proof leads nowhere, and otherwise taken. What it
/// was counts once, and nothing but a shred that was taken changes anything else.
pub proof fn law_fate_of_a_code_shred(m: SlotModel, b: Seq<u8>, recovery: bool, stats: Stats)
    requires
        m.valid(),
        valid_wire(b),
        kind_of(b) == ShredKind::Code,
    ensures
        ({
            let k = fec_set_index_of(b) as int;
            let set = m.set(fec_set_index_of(b));
            let after = m.inserted(b, recovery, stats);
            let done = {
                ||| set_int_range(k, k + 32).subset_of(m.consumed)
                ||| forall|p: int| 0 <= p < 32 ==> (#[trigger] set.data[p]) is Some
            };
            let there = set.code[erasure_index_of(b) - 32] is Some;
            let differs = {
                ||| merkle_root_of(b) is None
                ||| set.root is Some && (merkle_root_of(b) != set.root || b.take(64)
                    != set.signature)
            };
            &&& same_otherwise(after.stats, stats)
            &&& after.stats.unneeded == counted(
                stats.unneeded,
                if done {
                    1
                } else {
                    0
                },
            )
            &&& after.stats.duplicates == counted(
                stats.duplicates,
                if !done && there {
                    1
                } else {
                    0
                },
            )
            &&& after.stats.rejected == counted(
                stats.rejected,
                if !done && !there && differs {
                    1
                } else {
                    0
                },
            )
            &&& done || there || differs ==> {
                &&& after.segments.len() == 0
                &&& after.slot.received == m.received
                &&& after.slot.complete == m.complete
                &&& after.slot.consumed == m.consumed
                &&& after.stats.recovered == stats.recovered
                &&& after.stats.recovery_failures == stats.recovery_failures
            }
        }),
{
    let k = fec_set_index_of(b);
    law_layout(b);
    lemma_set_is_valid(m, k);
    law_half_is_enough(m.set(k));
    assert(all_consumed(m.consumed, k as int) <==> set_int_range(
        k as int,
        k + 32,
    ).subset_of(m.consumed)) by {
        if set_int_range(k as int, k + 32).subset_of(m.consumed) {
            assert forall|i: int| k <= i < k + 32 implies #[trigger] m.consumed.contains(i) by {
                assert(set_int_range(k as int, k + 32).contains(i));
            }
        }
    }
    if m.set(k).insert_outcome(b) == Insert::New && !all_consumed(m.consumed, k as int) {
        lemma_taken_is_present(m, b, recovery, stats);
    }
}

/// What is known of a FEC set is valid.
proof fn lemma_set_is_valid(m: SlotModel, k: u32)
    requires
        m.valid(),
    ensures
        m.set(k).valid(),
{
    crate::fec::lemma_empty_valid();
}

/// Whether the shred `b`, which is taken, runs a recovery that succeeds, and with it
/// the indexes of the data shreds that it recovers.
pub open spec fn recovers_these(m: SlotModel, b: Seq<u8>, recovery: bool) -> Seq<u32> {
    let set = m.set(fec_set_index_of(b)).inserted(b);
    if recovery && set.can_recover() {
        match set.recover_outcome() {
            Ok(indexes) => indexes,
            Err(_) => Seq::empty(),
        }
    } else {
        Seq::empty()
    }
}

proof fn lemma_taken_is_present(m: SlotModel, b: Seq<u8>, recovery: bool, stats: Stats)
    requires
        m.valid(),
        valid_wire(b),
        m.set(fec_set_index_of(b)).insert_outcome(b) == Insert::New,
        kind_of(b) == ShredKind::Data ==> !m.received.contains(index_of(b) as int),
        kind_of(b) == ShredKind::Code ==> !all_consumed(
            m.consumed,
            fec_set_index_of(b) as int,
        ),
    ensures
        ({
            let after = m.inserted(b, recovery, stats);
            let these = recovers_these(m, b, recovery);
            let set = m.set(fec_set_index_of(b)).inserted(b);
            let fresh = if kind_of(b) == ShredKind::Data {
                seq![index_of(b)]
            } else {
                Seq::empty()
            };
            &&& after.slot.received == m.received.union(index_set(fresh + these))
            &&& after.stats == (Stats {
                recovered: counted(stats.recovered, these.len()),
                recovery_failures: after.stats.recovery_failures,
                ..stats
            })
            &&& after.stats.recovery_failures == counted(
                stats.recovery_failures,
                if recovery && set.can_recover() && set.recover_outcome() is Err {
                    1
                } else {
                    0
                },
            )
            &&& kind_of(b) == ShredKind::Data ==> after.slot.received.contains(index_of(b) as int)
        }),
{
    let k = fec_set_index_of(b);
    let set = m.set(k).inserted(b);
    let these = recovers_these(m, b, recovery);
    let fresh = if kind_of(b) == ShredKind::Data {
        seq![index_of(b)]
    } else {
        Seq::empty()
    };
    let all = fresh + these;
    let kept = if recovery && set.can_recover() {
        set.recovered()
    } else {
        set
    };
    if these.len() == 0 {
        assert(all =~= fresh);
    }
    lemma_complete_all_frame(m.with_set(k, kept).marked(all), all);
    if kind_of(b) == ShredKind::Data {
        assert(all[0] == index_of(b));
        assert(index_set(all).contains(index_of(b) as int));
    }
}

/// A shred that is taken makes its own index present, if it is a data shred, and those
/// of the data shreds that are recovered with it, and no other. Each one recovered is
/// counted, and so is a recovery that fails.
pub proof fn law_what_becomes_present(
    m: SlotModel,
    b: Seq<u8>,
    recovery: bool,
    stats: Stats,
    i: int,
)
    requires
        m.valid(),
        valid_wire(b),
        m.set(fec_set_index_of(b)).insert_outcome(b) == Insert::New,
        kind_of(b) == ShredKind::Data ==> !m.received.contains(index_of(b) as int),
        kind_of(b) == ShredKind::Code ==> !all_consumed(
            m.consumed,
            fec_set_index_of(b) as int,
        ),
    ensures
        ({
            let after = m.inserted(b, recovery, stats);
            let these = recovers_these(m, b, recovery);
            &&& after.slot.received.contains(i) <==> m.received.contains(i) || (kind_of(b)
                == ShredKind::Data && i == index_of(b)) || (0 <= i <= u32::MAX && these.contains(
                i as u32,
            ))
            &&& after.stats.recovered == counted(stats.recovered, these.len())
            &&& !recovery ==> after.stats == stats
        }),
{
    lemma_taken_is_present(m, b, recovery, stats);
    let these = recovers_these(m, b, recovery);
    let fresh = if kind_of(b) == ShredKind::Data {
        seq![index_of(b)]
    } else {
        Seq::empty()
    };
    let all = fresh + these;
    if index_set(all).contains(i) {
        let j = choose|j: int| 0 <= j < all.len() && #[trigger] all[j] == i;
        if j >= fresh.len() {
            assert(these[j - fresh.len()] == i);
        }
    }
    if 0 <= i <= u32::MAX && these.contains(i as u32) {
        let j = choose|j: int| 0 <= j < these.len() && these[j] == i as u32;
        assert(all[fresh.len() + j] == i);
    }
}

/// An index ends a batch from when it is present, if its shred says so.
pub proof fn law_ends_of_batches(m: SlotModel, fresh: Seq<u32>, i: int)
    ensures
        ({
            let next = m.marked(fresh).complete_all(fresh).0;
            let is_fresh = 0 <= i <= u32::MAX && fresh.contains(i as u32);
            &&& next.received.contains(i) <==> m.received.contains(i) || is_fresh
            &&& next.complete.contains(i) <==> m.complete.contains(i) || (is_fresh
                && data_complete_of(m.shred_at(i)->0))
        }),
{
    lemma_complete_all_frame(m.marked(fresh), fresh);
    if index_set(fresh).contains(i) {
        let j = choose|j: int| 0 <= j < fresh.len() && #[trigger] fresh[j] == i;
        assert(fresh.contains(i as u32));
    }
    if 0 <= i <= u32::MAX && fresh.contains(i as u32) {
        let j = choose|j: int| 0 <= j < fresh.len() && fresh[j] == i as u32;
        assert(fresh[j] == i);
    }
}

} // verus!

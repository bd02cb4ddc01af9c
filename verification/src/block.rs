//! What comes out of the shreds of a block, whatever of them arrives and in whatever
//! order: the entry batches that its leader put in, each once.

use crate::fec::{
    belongs, index_in_set, law_recovery_adds, law_same_up_to_proof, lemma_all_taken,
    lemma_empty_valid, lemma_inserted, lemma_missing_named, lemma_none_taken,
    lemma_num_shreds_bound, lemma_num_true_add, lemma_template, num_true, part_of,
    same_up_to_proof, taken, whole_set, FecModel, Insert,
};
use crate::history::{
    fails, fresh_with, history, joined, lemma_fresh_arrived, lemma_step_frame, lemma_step_received,
    rejects, set_after, takes,
};
use crate::shred::{
    data_complete_of, data_of, erasure_index_of, fec_set_index_of, index_of, kind_of,
    last_in_slot_of, law_layout, lemma_indexes, merkle_root_of, signature_of, valid_wire,
    MAX_SHREDS_PER_SLOT, ShredKind,
};
use crate::slot::{
    all_consumed, covers, emits, index_set, indexes, is_run, law_run_unique, lemma_arrived,
    lemma_complete_all, lemma_emits_join, lemma_marked, lemma_set_ready, lemma_try_complete,
    lemma_try_complete_frame, lemma_with_set, lemma_without_run, restores, set_of, step,
    SegmentModel, SlotModel,
};
use crate::stats::Stats;
use vstd::prelude::*;

verus! {

/// Whether two data shreds give the same to a segment: entry bytes and flags.
pub open spec fn carries_same(a: Seq<u8>, b: Seq<u8>) -> bool {
    &&& data_of(a) == data_of(b)
    &&& data_complete_of(a) == data_complete_of(b)
    &&& last_in_slot_of(a) == last_in_slot_of(b)
}

/// Whether all data shreds of FEC set `k` are those of `block`, which has the data
/// shreds of a slot by index.
pub open spec fn set_of_block(set: FecModel, k: u32, block: Map<int, Seq<u8>>) -> bool {
    forall|p: int|
        0 <= p < 32 && (#[trigger] set.data[p]) is Some ==> block.contains_key(k + p)
            && carries_same(set.data[p]->0, block[k + p])
}

/// Whether all data shreds held for a slot are those of `block`.
pub open spec fn of_block(m: SlotModel, block: Map<int, Seq<u8>>) -> bool {
    forall|k: u32| #[trigger] m.sets.contains_key(k) ==> set_of_block(m.sets[k], k, block)
}

/// Entry bytes of the data shreds of `block` from `first` up to, not including,
/// `end`.
pub open spec fn block_bytes(block: Map<int, Seq<u8>>, first: int, end: int) -> Seq<u8>
    decreases end - first,
{
    if end <= first {
        Seq::empty()
    } else {
        block_bytes(block, first, end - 1) + data_of(block[end - 1])
    }
}

/// Whether a segment is the part of `block` that its range says.
pub open spec fn part_of_block(segment: SegmentModel, block: Map<int, Seq<u8>>) -> bool {
    &&& segment.bytes == block_bytes(
        block,
        segment.shreds.start as int,
        segment.shreds.end + 1,
    )
    &&& segment.last_in_slot == last_in_slot_of(block[segment.shreds.end as int])
}

/// Whether every segment is a part of `block`.
pub open spec fn parts_of_block(
    segments: Seq<SegmentModel>,
    block: Map<int, Seq<u8>>,
) -> bool {
    forall|s: int| 0 <= s < segments.len() ==> part_of_block(#[trigger] segments[s], block)
}

/// The entry bytes of shreds of a block are those of the block.
proof fn lemma_bytes_of_block(m: SlotModel, block: Map<int, Seq<u8>>, first: int, end: int)
    requires
        of_block(m, block),
        0 <= first,
        end <= MAX_SHREDS_PER_SLOT,
        forall|i: int|
            first <= i < end ==> m.sets.contains_key(#[trigger] set_of(i) as u32) && m.shred_at(
                i,
            ) is Some,
    ensures
        m.bytes_of(first, end) == block_bytes(block, first, end),
        first < end ==> last_in_slot_of(m.shred_at(end - 1)->0) == last_in_slot_of(block[end - 1]),
    decreases end - first,
{
    if first < end {
        lemma_bytes_of_block(m, block, first, end - 1);
        let i = end - 1;
        let k = set_of(i) as u32;
        assert(m.sets.contains_key(set_of(i) as u32));
        assert(set_of_block(m.sets[k], k, block));
        assert(m.sets[k].data[i % 32] is Some);
        assert(k + i % 32 == i);
    }
}

/// Trying an index emits parts of the block only.
proof fn lemma_try_complete_block(m: SlotModel, index: int, block: Map<int, Seq<u8>>)
    requires
        m.coherent(),
        of_block(m, block),
    ensures
        of_block(m.try_complete(index).0, block),
        forall|s: int|
            0 <= s < m.try_complete(index).1.len() ==> part_of_block(
                #[trigger] m.try_complete(index).1[s],
                block,
            ),
{
    lemma_try_complete_frame(m, index);
    if !m.consumed.contains(index) && m.in_run(index) {
        let (first, last) = m.run_of(index);
        lemma_without_run(m, first, last, index);
        assert forall|i: int| first <= i < last + 1 implies m.sets.contains_key(
            #[trigger] set_of(i) as u32,
        ) && m.shred_at(i) is Some by {
            assert(m.received.contains(i));
        }
        lemma_bytes_of_block(m, block, first, last + 1);
    }
}

/// Completing runs emits parts of the block only.
proof fn lemma_complete_all_block(m: SlotModel, fresh: Seq<u32>, block: Map<int, Seq<u8>>)
    requires
        m.coherent(),
        of_block(m, block),
    ensures
        of_block(m.complete_all(fresh).0, block),
        forall|s: int|
            0 <= s < m.complete_all(fresh).1.len() ==> part_of_block(
                #[trigger] m.complete_all(fresh).1[s],
                block,
            ),
    decreases fresh.len(),
{
    if fresh.len() > 0 {
        let front = fresh.drop_last();
        lemma_complete_all_block(m, front, block);
        lemma_complete_all(m, front);
        let (next, segments) = m.complete_all(front);
        let i = fresh.last() as int;
        lemma_try_complete_block(next, i, block);
        lemma_try_complete(next, i);
        let (mid, first) = next.try_complete(i);
        lemma_try_complete_block(mid, i + 1, block);
        let (after, more) = next.try_both(i);
        let second = mid.try_complete(i + 1).1;
        assert forall|s: int| 0 <= s < more.len() implies part_of_block(
            #[trigger] more[s],
            block,
        ) by {
            if s < first.len() {
                assert(more[s] == first[s]);
            } else {
                assert(more[s] == second[s - first.len()]);
            }
        }
        let all = m.complete_all(fresh).1;
        assert forall|s: int| 0 <= s < all.len() implies part_of_block(
            #[trigger] all[s],
            block,
        ) by {
            if s < segments.len() {
                assert(all[s] == segments[s]);
            } else {
                assert(all[s] == more[s - segments.len()]);
            }
        }
    }
}

/// While the data shreds that arrive or are recovered are those of one block, every
/// segment that comes out is the part of the block that its range says, whatever the
/// order, loss or repetition of shreds.
pub proof fn law_segments_are_parts_of_the_block(
    m: SlotModel,
    b: Seq<u8>,
    recovery: bool,
    stats: Stats,
    block: Map<int, Seq<u8>>,
)
    requires
        m.valid(),
        of_block(m, block),
        valid_wire(b),
        ({
            let k = fec_set_index_of(b);
            let held = m.set(k).inserted(b);
            &&& set_of_block(held, k, block)
            &&& m.recovers(b, recovery) ==> held.recovered().valid() && set_of_block(
                held.recovered(),
                k,
                block,
            )
        }),
    ensures
        of_block(m.inserted(b, recovery, stats).slot, block),
        forall|s: int|
            0 <= s < m.inserted(b, recovery, stats).segments.len() ==> part_of_block(
                #[trigger] m.inserted(b, recovery, stats).segments[s],
                block,
            ),
{
    let k = fec_set_index_of(b);
    let is_data = kind_of(b) == ShredKind::Data;
    let index = index_of(b) as int;
    let early = if is_data {
        m.received.contains(index)
    } else {
        all_consumed(m.consumed, k as int)
    };
    if !early {
        lemma_set_ready(m, b);
        let set = m.set(k);
        let held = set.inserted(b);
        if set.insert_outcome(b) == Insert::New {
            let fresh = if is_data {
                seq![index_of(b)]
            } else {
                Seq::empty()
            };
            let tried = recovery && held.can_recover();
            let after = if tried {
                held.recovered()
            } else {
                held
            };
            let all = match held.recover_outcome() {
                Ok(recovered) => if tried {
                    fresh + recovered
                } else {
                    fresh
                },
                Err(_) => fresh,
            };
            if tried {
                law_recovery_adds(held, k);
            }
            lemma_with_set(m, k, after);
            lemma_arrived(m, k, after, all);
            lemma_marked(m.with_set(k, after), all);
            let marked = m.with_set(k, after).marked(all);
            assert(of_block(marked, block));
            lemma_complete_all_block(marked, all, block);
        }
    }
}

/// Whether `whole` is a whole FEC set, the one at `k` of `block`.
pub open spec fn whole_of_block(
    whole: Seq<Seq<u8>>,
    k: u32,
    block: Map<int, Seq<u8>>,
) -> bool {
    &&& whole_set(whole)
    &&& forall|p: int|
        0 <= p < 32 ==> block.contains_key(k + p) && block[k + p] == #[trigger] whole[p]
}

/// Shreds that are those of a whole set of a block, but for their proofs, carry
/// what those of the block carry.
proof fn lemma_set_of_block(
    set: FecModel,
    whole: Seq<Seq<u8>>,
    k: u32,
    block: Map<int, Seq<u8>>,
)
    requires
        whole_of_block(whole, k, block),
        forall|p: int|
            0 <= p < 32 && (#[trigger] set.data[p]) is Some ==> same_up_to_proof(
                set.data[p]->0,
                whole[p],
            ),
    ensures
        set_of_block(set, k, block),
{
    assert forall|p: int| 0 <= p < 32 && (#[trigger] set.data[p]) is Some implies
        block.contains_key(k + p) && carries_same(set.data[p]->0, block[k + p]) by {
        assert(belongs(whole[p], ShredKind::Data, p));
        law_same_up_to_proof(set.data[p]->0, whole[p]);
        assert(block[k + p] == whole[p]);
    }
}

/// Whether all 64 shreds of a whole FEC set lead to one Merkle root.
pub open spec fn rooted(whole: Seq<Seq<u8>>) -> bool {
    &&& merkle_root_of(whole[0]) is Some
    &&& forall|j: int|
        0 <= j < 64 ==> merkle_root_of(#[trigger] whole[j]) == merkle_root_of(whole[0])
}

/// Whether these are the whole FEC sets of a block by first index, as its leader made
/// them.
pub open spec fn is_block(sets: Map<u32, Seq<Seq<u8>>>) -> bool {
    forall|k: u32| #[trigger]
        sets.contains_key(k) ==> {
            &&& whole_set(sets[k])
            &&& rooted(sets[k])
            &&& fec_set_index_of(sets[k][0]) == k
        }
}

/// The data shreds of a block by index.
pub open spec fn data_shreds(sets: Map<u32, Seq<Seq<u8>>>) -> Map<int, Seq<u8>> {
    Map::new(
        |i: int| 0 <= i < MAX_SHREDS_PER_SLOT && sets.contains_key(set_of(i) as u32),
        |i: int| sets[set_of(i) as u32][i % 32],
    )
}

/// Whether `b` is a shred of the block.
pub open spec fn in_block(b: Seq<u8>, sets: Map<u32, Seq<Seq<u8>>>) -> bool {
    let k = fec_set_index_of(b);
    sets.contains_key(k) && sets[k].contains(b)
}

/// Whether the shred `b` is one of the block, or is turned away: what was altered on the
/// way does not lead to the Merkle root of its FEC set.
pub open spec fn fits(m: SlotModel, b: Seq<u8>, sets: Map<u32, Seq<Seq<u8>>>) -> bool {
    in_block(b, sets) || !takes(m, b)
}

/// Whether all data shreds of FEC set `k` are present.
pub open spec fn has_all(m: SlotModel, k: u32) -> bool {
    forall|i: int| k <= i < k + 32 ==> #[trigger] m.received.contains(i)
}

/// Which shreds of a whole FEC set are among `shreds`.
pub open spec fn arrived_of(whole: Seq<Seq<u8>>, shreds: Seq<Seq<u8>>) -> Seq<bool> {
    Seq::new(64, |j: int| shreds.contains(whole[j]))
}

/// Whether FEC set `k` holds those shreds of `whole` that are among `shreds`, and these
/// are too few to have its data.
pub open spec fn gathering(
    m: SlotModel,
    k: u32,
    whole: Seq<Seq<u8>>,
    shreds: Seq<Seq<u8>>,
) -> bool {
    let set = m.set(k);
    &&& part_of(set, whole)
    &&& taken(set.data) + taken(set.code) == arrived_of(whole, shreds)
    &&& !set.can_recover()
    &&& forall|p: int|
        0 <= p < 32 && (#[trigger] set.data[p]) is Some ==> m.received.contains(k + p)
    &&& set.root is Some ==> set.root == merkle_root_of(whole[0]) && set.signature == signature_of(
        whole[0],
    )
}

/// How far FEC set `k` has come with the shreds of `whole` among `shreds`: it has all
/// its data, and half of the shreds have arrived, or it goes on gathering.
#[verifier::opaque]
pub open spec fn progress(
    m: SlotModel,
    k: u32,
    whole: Seq<Seq<u8>>,
    shreds: Seq<Seq<u8>>,
) -> bool {
    if has_all(m, k) {
        num_true(arrived_of(whole, shreds)) >= 32
    } else {
        gathering(m, k, whole, shreds)
    }
}

/// More marks, more of them set.
pub proof fn lemma_num_true_grows(a: Seq<bool>, b: Seq<bool>)
    requires
        a.len() == b.len(),
        forall|j: int| 0 <= j < a.len() && a[j] ==> b[j],
    ensures
        num_true(a) <= num_true(b),
    decreases a.len(),
{
    if a.len() > 0 {
        lemma_num_true_grows(a.drop_last(), b.drop_last());
    }
}

/// One more shred, and as many of a whole set have arrived or more.
proof fn lemma_arrived_grows(whole: Seq<Seq<u8>>, shreds: Seq<Seq<u8>>, b: Seq<u8>)
    ensures
        num_true(arrived_of(whole, shreds)) <= num_true(arrived_of(whole, shreds.push(b))),
{
    let before = arrived_of(whole, shreds);
    let after = arrived_of(whole, shreds.push(b));
    assert forall|j: int| 0 <= j < before.len() && before[j] implies after[j] by {
        lemma_push_contains(shreds, b, whole[j]);
    }
    lemma_num_true_grows(before, after);
}

/// What was emitted is present.
proof fn lemma_consumed_has_all(m: SlotModel, k: u32)
    requires
        m.valid(),
        all_consumed(m.consumed, k as int),
    ensures
        has_all(m, k),
{
    assert forall|i: int| k <= i < k + 32 implies #[trigger] m.received.contains(i) by {
        assert(m.consumed.contains(i));
        assert(m.in_run(i));
        let (first, last) = m.run_of(i);
    }
}

/// One more shred.
pub proof fn lemma_push_contains(shreds: Seq<Seq<u8>>, b: Seq<u8>, x: Seq<u8>)
    ensures
        shreds.push(b).contains(x) <==> shreds.contains(x) || x == b,
{
    let more = shreds.push(b);
    if shreds.contains(x) {
        let i = choose|i: int| 0 <= i < shreds.len() && shreds[i] == x;
        assert(more[i] == x);
    }
    if x == b {
        assert(more[shreds.len() as int] == x);
    }
    if more.contains(x) && x != b {
        let i = choose|i: int| 0 <= i < more.len() && more[i] == x;
        assert(shreds[i] == x);
    }
}

/// A shred of another FEC set makes no data shred of a set present.
proof fn lemma_other_has_all(
    m: SlotModel,
    b: Seq<u8>,
    next: SlotModel,
    segments: Seq<SegmentModel>,
    k: u32,
)
    requires
        step(m, b, true, next, segments),
        k % 32 == 0,
        fec_set_index_of(b) != k,
    ensures
        has_all(m, k) == has_all(next, k),
        forall|i: int|
            k <= i < k + 32 ==> #[trigger] m.received.contains(i) == next.received.contains(i),
{
    lemma_step_received(m, b, true, next, segments);
    lemma_indexes(b);
    assert forall|i: int| k <= i < k + 32 implies #[trigger] m.received.contains(i)
        == next.received.contains(i) by {
        if next.received.contains(i) && !m.received.contains(i) {
            assert(fec_set_index_of(b) <= i < fec_set_index_of(b) + 32);
        }
    }
    if has_all(m, k) {
        assert forall|i: int| k <= i < k + 32 implies #[trigger] next.received.contains(i) by {
            assert(m.received.contains(i));
        }
    }
    if has_all(next, k) {
        assert forall|i: int| k <= i < k + 32 implies #[trigger] m.received.contains(i) by {
            assert(next.received.contains(i));
        }
    }
}

/// A shred of another FEC set leaves a set as it is.
proof fn lemma_gather_other(
    m: SlotModel,
    b: Seq<u8>,
    next: SlotModel,
    segments: Seq<SegmentModel>,
    k: u32,
    whole: Seq<Seq<u8>>,
    shreds: Seq<Seq<u8>>,
)
    requires
        step(m, b, true, next, segments),
        whole_set(whole),
        fec_set_index_of(whole[0]) == k,
        fec_set_index_of(b) != k,
        progress(m, k, whole, shreds),
    ensures
        progress(next, k, whole, shreds.push(b)),
{
    reveal(progress);
    lemma_indexes(whole[0]);
    lemma_other_has_all(m, b, next, segments, k);
    lemma_arrived_grows(whole, shreds, b);
    if !has_all(m, k) {
        lemma_step_frame(m, b, true, next, segments);
        assert(next.set(k) == m.set(k)) by {
            if next.set(k) != m.set(k) {
                lemma_consumed_has_all(next, k);
            }
        }
        assert forall|j: int| 0 <= j < 64 implies shreds.push(b).contains(#[trigger] whole[j])
            == shreds.contains(whole[j]) by {
            lemma_push_contains(shreds, b, whole[j]);
            assert(fec_set_index_of(whole[j]) == k);
        }
        assert(arrived_of(whole, shreds.push(b)) =~= arrived_of(whole, shreds));
        let set = m.set(k);
        assert forall|p: int| 0 <= p < 32 && (#[trigger] set.data[p]) is Some implies
            next.received.contains(k + p) by {
            assert(m.received.contains(k + p));
        }
    }
}

/// A shred that the FEC set does not take was there before, or the set is done.
proof fn lemma_gather_again(
    m: SlotModel,
    b: Seq<u8>,
    k: u32,
    whole: Seq<Seq<u8>>,
    shreds: Seq<Seq<u8>>,
)
    requires
        m.valid(),
        valid_wire(b),
        whole_set(whole),
        rooted(whole),
        fec_set_index_of(b) == k,
        whole.contains(b),
        !takes(m, b),
        gathering(m, k, whole, shreds),
    ensures
        has_all(m, k) || gathering(m, k, whole, shreds.push(b)),
{
    let set = m.set(k);
    let q = choose|j: int| 0 <= j < 64 && whole[j] == b;
    lemma_not_taken(m, b, k, whole, q, shreds);
    if !has_all(m, k) {
        assert((taken(set.data) + taken(set.code))[q]);
        assert(arrived_of(whole, shreds)[q]);
        assert forall|j: int| 0 <= j < 64 implies shreds.push(b).contains(#[trigger] whole[j])
            == shreds.contains(whole[j]) by {
            lemma_push_contains(shreds, b, whole[j]);
        }
        assert(arrived_of(whole, shreds.push(b)) =~= arrived_of(whole, shreds));
    }
}

/// Where a set does not take a shred of its own that is not there, it is done.
#[verifier::spinoff_prover]
#[verifier::rlimit(40)]
proof fn lemma_not_taken(
    m: SlotModel,
    b: Seq<u8>,
    k: u32,
    whole: Seq<Seq<u8>>,
    q: int,
    shreds: Seq<Seq<u8>>,
)
    requires
        m.valid(),
        valid_wire(b),
        whole_set(whole),
        rooted(whole),
        0 <= q < 64,
        whole[q] == b,
        fec_set_index_of(b) == k,
        !takes(m, b),
        gathering(m, k, whole, shreds),
    ensures
        has_all(m, k) || m.set(k).at(b) is Some,
        q < 32 ==> m.set(k).at(b) == m.set(k).data[q],
        q >= 32 ==> m.set(k).at(b) == m.set(k).code[q - 32],
{
    let set = m.set(k);
    assert(belongs(
        whole[q],
        if q < 32 {
            ShredKind::Data
        } else {
            ShredKind::Code
        },
        q,
    ));
    assert(merkle_root_of(whole[q]) == merkle_root_of(whole[0]));
    assert(signature_of(whole[q]) == signature_of(whole[0]));
    if all_consumed(m.consumed, k as int) {
        lemma_consumed_has_all(m, k);
    } else if set.is_complete() {
        lemma_complete_has_all(m, k, whole, shreds);
    } else if q < 32 && m.received.contains(index_of(b) as int) {
        let i = index_of(b) as int;
        lemma_indexes(b);
        assert(set_of(i) == k && i % 32 == q);
        assert(m.shred_at(i) == set.data[q]);
    }
}

/// A set that has all its data is done.
proof fn lemma_complete_has_all(
    m: SlotModel,
    k: u32,
    whole: Seq<Seq<u8>>,
    shreds: Seq<Seq<u8>>,
)
    requires
        m.valid(),
        gathering(m, k, whole, shreds),
        m.set(k).is_complete(),
    ensures
        has_all(m, k),
{
    lemma_empty_valid();
    lemma_num_shreds_bound(m.set(k).data);
    assert forall|i: int| k <= i < k + 32 implies #[trigger] m.received.contains(i) by {
        assert(m.set(k).data[i - k] is Some);
        assert(m.received.contains(k + (i - k)));
    }
}

/// A set that takes a shred of its own holds that one, too.
proof fn lemma_held(
    m: SlotModel,
    b: Seq<u8>,
    k: u32,
    whole: Seq<Seq<u8>>,
    q: int,
    shreds: Seq<Seq<u8>>,
)
    requires
        m.valid(),
        valid_wire(b),
        whole_set(whole),
        rooted(whole),
        0 <= q < 64,
        whole[q] == b,
        fec_set_index_of(b) == k,
        takes(m, b),
        gathering(m, k, whole, shreds),
    ensures
        ({
            let held = m.set(k).inserted(b);
            &&& held.valid()
            &&& held.root == merkle_root_of(whole[0])
            &&& held.signature == signature_of(whole[0])
            &&& part_of(held, whole)
            &&& forall|p: int|
                0 <= p < 32 && (#[trigger] held.data[p]) is Some ==> p == q || m.received.contains(
                    k + p,
                )
            &&& !held.is_complete() ==> taken(held.data) + taken(held.code) == arrived_of(
                whole,
                shreds.push(b),
            )
            &&& held.num_data() + held.num_code() > 0
        }),
{
    let set = m.set(k);
    let held = set.inserted(b);
    lemma_empty_valid();
    lemma_inserted(set, b);
    assert(belongs(
        whole[q],
        if q < 32 {
            ShredKind::Data
        } else {
            ShredKind::Code
        },
        q,
    ));
    assert(merkle_root_of(whole[q]) == merkle_root_of(whole[0]));
    assert(signature_of(whole[q]) == signature_of(whole[0]));
    assert forall|p: int| 0 <= p < 32 && (#[trigger] held.data[p]) is Some implies held.data[p]
        == Some(whole[p]) && (p == q || m.received.contains(k + p)) by {
        if p != q {
            assert(set.data[p] is Some);
        }
    }
    assert forall|p: int| 0 <= p < 32 && (#[trigger] held.code[p]) is Some implies held.code[p]
        == Some(whole[32 + p]) by {
        if 32 + p != q {
            assert(set.code[p] is Some);
        }
    }
    if !held.is_complete() {
        let before = taken(set.data) + taken(set.code);
        let after = taken(held.data) + taken(held.code);
        assert(before == arrived_of(whole, shreds));
        assert forall|j: int| 0 <= j < 64 implies after[j] == arrived_of(
            whole,
            shreds.push(b),
        )[j] by {
            lemma_push_contains(shreds, b, whole[j]);
            assert(before[j] == arrived_of(whole, shreds)[j]);
            if j != q {
                assert(whole[j] != b) by {
                    assert(belongs(
                        whole[j],
                        if j < 32 {
                            ShredKind::Data
                        } else {
                            ShredKind::Code
                        },
                        j,
                    ));
                }
            }
        }
        assert(after =~= arrived_of(whole, shreds.push(b)));
    }
}

/// Recovery makes all data shreds of a set available that were not present before.
#[verifier::spinoff_prover]
#[verifier::rlimit(40)]
proof fn lemma_recovered_has_all(
    m: SlotModel,
    b: Seq<u8>,
    k: u32,
    whole: Seq<Seq<u8>>,
    q: int,
    shreds: Seq<Seq<u8>>,
)
    requires
        m.valid(),
        valid_wire(b),
        whole_set(whole),
        rooted(whole),
        0 <= q < 64,
        whole[q] == b,
        fec_set_index_of(b) == k,
        takes(m, b),
        gathering(m, k, whole, shreds),
        m.set(k).inserted(b).can_recover(),
        restores(m.set(k).inserted(b)),
    ensures
        forall|i: int|
            k <= i < k + 32 ==> #[trigger] m.received.contains(i) || index_set(
                fresh_with(m, b, true),
            ).contains(i),
{
    let held = m.set(k).inserted(b);
    lemma_held(m, b, k, whole, q, shreds);
    reveal(restores);
    let recovered = held.recover_outcome()->Ok_0;
    let fresh = fresh_with(m, b, true);
    lemma_template(held);
    let t = held.template();
    assert(fec_set_index_of(t) == k) by {
        if exists|p: int| 0 <= p < 32 && held.code[p] == Some(t) {
            let p = choose|p: int| 0 <= p < 32 && held.code[p] == Some(t);
            assert(t == whole[32 + p]);
        } else {
            let p = choose|p: int| 0 <= p < 32 && held.data[p] == Some(t);
            assert(t == whole[p]);
        }
        assert(fec_set_index_of(whole[q]) == fec_set_index_of(whole[0]));
    }
    lemma_indexes(b);
    assert(belongs(
        whole[31],
        ShredKind::Data,
        31,
    ));
    lemma_indexes(whole[31]);
    assert(fec_set_index_of(whole[31]) == k) by {
        assert(fec_set_index_of(whole[q]) == fec_set_index_of(whole[0]));
    }
    assert forall|i: int| k <= i < k + 32 implies #[trigger] m.received.contains(i) || index_set(
        fresh,
    ).contains(i) by {
        let p = i - k;
        if held.data[p] is None {
            lemma_missing_named(held, 32, p);
            let j = choose|j: int|
                0 <= j < recovered.len() && recovered[j] == index_in_set(t, p);
            let own = fresh.len() - recovered.len();
            assert(fresh[own + j] == recovered[j]);
            assert(fresh[own + j] == i);
        } else if p == q {
            assert(belongs(whole[q], ShredKind::Data, q));
            assert(fresh[0] == index_of(b));
            assert(fresh[0] == i);
        } else {
            assert(m.received.contains(k + p));
        }
    }
}

/// A set whose data shreds have all arrived has half of its shreds.
proof fn lemma_all_data_is_half(held: FecModel, whole: Seq<Seq<u8>>, shreds: Seq<Seq<u8>>)
    requires
        held.data.len() == 32,
        held.is_complete(),
        forall|p: int| 0 <= p < 32 ==> shreds.contains(#[trigger] whole[p]),
    ensures
        num_true(arrived_of(whole, shreds)) >= 32,
{
    let marks = arrived_of(whole, shreds);
    let data = taken(held.data);
    lemma_num_true_add(marks.take(32), marks.skip(32));
    assert(marks.take(32) + marks.skip(32) =~= marks);
    lemma_num_true_grows(data, marks.take(32));
}

/// A set that has all its data without recovery holds all of it.
#[verifier::spinoff_prover]
#[verifier::rlimit(40)]
proof fn lemma_held_all(
    m: SlotModel,
    b: Seq<u8>,
    next: SlotModel,
    k: u32,
    q: int,
)
    requires
        m.valid(),
        valid_wire(b),
        fec_set_index_of(b) == k,
        k % 32 == 0,
        takes(m, b),
        !has_all(m, k),
        !m.set(k).inserted(b).can_recover(),
        next.received == m.received.union(index_set(fresh_with(m, b, true))),
        has_all(next, k),
    ensures
        m.set(k).inserted(b).is_complete(),
{
    let set = m.set(k);
    let held = set.inserted(b);
    let fresh = fresh_with(m, b, true);
    law_layout(b);
    lemma_indexes(b);
    lemma_set_ready(m, b);
    assert forall|p: int| 0 <= p < 32 implies (#[trigger] held.data[p]) is Some by {
        let i = k + p;
        assert(next.received.contains(i));
        assert(set_of(i) == k && i % 32 == p);
        if m.received.contains(i) {
            assert(m.shred_at(i) == set.data[p]);
            assert(set.data[p] is Some);
        } else {
            assert(index_set(fresh).contains(i));
            let j = choose|j: int| 0 <= j < fresh.len() && #[trigger] fresh[j] == i;
            assert(fresh.len() == 1 && fresh[0] == index_of(b));
        }
    }
    lemma_all_taken(held.data);
}

/// A set that takes a shred of its own goes on gathering, or is done.
#[verifier::rlimit(40)]
proof fn lemma_gather_taken(
    m: SlotModel,
    b: Seq<u8>,
    next: SlotModel,
    k: u32,
    whole: Seq<Seq<u8>>,
    q: int,
    shreds: Seq<Seq<u8>>,
)
    requires
        m.valid(),
        next.valid(),
        valid_wire(b),
        whole_set(whole),
        rooted(whole),
        0 <= q < 64,
        whole[q] == b,
        fec_set_index_of(b) == k,
        takes(m, b),
        !has_all(m, k),
        gathering(m, k, whole, shreds),
        m.set(k).inserted(b).can_recover() ==> restores(m.set(k).inserted(b)),
        next.received == m.received.union(index_set(fresh_with(m, b, true))),
        next.set(k) == set_after(m, b, true) || all_consumed(next.consumed, k as int),
    ensures
        progress(next, k, whole, shreds.push(b)),
{
    reveal(progress);
    let held = m.set(k).inserted(b);
    let fresh = fresh_with(m, b, true);
    lemma_held(m, b, k, whole, q, shreds);
    lemma_indexes(b);
    if held.can_recover() {
        lemma_recovered_has_all(m, b, k, whole, q, shreds);
        assert(has_all(next, k)) by {
            assert forall|i: int| k <= i < k + 32 implies #[trigger] next.received.contains(i) by {
                assert(m.received.contains(i) || index_set(fresh).contains(i));
            }
        }
        lemma_num_true_add(taken(held.data), taken(held.code));
    } else {
        assert forall|p: int| 0 <= p < 32 && (#[trigger] held.data[p]) is Some implies
            next.received.contains(k + p) by {
            if p == q {
                assert(belongs(whole[q], ShredKind::Data, q));
                assert(fresh[0] == k + p);
                assert(index_set(fresh).contains(k + p));
            } else {
                assert(m.received.contains(k + p));
            }
        }
        if has_all(next, k) {
            lemma_held_all(m, b, next, k, q);
            lemma_num_shreds_bound(held.data);
            assert forall|p: int| 0 <= p < 32 implies shreds.push(b).contains(
                #[trigger] whole[p],
            ) by {
                lemma_push_contains(shreds, b, whole[p]);
                assert(held.data[p] is Some);
                if p != q {
                    lemma_data_arrived(m, b, k, whole, q, shreds, p);
                }
            }
            lemma_all_data_is_half(held, whole, shreds.push(b));
        } else {
            if held.is_complete() {
                lemma_num_shreds_bound(held.data);
                assert forall|i: int| k <= i < k + 32 implies
                    #[trigger] next.received.contains(i) by {
                    assert(held.data[i - k] is Some);
                    assert(next.received.contains(k + (i - k)));
                }
            }
            if all_consumed(next.consumed, k as int) {
                lemma_consumed_has_all(next, k);
            }
        }
    }
}

/// A data shred that a set holds has arrived.
proof fn lemma_data_arrived(
    m: SlotModel,
    b: Seq<u8>,
    k: u32,
    whole: Seq<Seq<u8>>,
    q: int,
    shreds: Seq<Seq<u8>>,
    p: int,
)
    requires
        m.valid(),
        valid_wire(b),
        whole_set(whole),
        0 <= q < 64,
        whole[q] == b,
        fec_set_index_of(b) == k,
        takes(m, b),
        gathering(m, k, whole, shreds),
        0 <= p < 32,
        p != q,
        m.set(k).inserted(b).data[p] is Some,
    ensures
        shreds.contains(whole[p]),
{
    let set = m.set(k);
    lemma_empty_valid();
    law_layout(b);
    assert(belongs(
        whole[q],
        if q < 32 {
            ShredKind::Data
        } else {
            ShredKind::Code
        },
        q,
    ));
    assert(set.data[p] is Some);
    assert((taken(set.data) + taken(set.code))[p]);
    assert(arrived_of(whole, shreds)[p]);
}

/// A shred of the block brings each of its FEC sets on.
proof fn lemma_gather(
    m: SlotModel,
    b: Seq<u8>,
    next: SlotModel,
    segments: Seq<SegmentModel>,
    k: u32,
    whole: Seq<Seq<u8>>,
    shreds: Seq<Seq<u8>>,
)
    requires
        step(m, b, true, next, segments),
        whole_set(whole),
        rooted(whole),
        fec_set_index_of(whole[0]) == k,
        fec_set_index_of(b) == k ==> whole.contains(b) || !takes(m, b),
        progress(m, k, whole, shreds),
    ensures
        progress(next, k, whole, shreds.push(b)),
{
    reveal(progress);
    lemma_step_frame(m, b, true, next, segments);
    lemma_arrived_grows(whole, shreds, b);
    if fec_set_index_of(b) != k {
        lemma_gather_other(m, b, next, segments, k, whole, shreds);
    } else if has_all(m, k) {
        assert forall|i: int| k <= i < k + 32 implies #[trigger] next.received.contains(i) by {
            assert(m.received.contains(i));
        }
    } else if takes(m, b) {
        let q = choose|j: int| 0 <= j < 64 && whole[j] == b;
        assert(m.recovers(b, true) == m.set(k).inserted(b).can_recover());
        lemma_gather_taken(m, b, next, k, whole, q, shreds);
    } else if !whole.contains(b) {
        assert forall|j: int| 0 <= j < 64 implies shreds.push(b).contains(#[trigger] whole[j])
            == shreds.contains(whole[j]) by {
            lemma_push_contains(shreds, b, whole[j]);
        }
        assert(arrived_of(whole, shreds.push(b)) =~= arrived_of(whole, shreds));
    } else {
        lemma_gather_again(m, b, k, whole, shreds);
    }
}

/// Whether all data shreds that are present are those of `block`, and those of them
/// are known to end a batch that do.
pub open spec fn agrees(m: SlotModel, block: Map<int, Seq<u8>>) -> bool {
    forall|i: int| #[trigger]
        m.received.contains(i) ==> block.contains_key(i) && m.complete.contains(i)
            == data_complete_of(block[i])
}

/// A data shred of a whole FEC set of a block is one of the block.
#[verifier::rlimit(40)]
proof fn lemma_data_of_block(sets: Map<u32, Seq<Seq<u8>>>, k: u32, p: int)
    requires
        whole_set(sets[k]),
        fec_set_index_of(sets[k][0]) == k,
        sets.contains_key(k),
        0 <= p < 32,
    ensures
        k % 32 == 0,
        data_shreds(sets).contains_key(k + p),
        data_shreds(sets)[k + p] == sets[k][p],
{
    let b = sets[k][p];
    assert(belongs(b, ShredKind::Data, p));
    assert(fec_set_index_of(b) == k);
    lemma_indexes(b);
    assert(k + p < MAX_SHREDS_PER_SLOT);
    assert(set_of(k + p) == k && (k + p) % 32 == p);
}

/// The whole FEC sets of a block have its data shreds.
proof fn lemma_whole_of_block(sets: Map<u32, Seq<Seq<u8>>>, k: u32)
    requires
        is_block(sets),
        sets.contains_key(k),
    ensures
        k % 32 == 0,
        whole_of_block(sets[k], k, data_shreds(sets)),
{
    lemma_data_of_block(sets, k, 0);
    assert forall|p: int| 0 <= p < 32 implies data_shreds(sets).contains_key(k + p) && data_shreds(
        sets,
    )[k + p] == #[trigger] sets[k][p] by {
        lemma_data_of_block(sets, k, p);
    }
}

/// A set that is done takes no shred any more.
proof fn lemma_done_takes_none(m: SlotModel, b: Seq<u8>)
    requires
        m.valid(),
        valid_wire(b),
        has_all(m, fec_set_index_of(b)),
    ensures
        !takes(m, b),
{
    let k = fec_set_index_of(b);
    law_layout(b);
    lemma_indexes(b);
    if kind_of(b) == ShredKind::Data {
        assert(m.received.contains(index_of(b) as int));
    } else if !all_consumed(m.consumed, k as int) {
        let set = m.set(k);
        lemma_empty_valid();
        assert forall|p: int| 0 <= p < 32 implies (#[trigger] set.data[p]) is Some by {
            let i = k + p;
            assert(m.received.contains(i));
            assert(set_of(i) == k && i % 32 == p);
            assert(m.shred_at(i) == set.data[p]);
        }
        lemma_all_taken(set.data);
    }
}

/// A shred of the block makes nothing but parts of the block.
proof fn lemma_step_block(
    sets: Map<u32, Seq<Seq<u8>>>,
    m: SlotModel,
    b: Seq<u8>,
    next: SlotModel,
    segments: Seq<SegmentModel>,
    shreds: Seq<Seq<u8>>,
)
    requires
        is_block(sets),
        fits(m, b, sets),
        step(m, b, true, next, segments),
        of_block(m, data_shreds(sets)),
        agrees(m, data_shreds(sets)),
        forall|k: u32| #[trigger]
            sets.contains_key(k) ==> progress(m, k, sets[k], shreds),
    ensures
        of_block(next, data_shreds(sets)),
        agrees(next, data_shreds(sets)),
        parts_of_block(segments, data_shreds(sets)),
{
    reveal(progress);
    let block = data_shreds(sets);
    let k = fec_set_index_of(b);
    let whole = sets[k];
    lemma_step_frame(m, b, true, next, segments);
    if !takes(m, b) {
        assert forall|j: u32| #[trigger] next.sets.contains_key(j) implies set_of_block(
            next.sets[j],
            j,
            block,
        ) by {
            assert(next.sets[j] == m.set(j));
            if m.sets.contains_key(j) {
                assert(set_of_block(m.sets[j], j, block));
            }
        }
    } else {
        if has_all(m, k) {
            lemma_done_takes_none(m, b);
        }
        let q = choose|j: int| 0 <= j < 64 && whole[j] == b;
        let held = m.set(k).inserted(b);
        let after = set_after(m, b, true);
        lemma_held(m, b, k, whole, q, shreds);
        lemma_whole_of_block(sets, k);
        lemma_set_of_block(held, whole, k, block);
        assert(m.recovers(b, true) == held.can_recover());
        if held.can_recover() {
            reveal(restores);
            lemma_set_of_block(held.recovered(), whole, k, block);
        }
        law_segments_are_parts_of_the_block(m, b, true, Stats::zero(), block);
        lemma_fresh_arrived(m, b, true, k);
        lemma_fresh_agrees(m, k, after, fresh_with(m, b, true), block);
        let marked = m.with_set(k, after).marked(fresh_with(m, b, true));
        assert forall|i: int| #[trigger] next.received.contains(i) implies block.contains_key(i)
            && next.complete.contains(i) == data_complete_of(block[i]) by {
            assert(marked.received.contains(i));
        }
    }
}

/// The data shreds that become available with a shred are those of the block.
proof fn lemma_fresh_agrees(
    m: SlotModel,
    k: u32,
    after: FecModel,
    fresh: Seq<u32>,
    block: Map<int, Seq<u8>>,
)
    requires
        m.coherent(),
        agrees(m, block),
        k % 32 == 0,
        set_of_block(after, k, block),
        forall|j: int|
            0 <= j < fresh.len() ==> k <= #[trigger] fresh[j] < k + 32 && after.data[fresh[j]
                - k] is Some,
        forall|j: int|
            0 <= j < fresh.len() ==> !m.received.contains(#[trigger] fresh[j] as int),
    ensures
        agrees(m.with_set(k, after).marked(fresh), block),
{
    let with = m.with_set(k, after);
    let marked = with.marked(fresh);
    assert forall|i: int| #[trigger] marked.received.contains(i) implies block.contains_key(i)
        && marked.complete.contains(i) == data_complete_of(block[i]) by {
        if m.received.contains(i) {
            assert(!index_set(fresh).contains(i));
        } else {
            assert(index_set(fresh).contains(i));
            let j = choose|j: int| 0 <= j < fresh.len() && #[trigger] fresh[j] == i;
            let p = i - k;
            assert(set_of(i) == k && i % 32 == p);
            assert(with.shred_at(i) == after.data[p]);
            assert(after.data[p] is Some);
            assert(block.contains_key(k + p));
            assert(carries_same(after.data[p]->0, block[k + p]));
            assert(!m.complete.contains(i));
        }
    }
}

/// What is known of a slot, and what came out of it, once `shreds` of a block have
/// been added.
#[verifier::opaque]
pub open spec fn built(
    sets: Map<u32, Seq<Seq<u8>>>,
    m: SlotModel,
    shreds: Seq<Seq<u8>>,
    all: Seq<SegmentModel>,
) -> bool {
    &&& m.valid()
    &&& of_block(m, data_shreds(sets))
    &&& agrees(m, data_shreds(sets))
    &&& parts_of_block(all, data_shreds(sets))
    &&& emits(SlotModel::empty(), m, all)
    &&& forall|k: u32| #[trigger]
        sets.contains_key(k) ==> progress(m, k, sets[k], shreds)
}

/// Nothing has come of a slot that no shred has reached.
pub proof fn lemma_built_empty(sets: Map<u32, Seq<Seq<u8>>>)
    requires
        is_block(sets),
    ensures
        built(sets, SlotModel::empty(), Seq::empty(), Seq::empty()),
{
    reveal(built);
    reveal(progress);
    let m = SlotModel::empty();
    let none = Seq::<Seq<u8>>::empty();
    assert(m.valid()) by {
        assert forall|i: int| !#[trigger] m.in_run(i) by {
            if m.in_run(i) {
                let (first, last) = m.run_of(i);
                assert(m.received.contains(first));
            }
        }
    }
    lemma_empty_valid();
    lemma_none_taken(32);
    assert forall|k: u32| #[trigger] sets.contains_key(k) implies progress(
        m,
        k,
        sets[k],
        none,
    ) by {
        let set = m.set(k);
        assert(!m.received.contains(k as int));
        assert(!has_all(m, k));
        assert(taken(set.data) + taken(set.code) =~= arrived_of(sets[k], none));
    }
}

/// One more shred of the block.
pub proof fn lemma_built_step(
    sets: Map<u32, Seq<Seq<u8>>>,
    m: SlotModel,
    b: Seq<u8>,
    next: SlotModel,
    segments: Seq<SegmentModel>,
    shreds: Seq<Seq<u8>>,
    all: Seq<SegmentModel>,
)
    requires
        is_block(sets),
        fits(m, b, sets),
        step(m, b, true, next, segments),
        built(sets, m, shreds, all),
    ensures
        built(sets, next, shreds.push(b), all + segments),
{
    reveal(built);
    let block = data_shreds(sets);
    lemma_step_frame(m, b, true, next, segments);
    lemma_step_block(sets, m, b, next, segments, shreds);
    assert forall|k: u32| #[trigger] sets.contains_key(k) implies progress(
        next,
        k,
        sets[k],
        shreds.push(b),
    ) by {
        lemma_gather(m, b, next, segments, k, sets[k], shreds);
    }
    let more = all + segments;
    assert forall|s: int| 0 <= s < more.len() implies part_of_block(#[trigger] more[s], block) by {
        if s < all.len() {
            assert(more[s] == all[s]);
        } else {
            assert(more[s] == segments[s - all.len()]);
        }
    }
    assert forall|f: int, l: int| #[trigger] is_run(m.received, m.complete, f, l) implies is_run(
        next.received,
        next.complete,
        f,
        l,
    ) by {
        lemma_run_stays(m, next, block, f, l);
    }
    lemma_emits_join(SlotModel::empty(), m, next, all, segments);
}

/// A run stays one while more data shreds of the block arrive.
proof fn lemma_run_stays(
    m: SlotModel,
    next: SlotModel,
    block: Map<int, Seq<u8>>,
    first: int,
    last: int,
)
    requires
        m.coherent(),
        agrees(m, block),
        agrees(next, block),
        m.received.subset_of(next.received),
        is_run(m.received, m.complete, first, last),
    ensures
        is_run(next.received, next.complete, first, last),
{
    assert forall|i: int| first <= i < last implies !#[trigger] next.complete.contains(i) by {
        assert(m.received.contains(i));
        assert(!m.complete.contains(i));
        assert(next.received.contains(i));
    }
    assert(m.received.contains(last));
    assert(next.received.contains(last));
    if first != 0 {
        assert(m.received.contains(first - 1));
        assert(next.received.contains(first - 1));
    }
}

/// What has come of a slot after the first `n` of its shreds.
proof fn lemma_history(
    sets: Map<u32, Seq<Seq<u8>>>,
    states: Seq<SlotModel>,
    shreds: Seq<Seq<u8>>,
    emitted: Seq<Seq<SegmentModel>>,
    n: int,
)
    requires
        is_block(sets),
        history(states, shreds, emitted),
        forall|i: int| 0 <= i < shreds.len() ==> fits(states[i], #[trigger] shreds[i], sets),
        0 <= n <= shreds.len(),
    ensures
        built(sets, states[n], shreds.take(n), joined(emitted.take(n))),
    decreases n,
{
    if n == 0 {
        lemma_built_empty(sets);
        assert(shreds.take(0) =~= Seq::empty());
        assert(emitted.take(0) =~= Seq::empty());
    } else {
        let i = n - 1;
        lemma_history(sets, states, shreds, emitted, i);
        assert(fits(states[i], shreds[i], sets));
        lemma_built_step(
            sets,
            states[i],
            shreds[i],
            states[n],
            emitted[i],
            shreds.take(i),
            joined(emitted.take(i)),
        );
        assert(shreds.take(n) =~= shreds.take(i).push(shreds[i]));
        assert(emitted.take(n).drop_last() =~= emitted.take(i));
        assert(emitted.take(n).last() == emitted[i]);
    }
}

/// Whether `first..=last` are the data shreds of one entry batch of a block.
pub open spec fn is_batch(block: Map<int, Seq<u8>>, first: int, last: int) -> bool {
    is_run(
        block.dom(),
        Set::new(|i: int| block.contains_key(i) && data_complete_of(block[i])),
        first,
        last,
    )
}

/// What the data shreds `first..=last` of a block carry.
pub open spec fn batch_of(block: Map<int, Seq<u8>>, first: int, last: int) -> SegmentModel {
    SegmentModel {
        shreds: indexes(first, last),
        bytes: block_bytes(block, first, last + 1),
        last_in_slot: last_in_slot_of(block[last]),
    }
}

/// Whether half of the shreds of the FEC set that data shred `index` is in are among
/// `shreds`.
pub open spec fn half_arrived(
    sets: Map<u32, Seq<Seq<u8>>>,
    shreds: Seq<Seq<u8>>,
    index: int,
) -> bool {
    num_true(arrived_of(sets[set_of(index) as u32], shreds)) >= 32
}

/// Whether data shred `index` of a block can be had from `shreds`: it is among them, or
/// half of its FEC set is.
pub open spec fn available(
    sets: Map<u32, Seq<Seq<u8>>>,
    shreds: Seq<Seq<u8>>,
    index: int,
) -> bool {
    &&& data_shreds(sets).contains_key(index)
    &&& half_arrived(sets, shreds, index) || shreds.contains(data_shreds(sets)[index])
}

/// Whether `first..=last` is an entry batch of a block that can be had from `shreds`,
/// together with the data shred before it, which says that the batch before it ends
/// there.
pub open spec fn batch_available(
    sets: Map<u32, Seq<Seq<u8>>>,
    shreds: Seq<Seq<u8>>,
    first: int,
    last: int,
) -> bool {
    &&& is_batch(data_shreds(sets), first, last)
    &&& forall|i: int|
        0 <= i && first - 1 <= i <= last ==> #[trigger] available(sets, shreds, i)
}

/// A run of data shreds of a block is one of its batches.
proof fn lemma_run_is_batch(m: SlotModel, block: Map<int, Seq<u8>>, first: int, last: int)
    requires
        m.coherent(),
        agrees(m, block),
        is_run(m.received, m.complete, first, last),
    ensures
        is_batch(block, first, last),
{
    let ends = Set::new(|i: int| block.contains_key(i) && data_complete_of(block[i]));
    assert forall|i: int| first <= i <= last implies #[trigger] block.dom().contains(i) by {
        assert(m.received.contains(i));
    }
    assert(m.received.contains(last));
    assert(ends.contains(last));
    assert forall|i: int| first <= i < last implies !#[trigger] ends.contains(i) by {
        assert(m.received.contains(i));
        assert(!m.complete.contains(i));
    }
    if first != 0 {
        assert(m.received.contains(first - 1));
        assert(ends.contains(first - 1));
    }
}

/// A batch of a block whose data shreds are all present is a run.
proof fn lemma_batch_is_run(m: SlotModel, block: Map<int, Seq<u8>>, first: int, last: int)
    requires
        agrees(m, block),
        is_batch(block, first, last),
        forall|i: int| first - 1 <= i <= last && 0 <= i ==> #[trigger] m.received.contains(i),
    ensures
        is_run(m.received, m.complete, first, last),
{
    let ends = Set::new(|i: int| block.contains_key(i) && data_complete_of(block[i]));
    assert(ends.contains(last));
    assert(m.received.contains(last));
    assert forall|i: int| first <= i < last implies !#[trigger] m.complete.contains(i) by {
        assert(m.received.contains(i));
        assert(!ends.contains(i));
    }
    if first != 0 {
        assert(ends.contains(first - 1));
        assert(m.received.contains(first - 1));
    }
}

/// A FEC set of which half arrived is done.
proof fn lemma_half_has_all(
    sets: Map<u32, Seq<Seq<u8>>>,
    m: SlotModel,
    shreds: Seq<Seq<u8>>,
    k: u32,
)
    requires
        is_block(sets),
        m.valid(),
        sets.contains_key(k),
        progress(m, k, sets[k], shreds),
        num_true(arrived_of(sets[k], shreds)) >= 32,
    ensures
        has_all(m, k),
{
    reveal(progress);
    if !has_all(m, k) {
        let set = m.set(k);
        lemma_empty_valid();
        lemma_num_true_add(taken(set.data), taken(set.code));
        lemma_num_shreds_bound(set.data);
        assert(set.num_data() + set.num_code() >= 32);
        assert(set.is_complete());
        lemma_complete_has_all(m, k, sets[k], shreds);
    }
}

/// The data shreds that are present are those that can be had from the shreds that
/// came.
#[verifier::spinoff_prover]
proof fn lemma_received_iff(
    sets: Map<u32, Seq<Seq<u8>>>,
    m: SlotModel,
    shreds: Seq<Seq<u8>>,
    k: u32,
    i: int,
)
    requires
        is_block(sets),
        m.valid(),
        sets.contains_key(k),
        progress(m, k, sets[k], shreds),
        k <= i < k + 32,
    ensures
        m.received.contains(i) == available(sets, shreds, i),
{
    let whole = sets[k];
    let p = i - k;
    lemma_whole_of_block(sets, k);
    assert(set_of(i) == k && i % 32 == p);
    assert(data_shreds(sets).contains_key(k + p) && data_shreds(sets)[k + p] == whole[p]);
    if half_arrived(sets, shreds, i) {
        lemma_half_has_all(sets, m, shreds, k);
    } else {
        reveal(progress);
        let set = m.set(k);
        lemma_empty_valid();
        assert(!has_all(m, k));
        assert((taken(set.data) + taken(set.code))[p] == arrived_of(whole, shreds)[p]);
        if m.received.contains(i) {
            if all_consumed(m.consumed, k as int) {
                lemma_consumed_has_all(m, k);
            }
            assert(m.shred_at(i) == set.data[p]);
        }
        if shreds.contains(whole[p]) {
            assert(set.data[p] is Some);
            assert(m.received.contains(k + p));
        }
    }
}

/// A batch comes out once its data shreds, and the one before it, are present.
proof fn lemma_batch_comes_out(
    sets: Map<u32, Seq<Seq<u8>>>,
    m: SlotModel,
    shreds: Seq<Seq<u8>>,
    all: Seq<SegmentModel>,
    first: int,
    last: int,
)
    requires
        built(sets, m, shreds, all),
        is_batch(data_shreds(sets), first, last),
        forall|i: int| first - 1 <= i <= last && 0 <= i ==> #[trigger] m.received.contains(i),
    ensures
        all.contains(batch_of(data_shreds(sets), first, last)),
{
    reveal(built);
    let block = data_shreds(sets);
    lemma_batch_is_run(m, block, first, last);
    assert(m.in_run(first));
    assert(m.consumed.contains(first));
    let s = choose|s: int| 0 <= s < all.len() && covers(all[s], first);
    lemma_emitted_is_batch(m, block, all, s);
    law_run_unique(
        m.received,
        m.complete,
        first,
        (first, last),
        (all[s].shreds.start as int, all[s].shreds.end as int),
    );
    assert(all[s] == batch_of(block, first, last));
}

/// A batch, and the data shred before it, are in FEC sets of the block.
proof fn lemma_batch_in_sets(sets: Map<u32, Seq<Seq<u8>>>, first: int, last: int, i: int)
    requires
        is_batch(data_shreds(sets), first, last),
        0 <= i,
        first - 1 <= i <= last,
    ensures
        sets.contains_key(set_of(i) as u32),
        0 <= i < MAX_SHREDS_PER_SLOT,
        data_shreds(sets).contains_key(i),
{
    let block = data_shreds(sets);
    let ends = Set::new(|i: int| block.contains_key(i) && data_complete_of(block[i]));
    if i == first - 1 {
        assert(ends.contains(i));
    } else {
        assert(block.dom().contains(i));
    }
    assert(block.contains_key(i));
}

/// A segment that was emitted is a batch of the block.
proof fn lemma_emitted_is_batch(
    m: SlotModel,
    block: Map<int, Seq<u8>>,
    all: Seq<SegmentModel>,
    s: int,
)
    requires
        m.coherent(),
        agrees(m, block),
        emits(SlotModel::empty(), m, all),
        parts_of_block(all, block),
        0 <= s < all.len(),
    ensures
        is_run(m.received, m.complete, all[s].shreds.start as int, all[s].shreds.end as int),
        is_batch(block, all[s].shreds.start as int, all[s].shreds.end as int),
        all[s] == batch_of(block, all[s].shreds.start as int, all[s].shreds.end as int),
{
    let first = all[s].shreds.start as int;
    let last = all[s].shreds.end as int;
    lemma_run_is_batch(m, block, first, last);
    assert(part_of_block(all[s], block));
    assert(all[s].shreds == indexes(first, last));
}

/// Whether `segment` is an entry batch of a block that can be had from `shreds`.
pub open spec fn is_available(
    sets: Map<u32, Seq<Seq<u8>>>,
    shreds: Seq<Seq<u8>>,
    segment: SegmentModel,
) -> bool {
    let first = segment.shreds.start as int;
    let last = segment.shreds.end as int;
    batch_available(sets, shreds, first, last) && segment == batch_of(
        data_shreds(sets),
        first,
        last,
    )
}

/// A data shred of the block is present exactly if it can be had.
pub proof fn lemma_present_iff(
    sets: Map<u32, Seq<Seq<u8>>>,
    m: SlotModel,
    shreds: Seq<Seq<u8>>,
    all: Seq<SegmentModel>,
    i: int,
)
    requires
        is_block(sets),
        built(sets, m, shreds, all),
        data_shreds(sets).contains_key(i),
    ensures
        m.received.contains(i) == available(sets, shreds, i),
{
    let k = set_of(i) as u32;
    assert(m.valid() && progress(m, k, sets[k], shreds)) by {
        reveal(built);
    }
    lemma_received_iff(sets, m, shreds, k, i);
}

/// The first index of the FEC set that a data shred is in.
pub proof fn lemma_set_of_data(b: Seq<u8>)
    requires
        valid_wire(b),
        kind_of(b) == ShredKind::Data,
    ensures
        set_of(index_of(b) as int) == fec_set_index_of(b),
        index_of(b) < MAX_SHREDS_PER_SLOT,
{
    law_layout(b);
    lemma_indexes(b);
}

/// A segment that came out is a batch of the block whose data shreds are present.
proof fn lemma_came_out(
    sets: Map<u32, Seq<Seq<u8>>>,
    m: SlotModel,
    shreds: Seq<Seq<u8>>,
    all: Seq<SegmentModel>,
    s: int,
    i: int,
)
    requires
        built(sets, m, shreds, all),
        0 <= s < all.len(),
    ensures
        ({
            let first = all[s].shreds.start as int;
            let last = all[s].shreds.end as int;
            &&& is_batch(data_shreds(sets), first, last)
            &&& all[s] == batch_of(data_shreds(sets), first, last)
            &&& 0 <= i && first - 1 <= i <= last ==> m.received.contains(i)
        }),
{
    reveal(built);
    lemma_emitted_is_batch(m, data_shreds(sets), all, s);
    if i == all[s].shreds.start - 1 && 0 <= i {
        assert(m.complete.contains(i));
    }
}

/// What has come out of a slot are the batches that can be had.
pub proof fn lemma_built_gives(
    sets: Map<u32, Seq<Seq<u8>>>,
    m: SlotModel,
    shreds: Seq<Seq<u8>>,
    all: Seq<SegmentModel>,
    segment: SegmentModel,
)
    requires
        is_block(sets),
        built(sets, m, shreds, all),
    ensures
        all.contains(segment) <==> is_available(sets, shreds, segment),
{
    let first = segment.shreds.start as int;
    let last = segment.shreds.end as int;
    if all.contains(segment) {
        let s = choose|s: int| 0 <= s < all.len() && all[s] == segment;
        lemma_came_out(sets, m, shreds, all, s, 0);
        assert forall|i: int| 0 <= i && first - 1 <= i <= last implies
            #[trigger] available(sets, shreds, i) by {
            lemma_came_out(sets, m, shreds, all, s, i);
            lemma_batch_in_sets(sets, first, last, i);
            lemma_present_iff(sets, m, shreds, all, i);
        }
    }
    if is_available(sets, shreds, segment) {
        assert forall|i: int| first - 1 <= i <= last && 0 <= i implies
            #[trigger] m.received.contains(i) by {
            assert(available(sets, shreds, i));
            lemma_batch_in_sets(sets, first, last, i);
            lemma_present_iff(sets, m, shreds, all, i);
        }
        lemma_batch_comes_out(sets, m, shreds, all, first, last);
    }
}

/// What comes out of the shreds of a block are those of its entry batches that can be
/// had from them, whatever the order in which the shreds arrive, however often, and
/// among whatever shreds that are turned away. Nothing else comes out, and no batch
/// comes out twice. A data shred can be had if it arrived, or if any 32 of the 64
/// shreds of its FEC set did.
pub proof fn law_available_batches_come_out(
    sets: Map<u32, Seq<Seq<u8>>>,
    states: Seq<SlotModel>,
    shreds: Seq<Seq<u8>>,
    emitted: Seq<Seq<SegmentModel>>,
)
    requires
        is_block(sets),
        history(states, shreds, emitted),
        forall|i: int| 0 <= i < shreds.len() ==> fits(states[i], #[trigger] shreds[i], sets),
    ensures
        forall|segment: SegmentModel| #[trigger]
            joined(emitted).contains(segment) <==> is_available(sets, shreds, segment),
        joined(emitted).no_duplicates(),
{
    let all = joined(emitted);
    let n = shreds.len() as int;
    let m = states[n];
    lemma_history(sets, states, shreds, emitted, n);
    assert(shreds.take(n) =~= shreds);
    assert(emitted.take(n) =~= emitted);
    assert forall|segment: SegmentModel| #[trigger] all.contains(segment) <==> is_available(
        sets,
        shreds,
        segment,
    ) by {
        lemma_built_gives(sets, m, shreds, all, segment);
    }
    reveal(built);
    lemma_emitted_distinct(m, all);
}

/// No segment comes out twice.
proof fn lemma_emitted_distinct(m: SlotModel, all: Seq<SegmentModel>)
    requires
        emits(SlotModel::empty(), m, all),
    ensures
        all.no_duplicates(),
{
    assert forall|s: int, t: int| 0 <= s < all.len() && 0 <= t < all.len() && s != t implies all[s]
        != all[t] by {
        let (a, b) = if s < t {
            (s, t)
        } else {
            (t, s)
        };
        let i = all[a].shreds.start as int;
        assert(is_run(m.received, m.complete, i, all[a].shreds.end as int));
        assert(covers(all[a], i));
        assert(!covers(all[b], i));
    }
}

/// Where half of the shreds of every FEC set of a block arrive, all of its entry batches
/// come out.
pub proof fn law_any_half_gives_the_block(
    sets: Map<u32, Seq<Seq<u8>>>,
    states: Seq<SlotModel>,
    shreds: Seq<Seq<u8>>,
    emitted: Seq<Seq<SegmentModel>>,
)
    requires
        is_block(sets),
        history(states, shreds, emitted),
        forall|i: int| 0 <= i < shreds.len() ==> fits(states[i], #[trigger] shreds[i], sets),
        forall|k: u32| #[trigger]
            sets.contains_key(k) ==> num_true(arrived_of(sets[k], shreds)) >= 32,
    ensures
        forall|first: int, last: int| #[trigger]
            is_batch(data_shreds(sets), first, last) ==> joined(emitted).contains(
                batch_of(data_shreds(sets), first, last),
            ),
{
    law_available_batches_come_out(sets, states, shreds, emitted);
    let block = data_shreds(sets);
    assert forall|first: int, last: int| #[trigger] is_batch(block, first, last) implies joined(
        emitted,
    ).contains(batch_of(block, first, last)) by {
        assert forall|i: int| 0 <= i && first - 1 <= i <= last implies
            #[trigger] available(sets, shreds, i) by {
            lemma_batch_in_sets(sets, first, last, i);
        }
        assert(is_available(sets, shreds, batch_of(block, first, last)));
    }
}

/// Two histories of a slot from which the same data shreds of a block can be had give
/// the same batches, whatever the order, loss and repetition of shreds in either.
pub proof fn law_order_and_loss_do_not_matter(
    sets: Map<u32, Seq<Seq<u8>>>,
    a_states: Seq<SlotModel>,
    a_shreds: Seq<Seq<u8>>,
    a_emitted: Seq<Seq<SegmentModel>>,
    b_states: Seq<SlotModel>,
    b_shreds: Seq<Seq<u8>>,
    b_emitted: Seq<Seq<SegmentModel>>,
)
    requires
        is_block(sets),
        history(a_states, a_shreds, a_emitted),
        history(b_states, b_shreds, b_emitted),
        forall|i: int|
            0 <= i < a_shreds.len() ==> fits(a_states[i], #[trigger] a_shreds[i], sets),
        forall|i: int|
            0 <= i < b_shreds.len() ==> fits(b_states[i], #[trigger] b_shreds[i], sets),
        forall|i: int| #[trigger] available(sets, a_shreds, i) == available(sets, b_shreds, i),
    ensures
        forall|segment: SegmentModel| #[trigger]
            joined(a_emitted).contains(segment) <==> joined(b_emitted).contains(segment),
{
    law_available_batches_come_out(sets, a_states, a_shreds, a_emitted);
    law_available_batches_come_out(sets, b_states, b_shreds, b_emitted);
    assert forall|segment: SegmentModel| #[trigger]
        joined(a_emitted).contains(segment) <==> joined(b_emitted).contains(segment) by {
        lemma_same_available(sets, a_shreds, b_shreds, segment);
    }
}

/// What can be had goes by the data shreds that can be had.
pub proof fn lemma_same_available(
    sets: Map<u32, Seq<Seq<u8>>>,
    a: Seq<Seq<u8>>,
    b: Seq<Seq<u8>>,
    segment: SegmentModel,
)
    requires
        forall|i: int| #[trigger] available(sets, a, i) == available(sets, b, i),
    ensures
        is_available(sets, a, segment) == is_available(sets, b, segment),
{
    let first = segment.shreds.start as int;
    let last = segment.shreds.end as int;
    if batch_available(sets, a, first, last) {
        assert forall|i: int| 0 <= i && first - 1 <= i <= last implies
            #[trigger] available(sets, b, i) by {
            assert(available(sets, a, i));
        }
    }
    if batch_available(sets, b, first, last) {
        assert forall|i: int| 0 <= i && first - 1 <= i <= last implies
            #[trigger] available(sets, a, i) by {
            assert(available(sets, b, i));
        }
    }
}

/// Whether the shred `b` was altered on its way and comes in time to be found out: it
/// does not lead to the Merkle root of its FEC set, some shreds of the set are among
/// `shreds`, those that came before it, but not half of them and not the one in its
/// place.
pub open spec fn altered(
    sets: Map<u32, Seq<Seq<u8>>>,
    shreds: Seq<Seq<u8>>,
    b: Seq<u8>,
) -> bool {
    let k = fec_set_index_of(b);
    let whole = sets[k];
    &&& sets.contains_key(k)
    &&& merkle_root_of(b) != merkle_root_of(whole[0])
    &&& 0 < num_true(arrived_of(whole, shreds)) < 32
    &&& !shreds.contains(whole[erasure_index_of(b)])
}

/// A set that is gathering has not what is among none of the shreds.
#[verifier::rlimit(40)]
proof fn lemma_altered_place(
    m: SlotModel,
    b: Seq<u8>,
    k: u32,
    whole: Seq<Seq<u8>>,
    shreds: Seq<Seq<u8>>,
)
    requires
        m.valid(),
        valid_wire(b),
        fec_set_index_of(b) == k,
        !has_all(m, k),
        gathering(m, k, whole, shreds),
        !shreds.contains(whole[erasure_index_of(b)]),
        0 < num_true(arrived_of(whole, shreds)) < 32,
    ensures
        m.set(k).at(b) is None,
        !m.set(k).is_complete(),
        m.set(k).root is Some,
        !all_consumed(m.consumed, k as int),
        kind_of(b) == ShredKind::Data ==> !m.received.contains(index_of(b) as int),
{
    let set = m.set(k);
    let q = erasure_index_of(b);
    law_layout(b);
    lemma_indexes(b);
    lemma_empty_valid();
    assert((taken(set.data) + taken(set.code))[q] == arrived_of(whole, shreds)[q]);
    lemma_num_true_add(taken(set.data), taken(set.code));
    if all_consumed(m.consumed, k as int) {
        lemma_consumed_has_all(m, k);
    }
    if set.root is None {
        lemma_none_taken(32);
    }
    if kind_of(b) == ShredKind::Data && m.received.contains(index_of(b) as int) {
        let i = index_of(b) as int;
        assert(set_of(i) == k && i % 32 == q);
        assert(m.shred_at(i) == set.data[q]);
    }
}

/// A shred that was altered and comes in time is rejected.
pub proof fn lemma_altered_rejected(
    sets: Map<u32, Seq<Seq<u8>>>,
    m: SlotModel,
    shreds: Seq<Seq<u8>>,
    all: Seq<SegmentModel>,
    b: Seq<u8>,
)
    requires
        is_block(sets),
        built(sets, m, shreds, all),
        valid_wire(b),
        altered(sets, shreds, b),
    ensures
        rejects(m, b),
        !takes(m, b),
        !m.recovers(b, true),
        !in_block(b, sets),
{
    let k = fec_set_index_of(b);
    let whole = sets[k];
    assert(m.valid() && progress(m, k, whole, shreds)) by {
        reveal(built);
    }
    reveal(progress);
    lemma_altered_place(m, b, k, whole, shreds);
    let set = m.set(k);
    assert(set.root == merkle_root_of(whole[0]));
    assert(rooted(whole));
    if whole.contains(b) {
        let j = choose|j: int| 0 <= j < 64 && whole[j] == b;
        assert(merkle_root_of(whole[j]) == merkle_root_of(whole[0]));
    }
}

/// A shred of the block is never rejected, and no recovery that it makes possible
/// fails.
#[verifier::spinoff_prover]
pub proof fn lemma_leader_counts(
    sets: Map<u32, Seq<Seq<u8>>>,
    m: SlotModel,
    shreds: Seq<Seq<u8>>,
    all: Seq<SegmentModel>,
    b: Seq<u8>,
)
    requires
        is_block(sets),
        built(sets, m, shreds, all),
        valid_wire(b),
        in_block(b, sets),
        m.recovers(b, true) ==> restores(m.set(fec_set_index_of(b)).inserted(b)),
    ensures
        !rejects(m, b),
        !fails(m, b, true),
{
    let k = fec_set_index_of(b);
    let whole = sets[k];
    assert(m.valid() && progress(m, k, whole, shreds)) by {
        reveal(built);
    }
    reveal(progress);
    let q = choose|j: int| 0 <= j < 64 && whole[j] == b;
    assert(merkle_root_of(whole[q]) == merkle_root_of(whole[0]));
    assert(signature_of(whole[q]) == signature_of(whole[0]));
    if has_all(m, k) {
        lemma_done_takes_none(m, b);
        lemma_done_rejects_none(m, b);
    } else {
        if m.recovers(b, true) {
            lemma_held(m, b, k, whole, q, shreds);
            reveal(restores);
        }
    }
}

/// A data shred of the block is the one at its index.
pub proof fn lemma_own_index(sets: Map<u32, Seq<Seq<u8>>>, b: Seq<u8>)
    requires
        is_block(sets),
        in_block(b, sets),
        kind_of(b) == ShredKind::Data,
    ensures
        valid_wire(b),
        data_shreds(sets).contains_key(index_of(b) as int),
        data_shreds(sets)[index_of(b) as int] == b,
{
    let k = fec_set_index_of(b);
    let whole = sets[k];
    let q = choose|j: int| 0 <= j < whole.len() && whole[j] == b;
    assert(belongs(
        whole[q],
        if q < 32 {
            ShredKind::Data
        } else {
            ShredKind::Code
        },
        q,
    ));
    law_layout(b);
    lemma_data_of_block(sets, k, q);
}

/// A set that is done rejects no shred any more.
proof fn lemma_done_rejects_none(m: SlotModel, b: Seq<u8>)
    requires
        m.valid(),
        valid_wire(b),
        has_all(m, fec_set_index_of(b)),
    ensures
        !rejects(m, b),
{
    let k = fec_set_index_of(b);
    law_layout(b);
    lemma_indexes(b);
    if kind_of(b) == ShredKind::Data {
        assert(m.received.contains(index_of(b) as int));
    } else if !all_consumed(m.consumed, k as int) {
        let set = m.set(k);
        lemma_empty_valid();
        assert forall|p: int| 0 <= p < 32 implies (#[trigger] set.data[p]) is Some by {
            let i = k + p;
            assert(m.received.contains(i));
            assert(set_of(i) == k && i % 32 == p);
            assert(m.shred_at(i) == set.data[p]);
        }
        lemma_all_taken(set.data);
    }
}

} // verus!

//! The history of a slot: what comes of adding shreds to it one after the other, of
//! whatever block and in whatever order.

use crate::fec::{
    law_recovered_is_complete, law_recovery_adds, lemma_empty_valid, lemma_inserted,
    lemma_num_shreds_bound, FecModel, Insert,
};
use crate::shred::{
    erasure_index_of, fec_set_index_of, index_of, kind_of, law_layout, lemma_indexes,
    merkle_root_of, signature_of, valid_wire, ShredKind,
};
use crate::slot::{
    all_consumed, covers, emits, index_set, indexes, is_run, law_run_unique, lemma_arrived,
    lemma_complete_all_frame, lemma_emits_join, lemma_runs_stay, lemma_set_ready, restores, step,
    SegmentModel, SlotModel,
};
use crate::stats::{counted, Stats};
use vstd::prelude::*;

verus! {

/// Whether the FEC set of the shred `b` takes it.
pub open spec fn takes(m: SlotModel, b: Seq<u8>) -> bool {
    let k = fec_set_index_of(b);
    &&& kind_of(b) == ShredKind::Data ==> !m.received.contains(index_of(b) as int)
    &&& kind_of(b) == ShredKind::Code ==> !all_consumed(m.consumed, k as int)
    &&& m.set(k).insert_outcome(b) == Insert::New
}

/// The FEC set of the shred `b` that it takes, once recovery has run if it can.
pub open spec fn set_after(m: SlotModel, b: Seq<u8>, recovery: bool) -> FecModel {
    let held = m.set(fec_set_index_of(b)).inserted(b);
    if recovery && held.can_recover() {
        held.recovered()
    } else {
        held
    }
}

/// The indexes of the data shreds that become available with the shred `b`.
pub open spec fn fresh_with(m: SlotModel, b: Seq<u8>, recovery: bool) -> Seq<u32> {
    let held = m.set(fec_set_index_of(b)).inserted(b);
    let own = if kind_of(b) == ShredKind::Data {
        seq![index_of(b)]
    } else {
        Seq::empty()
    };
    match held.recover_outcome() {
        Ok(recovered) => if recovery && held.can_recover() {
            own + recovered
        } else {
            own
        },
        Err(_) => own,
    }
}

/// What a step changes, and what it leaves alone.
pub proof fn lemma_step_frame(
    m: SlotModel,
    b: Seq<u8>,
    recovery: bool,
    next: SlotModel,
    segments: Seq<SegmentModel>,
)
    requires
        step(m, b, recovery, next, segments),
    ensures
        ({
            let k = fec_set_index_of(b);
            let fresh = fresh_with(m, b, recovery);
            let marked = m.with_set(k, set_after(m, b, recovery)).marked(fresh);
            &&& !takes(m, b) ==> {
                &&& next.received == m.received
                &&& next.complete == m.complete
                &&& next.consumed == m.consumed
                &&& segments.len() == 0
                &&& forall|j: u32| #[trigger] next.set(j) == m.set(j)
                &&& forall|j: u32| #[trigger]
                    next.sets.contains_key(j) ==> next.sets[j] == m.set(j)
            }
            &&& takes(m, b) ==> {
                &&& next.received == marked.received
                &&& next.complete == marked.complete
                &&& {
                    ||| next.sets.contains_key(k) && next.set(k) == set_after(m, b, recovery)
                    ||| all_consumed(next.consumed, k as int)
                }
                &&& forall|j: u32|
                    j != k ==> #[trigger] next.set(j) == m.set(j) || all_consumed(
                        next.consumed,
                        j as int,
                    )
            }
        }),
{
    let k = fec_set_index_of(b);
    let set = m.set(k);
    let fresh = fresh_with(m, b, recovery);
    let marked = m.with_set(k, set_after(m, b, recovery)).marked(fresh);
    if takes(m, b) {
        let done = m.inserted(b, recovery, Stats::zero());
        assert(done.slot == marked.complete_all(fresh).0);
        lemma_complete_all_frame(marked, fresh);
        assert(marked.sets.contains_key(k));
        assert forall|j: u32| j != k implies #[trigger] next.set(j) == m.set(j) || all_consumed(
            next.consumed,
            j as int,
        ) by {
            if next.sets.contains_key(j) {
                assert(marked.sets.contains_key(j));
            } else if m.sets.contains_key(j) {
                assert(marked.sets.contains_key(j));
            }
        }
    }
}

/// The data shreds that become available with a shred are those that its FEC set gains.
pub proof fn lemma_fresh_arrived(m: SlotModel, b: Seq<u8>, recovery: bool, k: u32)
    requires
        m.valid(),
        valid_wire(b),
        k == fec_set_index_of(b),
        takes(m, b),
        recovery && m.set(k).inserted(b).can_recover() ==> m.set(k).inserted(b).recovered().valid(),
    ensures
        k % 32 == 0,
        forall|j: int|
            0 <= j < fresh_with(m, b, recovery).len() ==> {
                let i = #[trigger] fresh_with(m, b, recovery)[j];
                k <= i < k + 32 && set_after(m, b, recovery).data[i - k] is Some
            },
        forall|j: int|
            0 <= j < fresh_with(m, b, recovery).len() ==> !m.received.contains(
                #[trigger] fresh_with(m, b, recovery)[j] as int,
            ),
{
    let held = m.set(k).inserted(b);
    let after = set_after(m, b, recovery);
    let fresh = fresh_with(m, b, recovery);
    lemma_set_ready(m, b);
    if recovery && held.can_recover() {
        law_recovery_adds(held, k);
    }
    lemma_arrived(m, k, after, fresh);
    assert forall|j: int| 0 <= j < fresh.len() implies !m.received.contains(
        #[trigger] fresh[j] as int,
    ) by {
        assert(!m.with_set(k, after).received.contains(fresh[j] as int));
    }
}

/// Whether `states` are those of a slot to which `shreds` are added one after the
/// other, with recovery, `emitted` being what each of them completes.
pub open spec fn history(
    states: Seq<SlotModel>,
    shreds: Seq<Seq<u8>>,
    emitted: Seq<Seq<SegmentModel>>,
) -> bool {
    &&& states.len() == shreds.len() + 1
    &&& emitted.len() == shreds.len()
    &&& states[0] == SlotModel::empty()
    &&& forall|i: int|
        0 <= i < shreds.len() ==> step(
            states[i],
            #[trigger] shreds[i],
            true,
            states[i + 1],
            emitted[i],
        )
}

/// A history goes on with one more step.
pub proof fn lemma_history_grows(
    states: Seq<SlotModel>,
    shreds: Seq<Seq<u8>>,
    emitted: Seq<Seq<SegmentModel>>,
    b: Seq<u8>,
    after: SlotModel,
    segments: Seq<SegmentModel>,
)
    requires
        history(states, shreds, emitted),
        step(states.last(), b, true, after, segments),
    ensures
        history(states.push(after), shreds.push(b), emitted.push(segments)),
{
    let more = shreds.push(b);
    assert forall|i: int| 0 <= i < more.len() implies step(
        states.push(after)[i],
        #[trigger] more[i],
        true,
        states.push(after)[i + 1],
        emitted.push(segments)[i],
    ) by {
        if i < shreds.len() {
            assert(more[i] == shreds[i]);
        }
    }
}

/// All segments, in the order of the steps that emitted them.
pub open spec fn joined(emitted: Seq<Seq<SegmentModel>>) -> Seq<SegmentModel>
    decreases emitted.len(),
{
    if emitted.len() == 0 {
        Seq::empty()
    } else {
        joined(emitted.drop_last()) + emitted.last()
    }
}

/// The data shreds that a step makes present are those of the FEC set of its shred.
pub proof fn lemma_step_received(
    m: SlotModel,
    b: Seq<u8>,
    recovery: bool,
    next: SlotModel,
    segments: Seq<SegmentModel>,
)
    requires
        step(m, b, recovery, next, segments),
    ensures
        m.received.subset_of(next.received),
        forall|i: int| #[trigger]
            next.received.contains(i) && !m.received.contains(i) ==> fec_set_index_of(b) <= i
                < fec_set_index_of(b) + 32,
{
    lemma_step_frame(m, b, recovery, next, segments);
    if takes(m, b) {
        let own = fec_set_index_of(b);
        let held = m.set(own).inserted(b);
        let fresh = fresh_with(m, b, recovery);
        assert(m.recovers(b, recovery) == (recovery && held.can_recover()));
        assert(recovery && held.can_recover() ==> held.recovered().valid()) by {
            reveal(restores);
        }
        lemma_fresh_arrived(m, b, recovery, own);
        assert forall|i: int| #[trigger]
            next.received.contains(i) && !m.received.contains(i) implies own <= i < own + 32 by {
            assert(index_set(fresh).contains(i));
            let j = choose|j: int| 0 <= j < fresh.len() && #[trigger] fresh[j] == i;
            assert(own <= fresh[j] < own + 32);
        }
    }
}

/// A complete run stays one, whatever shred comes next.
pub proof fn lemma_step_runs_stay(
    m: SlotModel,
    b: Seq<u8>,
    recovery: bool,
    next: SlotModel,
    segments: Seq<SegmentModel>,
    first: int,
    last: int,
)
    requires
        step(m, b, recovery, next, segments),
        is_run(m.received, m.complete, first, last),
    ensures
        is_run(next.received, next.complete, first, last),
{
    lemma_step_frame(m, b, recovery, next, segments);
    if takes(m, b) {
        let k = fec_set_index_of(b);
        let held = m.set(k).inserted(b);
        let after = set_after(m, b, recovery);
        let fresh = fresh_with(m, b, recovery);
        assert(m.recovers(b, recovery) == (recovery && held.can_recover()));
        reveal(restores);
        lemma_set_ready(m, b);
        if recovery && held.can_recover() {
            law_recovery_adds(held, k);
        }
        lemma_arrived(m, k, after, fresh);
        lemma_runs_stay(m.with_set(k, after), fresh, first, last);
    }
}

/// Whether `states` are those of a slot to which `shreds` are added one after the
/// other, each with or without recovery, `emitted` being what each of them completes.
pub open spec fn inserts(
    states: Seq<SlotModel>,
    shreds: Seq<Seq<u8>>,
    recovery: Seq<bool>,
    emitted: Seq<Seq<SegmentModel>>,
) -> bool {
    &&& states.len() == shreds.len() + 1
    &&& recovery.len() == shreds.len()
    &&& emitted.len() == shreds.len()
    &&& states[0] == SlotModel::empty()
    &&& forall|i: int|
        0 <= i < shreds.len() ==> step(
            states[i],
            #[trigger] shreds[i],
            recovery[i],
            states[i + 1],
            emitted[i],
        )
}

/// A slot that no shred has reached has no runs.
pub proof fn lemma_empty_slot_valid()
    ensures
        SlotModel::empty().valid(),
{
    let m = SlotModel::empty();
    assert forall|i: int| !#[trigger] m.in_run(i) by {
        if m.in_run(i) {
            let (first, last) = m.run_of(i);
            assert(m.received.contains(first));
        }
    }
}

/// What the first `n` inserts emit.
proof fn lemma_inserts(
    states: Seq<SlotModel>,
    shreds: Seq<Seq<u8>>,
    recovery: Seq<bool>,
    emitted: Seq<Seq<SegmentModel>>,
    n: int,
)
    requires
        inserts(states, shreds, recovery, emitted),
        0 <= n <= shreds.len(),
    ensures
        states[n].valid(),
        emits(SlotModel::empty(), states[n], joined(emitted.take(n))),
    decreases n,
{
    if n == 0 {
        lemma_empty_slot_valid();
        assert(emitted.take(0) =~= Seq::empty());
    } else {
        let i = n - 1;
        lemma_inserts(states, shreds, recovery, emitted, i);
        let m = states[i];
        let next = states[n];
        assert(step(m, shreds[i], recovery[i], next, emitted[i]));
        assert forall|f: int, l: int| #[trigger] is_run(m.received, m.complete, f, l) implies
            is_run(next.received, next.complete, f, l) by {
            lemma_step_runs_stay(m, shreds[i], recovery[i], next, emitted[i], f, l);
        }
        lemma_emits_join(SlotModel::empty(), m, next, joined(emitted.take(i)), emitted[i]);
        assert(emitted.take(n).drop_last() =~= emitted.take(i));
        assert(emitted.take(n).last() == emitted[i]);
    }
}

/// Whatever shreds are added to a slot, and however, what has come out are its complete
/// runs: exactly one segment for each of them, no others, and none that overlap.
pub proof fn law_every_run_once(
    states: Seq<SlotModel>,
    shreds: Seq<Seq<u8>>,
    recovery: Seq<bool>,
    emitted: Seq<Seq<SegmentModel>>,
)
    requires
        inserts(states, shreds, recovery, emitted),
    ensures
        ({
            let m = states.last();
            let all = joined(emitted);
            &&& forall|s: int|
                0 <= s < all.len() ==> {
                    let first = (#[trigger] all[s]).shreds.start as int;
                    let last = all[s].shreds.end as int;
                    is_run(m.received, m.complete, first, last) && all[s].shreds == indexes(
                        first,
                        last,
                    )
                }
            &&& forall|s: int, t: int, i: int|
                #![trigger covers(all[s], i), covers(all[t], i)]
                0 <= s < t < all.len() && covers(all[s], i) ==> !covers(all[t], i)
            &&& forall|first: int, last: int| #[trigger]
                is_run(m.received, m.complete, first, last) ==> one_covers(all, first, last)
        }),
{
    let n = shreds.len() as int;
    let m = states[n];
    let all = joined(emitted);
    lemma_inserts(states, shreds, recovery, emitted, n);
    assert(emitted.take(n) =~= emitted);
    assert forall|s: int| 0 <= s < all.len() implies (#[trigger] all[s]).shreds == indexes(
        all[s].shreds.start as int,
        all[s].shreds.end as int,
    ) by {
        assert(!all[s].shreds.exhausted);
    }
    assert forall|first: int, last: int| #[trigger]
        is_run(m.received, m.complete, first, last) implies one_covers(all, first, last) by {
        lemma_run_has_one(m, all, first, last);
    }
}

/// Whether exactly one of the segments is that of the run `first..=last`.
pub open spec fn one_covers(all: Seq<SegmentModel>, first: int, last: int) -> bool {
    exists|s: int|
        0 <= s < all.len() && (#[trigger] all[s]).shreds == indexes(first, last) && forall|t: int|
            0 <= t < all.len() && t != s ==> (#[trigger] all[t]).shreds != indexes(first, last)
}

/// A run that is there has come out once.
proof fn lemma_run_has_one(m: SlotModel, all: Seq<SegmentModel>, first: int, last: int)
    requires
        m.valid(),
        emits(SlotModel::empty(), m, all),
        is_run(m.received, m.complete, first, last),
    ensures
        one_covers(all, first, last),
{
    assert(m.in_run(first));
    assert(m.consumed.contains(first));
    let s = choose|s: int| 0 <= s < all.len() && covers(all[s], first);
    assert(is_run(m.received, m.complete, all[s].shreds.start as int, all[s].shreds.end as int));
    law_run_unique(
        m.received,
        m.complete,
        first,
        (first, last),
        (all[s].shreds.start as int, all[s].shreds.end as int),
    );
    assert forall|t: int| 0 <= t < all.len() && t != s implies (#[trigger] all[t]).shreds
        != indexes(first, last) by {
        if all[t].shreds == indexes(first, last) {
            assert(covers(all[t], first));
            if s < t {
                assert(!covers(all[t], first));
            } else {
                assert(!covers(all[s], first));
            }
        }
    }
}

/// Whether a slot has done with the shred `b`: its place is taken, it is not needed any
/// more, or it disagrees with its FEC set.
#[verifier::opaque]
pub open spec fn settled(m: SlotModel, b: Seq<u8>) -> bool {
    let k = fec_set_index_of(b);
    let set = m.set(k);
    ||| all_consumed(m.consumed, k as int)
    ||| kind_of(b) == ShredKind::Data && m.received.contains(index_of(b) as int)
    ||| set.at(b) is Some
    ||| kind_of(b) == ShredKind::Code && set.is_complete()
    ||| merkle_root_of(b) is None
    ||| set.root is Some && set.root != merkle_root_of(b)
    ||| set.root is Some && set.signature != signature_of(b)
}

/// A shred that a slot has done with completes nothing.
pub proof fn lemma_settled_not_taken(m: SlotModel, b: Seq<u8>)
    requires
        m.valid(),
        valid_wire(b),
        settled(m, b),
    ensures
        !takes(m, b),
{
    reveal(settled);
    let k = fec_set_index_of(b);
    law_layout(b);
    lemma_indexes(b);
    if all_consumed(m.consumed, k as int) && kind_of(b) == ShredKind::Data {
        let i = index_of(b) as int;
        assert(m.consumed.contains(i));
        assert(m.in_run(i));
        let (first, last) = m.run_of(i);
        assert(m.received.contains(i));
    }
}

/// What a FEC set keeps when it takes a shred.
proof fn lemma_set_keeps(set: FecModel, b: Seq<u8>)
    requires
        set.valid(),
        valid_wire(b),
        set.insert_outcome(b) == Insert::New,
    ensures
        ({
            let held = set.inserted(b);
            &&& held.valid()
            &&& forall|p: int|
                0 <= p < 32 && (#[trigger] set.data[p]) is Some ==> held.data[p] is Some
            &&& forall|p: int|
                0 <= p < 32 && (#[trigger] set.code[p]) is Some ==> held.code[p] is Some
                    || held.is_complete()
            &&& held.root is Some
            &&& set.root is Some ==> held.root == set.root && held.signature == set.signature
            &&& held.at(b) is Some || held.is_complete()
            &&& kind_of(b) == ShredKind::Data ==> held.at(b) is Some
        }),
{
    law_layout(b);
    lemma_inserted(set, b);
}

/// What a FEC set keeps when its missing data shreds are recovered.
proof fn lemma_recovery_keeps(held: FecModel)
    requires
        held.valid(),
        held.can_recover(),
        held.recovered().valid(),
    ensures
        ({
            let after = held.recovered();
            &&& forall|p: int|
                0 <= p < 32 && (#[trigger] held.data[p]) is Some ==> after.data[p] is Some
            &&& forall|p: int|
                0 <= p < 32 && (#[trigger] held.code[p]) is Some ==> after.code[p] is Some
                    || after.is_complete()
            &&& after.root == held.root && after.signature == held.signature
        }),
{
    law_recovered_is_complete(held);
}

/// What a FEC set keeps through a step in which it takes a shred.
proof fn lemma_set_after_keeps(m: SlotModel, b: Seq<u8>, recovery: bool)
    requires
        m.valid(),
        valid_wire(b),
        takes(m, b),
        m.recovers(b, recovery) ==> restores(m.set(fec_set_index_of(b)).inserted(b)),
    ensures
        ({
            let set = m.set(fec_set_index_of(b));
            let after = set_after(m, b, recovery);
            &&& !set.is_complete()
            &&& forall|p: int|
                0 <= p < 32 && (#[trigger] set.data[p]) is Some ==> after.data[p] is Some
            &&& forall|p: int|
                0 <= p < 32 && (#[trigger] set.code[p]) is Some ==> after.code[p] is Some
                    || after.is_complete()
            &&& after.root is Some
            &&& set.root is Some ==> after.root == set.root && after.signature == set.signature
            &&& kind_of(b) == ShredKind::Data ==> after.at(b) is Some
            &&& kind_of(b) == ShredKind::Code ==> after.at(b) is Some || after.is_complete()
        }),
{
    let k = fec_set_index_of(b);
    let set = m.set(k);
    let held = set.inserted(b);
    law_layout(b);
    lemma_empty_valid();
    lemma_set_keeps(set, b);
    assert(!set.is_complete()) by {
        if set.is_complete() {
            lemma_num_shreds_bound(set.data);
        }
    }
    if recovery && held.can_recover() {
        assert(m.recovers(b, recovery));
        reveal(restores);
        lemma_recovery_keeps(held);
        if kind_of(b) == ShredKind::Data {
            assert(held.data[erasure_index_of(b)] is Some);
        } else if !held.is_complete() {
            assert(held.code[erasure_index_of(b) - 32] is Some);
        }
    }
}

/// What a slot has done with it has done with for good.
pub proof fn lemma_settled_stays(
    m: SlotModel,
    x: Seq<u8>,
    b: Seq<u8>,
    recovery: bool,
    next: SlotModel,
    segments: Seq<SegmentModel>,
)
    requires
        step(m, b, recovery, next, segments),
        valid_wire(x),
        settled(m, x),
    ensures
        settled(next, x),
{
    reveal(settled);
    lemma_step_frame(m, b, recovery, next, segments);
    law_layout(x);
    let k = fec_set_index_of(b);
    let kx = fec_set_index_of(x);
    assert forall|i: int| m.consumed.contains(i) implies #[trigger] next.consumed.contains(i) by {}
    assert(m.received.subset_of(next.received));
    if all_consumed(m.consumed, kx as int) {
        assert(all_consumed(next.consumed, kx as int));
    } else if takes(m, b) && kx == k && !all_consumed(next.consumed, k as int) {
        lemma_set_after_keeps(m, b, recovery);
        let set = m.set(k);
        if set.at(x) is Some {
            if kind_of(x) == ShredKind::Data {
                assert(set.data[erasure_index_of(x)] is Some);
            } else {
                assert(set.code[erasure_index_of(x) - 32] is Some);
            }
        }
    } else if takes(m, b) && kx != k {
        assert(next.set(kx) == m.set(kx) || all_consumed(next.consumed, kx as int));
    } else {
        assert(next.set(kx) == m.set(kx) || all_consumed(next.consumed, kx as int));
    }
}

/// A slot has done with a shred once it was added.
pub proof fn lemma_settled_after(
    m: SlotModel,
    b: Seq<u8>,
    recovery: bool,
    next: SlotModel,
    segments: Seq<SegmentModel>,
)
    requires
        step(m, b, recovery, next, segments),
    ensures
        settled(next, b),
{
    reveal(settled);
    if takes(m, b) {
        lemma_step_frame(m, b, recovery, next, segments);
        lemma_set_after_keeps(m, b, recovery);
    } else {
        assert(settled(m, b));
        lemma_settled_stays(m, b, b, recovery, next, segments);
    }
}

/// A slot has done with the shred that was added at `i` at any later time.
proof fn lemma_settled_since(
    states: Seq<SlotModel>,
    shreds: Seq<Seq<u8>>,
    recovery: Seq<bool>,
    emitted: Seq<Seq<SegmentModel>>,
    i: int,
    j: int,
)
    requires
        inserts(states, shreds, recovery, emitted),
        0 <= i < j <= shreds.len(),
    ensures
        settled(states[j], shreds[i]),
    decreases j,
{
    assert(step(states[i], shreds[i], recovery[i], states[i + 1], emitted[i]));
    if j == i + 1 {
        lemma_settled_after(states[i], shreds[i], recovery[i], states[j], emitted[i]);
    } else {
        let n = j - 1;
        lemma_settled_since(states, shreds, recovery, emitted, i, n);
        assert(step(states[n], shreds[n], recovery[n], states[n + 1], emitted[n]));
        lemma_settled_stays(states[n], shreds[i], shreds[n], recovery[n], states[j], emitted[n]);
    }
}

/// A shred that comes again, any time later, completes nothing and makes no shred
/// present, wherever it went the first time.
pub proof fn law_repeats_complete_nothing(
    states: Seq<SlotModel>,
    shreds: Seq<Seq<u8>>,
    recovery: Seq<bool>,
    emitted: Seq<Seq<SegmentModel>>,
    i: int,
    j: int,
)
    requires
        inserts(states, shreds, recovery, emitted),
        0 <= i < j < shreds.len(),
        shreds[i] == shreds[j],
    ensures
        emitted[j].len() == 0,
        states[j + 1].received == states[j].received,
        states[j + 1].complete == states[j].complete,
        states[j + 1].consumed == states[j].consumed,
{
    lemma_settled_since(states, shreds, recovery, emitted, i, j);
    assert(step(states[j], shreds[j], recovery[j], states[j + 1], emitted[j]));
    lemma_settled_not_taken(states[j], shreds[j]);
    lemma_step_frame(states[j], shreds[j], recovery[j], states[j + 1], emitted[j]);
}

/// Whether the FEC set of the shred `b` rejects it.
pub open spec fn rejects(m: SlotModel, b: Seq<u8>) -> bool {
    let k = fec_set_index_of(b);
    &&& kind_of(b) == ShredKind::Data ==> !m.received.contains(index_of(b) as int)
    &&& kind_of(b) == ShredKind::Code ==> !all_consumed(m.consumed, k as int)
    &&& m.set(k).insert_outcome(b) is Rejected
}

/// Whether adding the shred `b` runs a recovery that fails.
pub open spec fn fails(m: SlotModel, b: Seq<u8>, recovery: bool) -> bool {
    m.recovers(b, recovery) && m.set(fec_set_index_of(b)).inserted(b).recover_outcome() is Err
}

/// How many data shreds adding the shred `b` recovers.
pub open spec fn num_recovered(m: SlotModel, b: Seq<u8>, recovery: bool) -> nat {
    if m.recovers(b, recovery) {
        match m.set(fec_set_index_of(b)).inserted(b).recover_outcome() {
            Ok(recovered) => recovered.len(),
            Err(_) => 0,
        }
    } else {
        0
    }
}

/// What adding the shred `b` counts of shreds that are rejected or recovered.
pub proof fn law_insert_counts(m: SlotModel, b: Seq<u8>, recovery: bool, stats: Stats)
    ensures
        ({
            let after = m.inserted(b, recovery, stats).stats;
            &&& after.rejected == counted(
                stats.rejected,
                if rejects(m, b) {
                    1
                } else {
                    0
                },
            )
            &&& after.recovery_failures == counted(
                stats.recovery_failures,
                if fails(m, b, recovery) {
                    1
                } else {
                    0
                },
            )
            &&& after.recovered == counted(stats.recovered, num_recovered(m, b, recovery))
        }),
{
}

} // verus!

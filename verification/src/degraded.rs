//! What comes of packets that arrive in another order, are lost or were altered on the
//! way: the batches that would have come anyway, and counters that tell what happened.

use crate::block::{
    arrived_of, available, data_shreds, half_arrived, in_block, is_block, lemma_altered_rejected,
    lemma_leader_counts, lemma_num_true_grows, lemma_own_index, lemma_present_iff,
    lemma_push_contains, lemma_set_of_data,
};
use crate::deshredder::{lemma_segments_count_no_shreds, Config, DeshredderModel};
use crate::fec::num_true;
use crate::history::{fresh_with, law_insert_counts, lemma_step_frame, num_recovered, takes};
use crate::run::{
    accepted, are_blocks, batches_from, block_at, block_run, in_window, is_altered, is_for,
    law_same_can_be_had_gives_the_same_batches, law_window_keeps_slots, lemma_run_built,
    lemma_run_goes, lemma_run_starts, lemma_slot_step, run, same_can_be_had, segments_for, sent,
    shreds_for,
};
use crate::shred::{
    fec_set_index_of, index_of, kind_of, law_parsing_is_idempotent, merkle_root_of, parse_error,
    shred_bytes, slot_of, ShredKind,
};
use crate::slot::{index_set, set_of, step, SegmentModel, SlotModel};
use crate::stats::counted;
use vstd::prelude::*;

verus! {

/// Whether all packets that are accepted hold shreds as the leaders of `blocks` made
/// them.
pub open spec fn as_made(
    config: Config,
    packets: Seq<Seq<u8>>,
    blocks: Map<u64, Map<u32, Seq<Seq<u8>>>>,
) -> bool {
    forall|i: int|
        0 <= i < packets.len() && accepted(config, #[trigger] packets[i]) ==> in_block(
            shred_bytes(packets[i]),
            block_at(blocks, slot_of(shred_bytes(packets[i]))),
        )
}

/// Whether one of the first `n` packets brings the shred `x` to `slot`.
pub open spec fn one_brings(
    config: Config,
    packets: Seq<Seq<u8>>,
    slot: u64,
    n: int,
    x: Seq<u8>,
) -> bool {
    exists|i: int|
        0 <= i < n && is_for(config, #[trigger] packets[i], slot) && shred_bytes(packets[i]) == x
}

/// The shreds of a slot are those that a packet brings.
proof fn lemma_shreds_for(
    config: Config,
    packets: Seq<Seq<u8>>,
    slot: u64,
    n: int,
    x: Seq<u8>,
)
    requires
        0 <= n <= packets.len(),
    ensures
        shreds_for(config, packets, slot, n).contains(x) <==> one_brings(
            config,
            packets,
            slot,
            n,
            x,
        ),
    decreases n,
{
    if n > 0 {
        let earlier = shreds_for(config, packets, slot, n - 1);
        lemma_shreds_for(config, packets, slot, n - 1, x);
        lemma_push_contains(earlier, shred_bytes(packets[n - 1]), x);
        if one_brings(config, packets, slot, n, x) && !one_brings(config, packets, slot, n - 1, x) {
            let i = choose|i: int|
                0 <= i < n && is_for(config, #[trigger] packets[i], slot) && shred_bytes(
                    packets[i],
                ) == x;
            assert(i == n - 1);
        }
        if is_for(config, packets[n - 1], slot) && shred_bytes(packets[n - 1]) == x {
            assert(one_brings(config, packets, slot, n, x));
        }
    }
}

/// The same packets bring the same shreds.
proof fn lemma_same_shreds(
    config: Config,
    a: Seq<Seq<u8>>,
    b: Seq<Seq<u8>>,
    slot: u64,
    x: Seq<u8>,
)
    requires
        forall|p: Seq<u8>| #[trigger] a.contains(p) ==> b.contains(p),
        shreds_for(config, a, slot, a.len() as int).contains(x),
    ensures
        shreds_for(config, b, slot, b.len() as int).contains(x),
{
    lemma_shreds_for(config, a, slot, a.len() as int, x);
    lemma_shreds_for(config, b, slot, b.len() as int, x);
    let i = choose|i: int|
        0 <= i < a.len() && is_for(config, #[trigger] a[i], slot) && shred_bytes(a[i]) == x;
    assert(a.contains(a[i]));
    let j = choose|j: int| 0 <= j < b.len() && b[j] == a[i];
    assert(is_for(config, b[j], slot));
}

/// Whether of every FEC set of the blocks the same shreds are in either packets, or half
/// of its shreds are in both.
pub open spec fn same_or_half(
    config: Config,
    a: Seq<Seq<u8>>,
    b: Seq<Seq<u8>>,
    blocks: Map<u64, Map<u32, Seq<Seq<u8>>>>,
) -> bool {
    forall|slot: u64, k: u32| #[trigger]
        block_at(blocks, slot).contains_key(k) ==> {
            let whole = block_at(blocks, slot)[k];
            let from_a = arrived_of(whole, shreds_for(config, a, slot, a.len() as int));
            let from_b = arrived_of(whole, shreds_for(config, b, slot, b.len() as int));
            from_a == from_b || num_true(from_a) >= 32 && num_true(from_b) >= 32
        }
}

/// Half of a FEC set is as good as all of it.
proof fn lemma_same_or_half(
    config: Config,
    a: Seq<Seq<u8>>,
    b: Seq<Seq<u8>>,
    blocks: Map<u64, Map<u32, Seq<Seq<u8>>>>,
)
    requires
        are_blocks(blocks),
        same_or_half(config, a, b, blocks),
    ensures
        same_can_be_had(config, a, b, blocks),
{
    assert forall|slot: u64, i: int|
        available(
            block_at(blocks, slot),
            #[trigger] shreds_for(config, a, slot, a.len() as int),
            i,
        ) == #[trigger] available(
            block_at(blocks, slot),
            shreds_for(config, b, slot, b.len() as int),
            i,
        ) by {
        let sets = block_at(blocks, slot);
        let a_shreds = shreds_for(config, a, slot, a.len() as int);
        let b_shreds = shreds_for(config, b, slot, b.len() as int);
        if data_shreds(sets).contains_key(i) {
            let k = set_of(i) as u32;
            let p = i % 32;
            assert(sets.contains_key(k));
            let from_a = arrived_of(sets[k], a_shreds);
            let from_b = arrived_of(sets[k], b_shreds);
            assert(from_a[p] == a_shreds.contains(data_shreds(sets)[i]));
            assert(from_b[p] == b_shreds.contains(data_shreds(sets)[i]));
        }
    }
}

/// Where packets are lost, but of every FEC set of which one is lost half of the shreds
/// arrive, the same batches come out. The order of the packets does not matter either,
/// nor how often each comes.
pub proof fn law_half_of_each_set_is_enough(
    a_models: Seq<DeshredderModel>,
    a: Seq<Seq<u8>>,
    b_models: Seq<DeshredderModel>,
    b: Seq<Seq<u8>>,
    blocks: Map<u64, Map<u32, Seq<Seq<u8>>>>,
    low: u64,
)
    requires
        block_run(a_models, a, blocks, low),
        block_run(b_models, b, blocks, low),
        a_models[0].config == b_models[0].config,
        same_or_half(a_models[0].config, a, b, blocks),
    ensures
        batches_from(a_models, a, a.len() as int).to_multiset() == batches_from(
            b_models,
            b,
            b.len() as int,
        ).to_multiset(),
{
    lemma_same_or_half(a_models[0].config, a, b, blocks);
    law_same_can_be_had_gives_the_same_batches(a_models, a, b_models, b, blocks, low);
}

/// What is kept of packets is as they were made, and in their window.
proof fn lemma_kept(
    config: Config,
    all: Seq<Seq<u8>>,
    kept: Seq<Seq<u8>>,
    blocks: Map<u64, Map<u32, Seq<Seq<u8>>>>,
    low: u64,
)
    requires
        in_window(config, all, low),
        as_made(config, all, blocks),
        forall|p: Seq<u8>| #[trigger] kept.contains(p) ==> all.contains(p),
    ensures
        in_window(config, kept, low),
        as_made(config, kept, blocks),
        sent(config, kept, blocks),
        sent(config, all, blocks),
{
    assert forall|j: int| 0 <= j < kept.len() && parse_error(#[trigger] kept[j]) is None implies low
        <= slot_of(shred_bytes(kept[j])) <= low + config.slot_lookback by {
        assert(kept.contains(kept[j]));
        let i = choose|i: int| 0 <= i < all.len() && all[i] == kept[j];
        assert(parse_error(all[i]) is None);
    }
    assert forall|j: int|
        0 <= j < kept.len() && accepted(config, #[trigger] kept[j]) implies in_block(
        shred_bytes(kept[j]),
        block_at(blocks, slot_of(shred_bytes(kept[j]))),
    ) by {
        assert(kept.contains(kept[j]));
        let i = choose|i: int| 0 <= i < all.len() && all[i] == kept[j];
        assert(accepted(config, all[i]));
    }
}

/// The same packets in any order, each however often, give the same batches.
pub proof fn law_order_and_repetition_do_not_matter(
    a_models: Seq<DeshredderModel>,
    a: Seq<Seq<u8>>,
    b_models: Seq<DeshredderModel>,
    b: Seq<Seq<u8>>,
    blocks: Map<u64, Map<u32, Seq<Seq<u8>>>>,
    low: u64,
)
    requires
        run(a_models, a),
        run(b_models, b),
        a_models[0].recovery,
        b_models[0].recovery,
        a_models[0].config == b_models[0].config,
        in_window(a_models[0].config, a, low),
        are_blocks(blocks),
        as_made(a_models[0].config, a, blocks),
        forall|p: Seq<u8>| #[trigger] a.contains(p) <==> b.contains(p),
    ensures
        batches_from(a_models, a, a.len() as int).to_multiset() == batches_from(
            b_models,
            b,
            b.len() as int,
        ).to_multiset(),
{
    let config = a_models[0].config;
    lemma_kept(config, a, b, blocks, low);
    assert forall|slot: u64, k: u32| #[trigger]
        block_at(blocks, slot).contains_key(k) implies arrived_of(
        block_at(blocks, slot)[k],
        shreds_for(config, a, slot, a.len() as int),
    ) == arrived_of(
        block_at(blocks, slot)[k],
        shreds_for(config, b, slot, b.len() as int),
    ) by {
        let whole = block_at(blocks, slot)[k];
        let a_shreds = shreds_for(config, a, slot, a.len() as int);
        let b_shreds = shreds_for(config, b, slot, b.len() as int);
        assert forall|j: int| 0 <= j < 64 implies a_shreds.contains(whole[j])
            == b_shreds.contains(whole[j]) by {
            if a_shreds.contains(whole[j]) {
                lemma_same_shreds(config, a, b, slot, whole[j]);
            }
            if b_shreds.contains(whole[j]) {
                assert forall|p: Seq<u8>| #[trigger] b.contains(p) implies a.contains(p) by {
                    assert(a.contains(p) <==> b.contains(p));
                }
                lemma_same_shreds(config, b, a, slot, whole[j]);
            }
        }
        assert(arrived_of(whole, a_shreds) =~= arrived_of(whole, b_shreds));
    }
    law_half_of_each_set_is_enough(a_models, a, b_models, b, blocks, low);
}

/// Sequences that differ in order have the same elements.
proof fn lemma_permuted<A>(a: Seq<A>, b: Seq<A>)
    requires
        a.to_multiset() == b.to_multiset(),
    ensures
        forall|x: A| #[trigger] a.contains(x) <==> b.contains(x),
{
    a.to_multiset_ensures();
    b.to_multiset_ensures();
    assert forall|x: A| #[trigger] a.contains(x) <==> b.contains(x) by {
        assert(a.contains(x) <==> a.to_multiset().count(x) > 0);
        assert(b.contains(x) <==> b.to_multiset().count(x) > 0);
    }
}

/// Packets pushed in another order give the same batches.
pub proof fn law_order_does_not_matter(
    a_models: Seq<DeshredderModel>,
    a: Seq<Seq<u8>>,
    b_models: Seq<DeshredderModel>,
    b: Seq<Seq<u8>>,
    blocks: Map<u64, Map<u32, Seq<Seq<u8>>>>,
    low: u64,
)
    requires
        run(a_models, a),
        run(b_models, b),
        a_models[0].recovery,
        b_models[0].recovery,
        a_models[0].config == b_models[0].config,
        in_window(a_models[0].config, a, low),
        are_blocks(blocks),
        as_made(a_models[0].config, a, blocks),
        a.to_multiset() == b.to_multiset(),
    ensures
        batches_from(a_models, a, a.len() as int).to_multiset() == batches_from(
            b_models,
            b,
            b.len() as int,
        ).to_multiset(),
{
    lemma_permuted(a, b);
    law_order_and_repetition_do_not_matter(a_models, a, b_models, b, blocks, low);
}

/// How many of the first `n` packets hold a shred that was altered on its way and comes
/// in time to be found out.
pub open spec fn num_altered(
    config: Config,
    packets: Seq<Seq<u8>>,
    blocks: Map<u64, Map<u32, Seq<Seq<u8>>>>,
    n: int,
) -> nat
    decreases n,
{
    if n <= 0 {
        0
    } else {
        let here: nat = if is_altered(config, packets, blocks, n - 1) {
            1
        } else {
            0
        };
        num_altered(config, packets, blocks, n - 1) + here
    }
}

/// How many data shreds are recovered with the first `n` packets.
pub open spec fn num_rebuilt(
    models: Seq<DeshredderModel>,
    packets: Seq<Seq<u8>>,
    n: int,
) -> nat
    decreases n,
{
    if n <= 0 {
        0
    } else {
        let b = shred_bytes(packets[n - 1]);
        num_rebuilt(models, packets, n - 1) + if accepted(models[0].config, packets[n - 1]) {
            num_recovered(models[n - 1].slot(slot_of(b)), b, true)
        } else {
            0nat
        }
    }
}

/// Counting on.
proof fn lemma_counted(counter: u64, a: nat, b: nat)
    ensures
        counted(counted(counter, a), b) == counted(counter, a + b),
        counted(counter, 0) == counter,
{
}

/// What a packet with a shred of a block, or with one that was altered in time, counts.
proof fn lemma_packet_counts(
    models: Seq<DeshredderModel>,
    packets: Seq<Seq<u8>>,
    blocks: Map<u64, Map<u32, Seq<Seq<u8>>>>,
    low: u64,
    i: int,
)
    requires
        block_run(models, packets, blocks, low),
        0 <= i < packets.len(),
    ensures
        ({
            let config = models[0].config;
            let b = shred_bytes(packets[i]);
            let before = models[i].stats;
            let after = models[i + 1].stats;
            &&& after.recovery_failures == before.recovery_failures
            &&& after.rejected == counted(
                before.rejected,
                if is_altered(config, packets, blocks, i) {
                    1
                } else {
                    0
                },
            )
            &&& after.recovered == counted(
                before.recovered,
                if accepted(config, packets[i]) {
                    num_recovered(models[i].slot(slot_of(b)), b, true)
                } else {
                    0
                },
            )
        }),
{
    let config = models[0].config;
    let b = shred_bytes(packets[i]);
    let slot = slot_of(b);
    let m = models[i].slot(slot);
    law_window_keeps_slots(models, packets, low, i);
    lemma_run_goes(models, packets, i);
    lemma_counted(models[i].stats.rejected, 0, 0);
    lemma_counted(models[i].stats.recovered, 0, 0);
    lemma_counted(models[i].stats.recovery_failures, 0, 0);
    if accepted(config, packets[i]) {
        let sets = block_at(blocks, slot);
        let shreds = shreds_for(config, packets, slot, i);
        let all = segments_for(models, packets, slot, i);
        lemma_run_built(models, packets, blocks, low, slot, i);
        lemma_slot_step(models, packets, low, slot, i);
        lemma_segments_count_no_shreds(
            models[i].segments(packets[i]),
            models[i].assembled(packets[i]).stats,
        );
        law_insert_counts(m, b, true, models[i].packet_counted());
        if is_altered(config, packets, blocks, i) {
            lemma_altered_rejected(sets, m, shreds, all, b);
        } else {
            lemma_leader_counts(sets, m, shreds, all, b);
        }
    }
}

/// What the first `n` packets count.
proof fn lemma_counts(
    models: Seq<DeshredderModel>,
    packets: Seq<Seq<u8>>,
    blocks: Map<u64, Map<u32, Seq<Seq<u8>>>>,
    low: u64,
    n: int,
)
    requires
        block_run(models, packets, blocks, low),
        0 <= n <= packets.len(),
    ensures
        models[n].stats.recovery_failures == models[0].stats.recovery_failures,
        models[n].stats.rejected == counted(
            models[0].stats.rejected,
            num_altered(models[0].config, packets, blocks, n),
        ),
        models[n].stats.recovered == counted(
            models[0].stats.recovered,
            num_rebuilt(models, packets, n),
        ),
    decreases n,
{
    let start = models[0].stats;
    if n == 0 {
        lemma_counted(start.rejected, 0, 0);
        lemma_counted(start.recovered, 0, 0);
    } else {
        let i = n - 1;
        lemma_counts(models, packets, blocks, low, i);
        lemma_packet_counts(models, packets, blocks, low, i);
        let altered: nat = if is_altered(models[0].config, packets, blocks, i) {
            1
        } else {
            0
        };
        let b = shred_bytes(packets[i]);
        let rebuilt: nat = if accepted(models[0].config, packets[i]) {
            num_recovered(models[i].slot(slot_of(b)), b, true)
        } else {
            0
        };
        lemma_counted(
            start.rejected,
            num_altered(models[0].config, packets, blocks, i),
            altered,
        );
        lemma_counted(start.recovered, num_rebuilt(models, packets, i), rebuilt);
    }
}

/// The indexes of the data shreds that are recovered with the shred `b`.
pub open spec fn recovered_with(m: SlotModel, b: Seq<u8>) -> Seq<u32> {
    if m.recovers(b, true) {
        match m.set(fec_set_index_of(b)).inserted(b).recover_outcome() {
            Ok(recovered) => recovered,
            Err(_) => Seq::empty(),
        }
    } else {
        Seq::empty()
    }
}

/// A data shred that becomes present with a shred other than itself is recovered.
proof fn lemma_gained(
    sets: Map<u32, Seq<Seq<u8>>>,
    m: SlotModel,
    b: Seq<u8>,
    next: SlotModel,
    segments: Seq<SegmentModel>,
    index: int,
)
    requires
        is_block(sets),
        step(m, b, true, next, segments),
        takes(m, b) ==> in_block(b, sets),
        next.received.contains(index),
        !m.received.contains(index),
        data_shreds(sets)[index] != b,
    ensures
        exists|j: int|
            0 <= j < recovered_with(m, b).len() && #[trigger] recovered_with(m, b)[j] == index,
{
    lemma_step_frame(m, b, true, next, segments);
    assert(takes(m, b));
    let held = m.set(fec_set_index_of(b)).inserted(b);
    let fresh = fresh_with(m, b, true);
    let rest = recovered_with(m, b);
    assert(m.recovers(b, true) == held.can_recover());
    assert(index_set(fresh).contains(index));
    let j = choose|j: int| 0 <= j < fresh.len() && #[trigger] fresh[j] == index;
    if kind_of(b) == ShredKind::Data {
        lemma_own_index(sets, b);
        assert(fresh =~= seq![index_of(b)] + rest);
        assert(rest[j - 1] == index);
    } else {
        assert(fresh =~= rest);
        assert(rest[j] == index);
    }
}

/// Whether the data shreds named in `lost`, by slot and index, are present after the
/// first `n` packets though none of these brought them.
pub open spec fn present_though_lost(
    models: Seq<DeshredderModel>,
    packets: Seq<Seq<u8>>,
    blocks: Map<u64, Map<u32, Seq<Seq<u8>>>>,
    n: int,
    lost: Set<(u64, int)>,
) -> bool {
    forall|place: (u64, int)| #[trigger]
        lost.contains(place) ==> {
            &&& models[n].slot(place.0).received.contains(place.1)
            &&& !shreds_for(models[0].config, packets, place.0, n).contains(
                data_shreds(block_at(blocks, place.0))[place.1],
            )
        }
}

/// A data shred that is present though it was lost was recovered with the last packet,
/// or present before it.
proof fn lemma_gained_in_run(
    models: Seq<DeshredderModel>,
    packets: Seq<Seq<u8>>,
    blocks: Map<u64, Map<u32, Seq<Seq<u8>>>>,
    low: u64,
    n: int,
    lost: Set<(u64, int)>,
    place: (u64, int),
)
    requires
        block_run(models, packets, blocks, low),
        0 < n <= packets.len(),
        present_though_lost(models, packets, blocks, n, lost),
        lost.contains(place),
    ensures
        !shreds_for(models[0].config, packets, place.0, n - 1).contains(
            data_shreds(block_at(blocks, place.0))[place.1],
        ),
        !models[n - 1].slot(place.0).received.contains(place.1) ==> is_for(
            models[0].config,
            packets[n - 1],
            place.0,
        ) && exists|j: int|
            0 <= j < recovered_with(
                models[n - 1].slot(place.0),
                shred_bytes(packets[n - 1]),
            ).len() && #[trigger] recovered_with(
                models[n - 1].slot(place.0),
                shred_bytes(packets[n - 1]),
            )[j] == place.1,
{
    let i = n - 1;
    let config = models[0].config;
    let slot = place.0;
    let b = shred_bytes(packets[i]);
    let sets = block_at(blocks, slot);
    let shreds = shreds_for(config, packets, slot, i);
    lemma_push_contains(shreds, b, data_shreds(sets)[place.1]);
    lemma_slot_step(models, packets, low, slot, i);
    if !models[i].slot(slot).received.contains(place.1) {
        lemma_run_built(models, packets, blocks, low, slot, i);
        let m = models[i].slot(slot);
        if is_altered(config, packets, blocks, i) {
            lemma_altered_rejected(sets, m, shreds, segments_for(models, packets, slot, i), b);
        }
        lemma_gained(sets, m, b, models[n].slot(slot), models[i].segments(packets[i]), place.1);
    }
}

/// Every data shred that is present though it was lost was recovered.
proof fn lemma_lost_are_rebuilt(
    models: Seq<DeshredderModel>,
    packets: Seq<Seq<u8>>,
    blocks: Map<u64, Map<u32, Seq<Seq<u8>>>>,
    low: u64,
    n: int,
    lost: Set<(u64, int)>,
)
    requires
        block_run(models, packets, blocks, low),
        0 <= n <= packets.len(),
        lost.finite(),
        present_though_lost(models, packets, blocks, n, lost),
    ensures
        lost.len() <= num_rebuilt(models, packets, n),
    decreases n,
{
    if n == 0 {
        assert forall|place: (u64, int)| !#[trigger] lost.contains(place) by {
            if lost.contains(place) {
                lemma_run_starts(models, packets, place.0);
            }
        }
        assert(lost =~= Set::empty());
    } else {
        let i = n - 1;
        let kept = lost.filter(
            |place: (u64, int)| models[i].slot(place.0).received.contains(place.1),
        );
        let b = shred_bytes(packets[i]);
        let to = slot_of(b);
        let indexes = recovered_with(models[i].slot(to), b);
        let places = indexes.map_values(|index: u32| (to, index as int));
        vstd::set_lib::lemma_len_subset(kept, lost);
        assert(present_though_lost(models, packets, blocks, i, kept)) by {
            assert forall|place: (u64, int)| #[trigger] kept.contains(place) implies {
                &&& models[i].slot(place.0).received.contains(place.1)
                &&& !shreds_for(models[0].config, packets, place.0, i).contains(
                    data_shreds(block_at(blocks, place.0))[place.1],
                )
            } by {
                lemma_gained_in_run(models, packets, blocks, low, n, lost, place);
            }
        }
        lemma_lost_are_rebuilt(models, packets, blocks, low, i, kept);
        if accepted(models[0].config, packets[i]) {
            assert forall|place: (u64, int)| #[trigger] lost.contains(place) implies kept.union(
                places.to_set(),
            ).contains(place) by {
                lemma_gained_in_run(models, packets, blocks, low, n, lost, place);
                if !kept.contains(place) {
                    let j = choose|j: int| 0 <= j < indexes.len() && #[trigger] indexes[j]
                        == place.1;
                    assert(places[j] == place);
                }
            }
            places.lemma_cardinality_of_set();
            vstd::seq_lib::seq_to_set_is_finite(places);
            vstd::set_lib::lemma_len_union(kept, places.to_set());
            vstd::set_lib::lemma_len_subset(lost, kept.union(places.to_set()));
        } else {
            assert forall|place: (u64, int)| #[trigger] lost.contains(place) implies kept.contains(
                place,
            ) by {
                lemma_gained_in_run(models, packets, blocks, low, n, lost, place);
            }
            assert(lost =~= kept);
        }
    }
}

/// Whether the data shreds named in `lost`, by slot and index, can be had from the packets
/// though none of these brings them.
pub open spec fn lost_but_had(
    config: Config,
    packets: Seq<Seq<u8>>,
    blocks: Map<u64, Map<u32, Seq<Seq<u8>>>>,
    lost: Set<(u64, int)>,
) -> bool {
    forall|place: (u64, int)| #[trigger]
        lost.contains(place) ==> {
            let sets = block_at(blocks, place.0);
            let shreds = shreds_for(config, packets, place.0, packets.len() as int);
            available(sets, shreds, place.1) && !shreds.contains(data_shreds(sets)[place.1])
        }
}

/// What can be had is present.
proof fn lemma_had_is_present(
    models: Seq<DeshredderModel>,
    packets: Seq<Seq<u8>>,
    blocks: Map<u64, Map<u32, Seq<Seq<u8>>>>,
    low: u64,
    slot: u64,
    index: int,
)
    requires
        block_run(models, packets, blocks, low),
        available(
            block_at(blocks, slot),
            shreds_for(models[0].config, packets, slot, packets.len() as int),
            index,
        ),
    ensures
        models[packets.len() as int].slot(slot).received.contains(index),
{
    let n = packets.len() as int;
    lemma_run_built(models, packets, blocks, low, slot, n);
    lemma_present_iff(
        block_at(blocks, slot),
        models[n].slot(slot),
        shreds_for(models[0].config, packets, slot, n),
        segments_for(models, packets, slot, n),
        index,
    );
}

/// The shreds that were altered on their way and come in time to be found out are
/// rejected, and no others. No recovery fails. Every data shred that was lost but can be
/// had is recovered.
pub proof fn law_lost_shreds_are_recovered(
    models: Seq<DeshredderModel>,
    packets: Seq<Seq<u8>>,
    blocks: Map<u64, Map<u32, Seq<Seq<u8>>>>,
    low: u64,
    lost: Set<(u64, int)>,
)
    requires
        block_run(models, packets, blocks, low),
        lost.finite(),
        lost_but_had(models[0].config, packets, blocks, lost),
    ensures
        ({
            let n = packets.len() as int;
            let start = models[0].stats;
            let end = models[n].stats;
            &&& end.rejected == counted(
                start.rejected,
                num_altered(models[0].config, packets, blocks, n),
            )
            &&& end.recovery_failures == start.recovery_failures
            &&& end.recovered == counted(start.recovered, num_rebuilt(models, packets, n))
            &&& num_rebuilt(models, packets, n) >= lost.len()
        }),
{
    let n = packets.len() as int;
    lemma_counts(models, packets, blocks, low, n);
    assert(present_though_lost(models, packets, blocks, n, lost)) by {
        assert forall|place: (u64, int)| #[trigger] lost.contains(place) implies {
            &&& models[n].slot(place.0).received.contains(place.1)
            &&& !shreds_for(models[0].config, packets, place.0, n).contains(
                data_shreds(block_at(blocks, place.0))[place.1],
            )
        } by {
            lemma_had_is_present(models, packets, blocks, low, place.0, place.1);
        }
    }
    lemma_lost_are_rebuilt(models, packets, blocks, low, n, lost);
}

/// Slot and index of the shred in a packet.
pub open spec fn place_of(packet: Seq<u8>) -> (u64, int) {
    (slot_of(shred_bytes(packet)), index_of(shred_bytes(packet)) as int)
}

/// Whether `a` are the packets `b`, but that data shreds in some of them were altered on
/// their way. Each of these comes in time to be found out, and half of its FEC set
/// arrives.
pub open spec fn altered_on_the_way(
    config: Config,
    b: Seq<Seq<u8>>,
    a: Seq<Seq<u8>>,
    blocks: Map<u64, Map<u32, Seq<Seq<u8>>>>,
) -> bool {
    &&& a.len() == b.len()
    &&& forall|i: int|
        0 <= i < a.len() ==> #[trigger] a[i] == b[i] || {
            let x = shred_bytes(a[i]);
            &&& is_altered(config, a, blocks, i)
            &&& kind_of(x) == ShredKind::Data
            &&& half_arrived(
                block_at(blocks, slot_of(x)),
                shreds_for(config, a, slot_of(x), a.len() as int),
                index_of(x) as int,
            )
            &&& accepted(config, b[i])
            &&& place_of(b[i]) == place_of(a[i])
            &&& fec_set_index_of(shred_bytes(b[i])) == fec_set_index_of(x)
        }
}

/// What was altered is no shred of the block.
proof fn lemma_altered_is_foreign(
    config: Config,
    packets: Seq<Seq<u8>>,
    blocks: Map<u64, Map<u32, Seq<Seq<u8>>>>,
    i: int,
)
    requires
        are_blocks(blocks),
        is_altered(config, packets, blocks, i),
    ensures
        !in_block(
            shred_bytes(packets[i]),
            block_at(blocks, slot_of(shred_bytes(packets[i]))),
        ),
{
    let x = shred_bytes(packets[i]);
    let sets = block_at(blocks, slot_of(x));
    let whole = sets[fec_set_index_of(x)];
    assert(is_block(sets));
    if whole.contains(x) {
        let j = choose|j: int| 0 <= j < whole.len() && whole[j] == x;
        assert(merkle_root_of(whole[j]) == merkle_root_of(whole[0]));
    }
}

/// Nothing of what was sent as it was made counts as altered.
proof fn lemma_none_altered(
    config: Config,
    packets: Seq<Seq<u8>>,
    blocks: Map<u64, Map<u32, Seq<Seq<u8>>>>,
    n: int,
)
    requires
        are_blocks(blocks),
        as_made(config, packets, blocks),
        0 <= n <= packets.len(),
    ensures
        num_altered(config, packets, blocks, n) == 0,
    decreases n,
{
    if n > 0 {
        lemma_none_altered(config, packets, blocks, n - 1);
        if is_altered(config, packets, blocks, n - 1) {
            lemma_altered_is_foreign(config, packets, blocks, n - 1);
            assert(accepted(config, packets[n - 1]));
        }
    }
}

/// Whether `kept` are some of the packets `all`, and of every FEC set of which a shred
/// is not among them half of the shreds are.
pub open spec fn lost_some(
    config: Config,
    all: Seq<Seq<u8>>,
    kept: Seq<Seq<u8>>,
    blocks: Map<u64, Map<u32, Seq<Seq<u8>>>>,
) -> bool {
    &&& forall|p: Seq<u8>| #[trigger] kept.contains(p) ==> all.contains(p)
    &&& forall|slot: u64, k: u32| #[trigger]
        block_at(blocks, slot).contains_key(k) ==> {
            let whole = block_at(blocks, slot)[k];
            let of_all = arrived_of(whole, shreds_for(config, all, slot, all.len() as int));
            let of_kept = arrived_of(whole, shreds_for(config, kept, slot, kept.len() as int));
            of_all == of_kept || num_true(of_kept) >= 32
        }
}

/// Packets of which some are lost give the same of a FEC set, or half of it.
proof fn lemma_lost_some(
    config: Config,
    all: Seq<Seq<u8>>,
    kept: Seq<Seq<u8>>,
    blocks: Map<u64, Map<u32, Seq<Seq<u8>>>>,
)
    requires
        lost_some(config, all, kept, blocks),
    ensures
        same_or_half(config, all, kept, blocks),
{
    assert forall|slot: u64, k: u32| #[trigger] block_at(blocks, slot).contains_key(k) implies {
        let whole = block_at(blocks, slot)[k];
        let of_all = arrived_of(whole, shreds_for(config, all, slot, all.len() as int));
        let of_kept = arrived_of(whole, shreds_for(config, kept, slot, kept.len() as int));
        of_all == of_kept || num_true(of_all) >= 32 && num_true(of_kept) >= 32
    } by {
        let whole = block_at(blocks, slot)[k];
        let all_shreds = shreds_for(config, all, slot, all.len() as int);
        let kept_shreds = shreds_for(config, kept, slot, kept.len() as int);
        let of_all = arrived_of(whole, all_shreds);
        let of_kept = arrived_of(whole, kept_shreds);
        assert forall|j: int| 0 <= j < of_kept.len() && of_kept[j] implies of_all[j] by {
            lemma_same_shreds(config, kept, all, slot, whole[j]);
        }
        lemma_num_true_grows(of_kept, of_all);
    }
}

/// Where packets are lost, but of every FEC set of which one is lost half of the shreds
/// are kept, the same batches come out. No shred is rejected, no recovery fails, and the
/// data shreds that were lost are recovered: at least as many are counted.
pub proof fn law_lost_packets_change_no_batch(
    all_models: Seq<DeshredderModel>,
    all: Seq<Seq<u8>>,
    kept_models: Seq<DeshredderModel>,
    kept: Seq<Seq<u8>>,
    blocks: Map<u64, Map<u32, Seq<Seq<u8>>>>,
    low: u64,
    lost: Set<(u64, int)>,
)
    requires
        run(all_models, all),
        run(kept_models, kept),
        all_models[0].recovery,
        kept_models[0].recovery,
        all_models[0].config == kept_models[0].config,
        in_window(all_models[0].config, all, low),
        are_blocks(blocks),
        as_made(all_models[0].config, all, blocks),
        lost_some(all_models[0].config, all, kept, blocks),
        lost.finite(),
        forall|place: (u64, int)| #[trigger]
            lost.contains(place) ==> is_lost(all_models[0].config, all, kept, blocks, place),
    ensures
        batches_from(all_models, all, all.len() as int).to_multiset() == batches_from(
            kept_models,
            kept,
            kept.len() as int,
        ).to_multiset(),
        ({
            let n = kept.len() as int;
            let start = kept_models[0].stats;
            let end = kept_models[n].stats;
            &&& end.rejected == start.rejected
            &&& end.recovery_failures == start.recovery_failures
            &&& end.recovered == counted(start.recovered, num_rebuilt(kept_models, kept, n))
            &&& num_rebuilt(kept_models, kept, n) >= lost.len()
        }),
{
    let config = all_models[0].config;
    let n = kept.len() as int;
    lemma_kept(config, all, kept, blocks, low);
    lemma_lost_some(config, all, kept, blocks);
    law_half_of_each_set_is_enough(all_models, all, kept_models, kept, blocks, low);
    lemma_none_altered(config, kept, blocks, n);
    assert forall|place: (u64, int)| #[trigger] lost.contains(place) implies {
        let sets = block_at(blocks, place.0);
        let shreds = shreds_for(config, kept, place.0, n);
        available(sets, shreds, place.1) && !shreds.contains(data_shreds(sets)[place.1])
    } by {
        lemma_is_lost(config, all, kept, blocks, place);
    }
    law_lost_shreds_are_recovered(kept_models, kept, blocks, low, lost);
    lemma_counted(kept_models[0].stats.rejected, 0, 0);
}

/// Whether a data shred, named by slot and index, is in one of the packets `all` but in
/// none of `kept`.
pub open spec fn is_lost(
    config: Config,
    all: Seq<Seq<u8>>,
    kept: Seq<Seq<u8>>,
    blocks: Map<u64, Map<u32, Seq<Seq<u8>>>>,
    place: (u64, int),
) -> bool {
    let data = data_shreds(block_at(blocks, place.0));
    &&& data.contains_key(place.1)
    &&& shreds_for(config, all, place.0, all.len() as int).contains(data[place.1])
    &&& !shreds_for(config, kept, place.0, kept.len() as int).contains(data[place.1])
}

/// What is lost can be had, for half of its FEC set is kept.
proof fn lemma_is_lost(
    config: Config,
    all: Seq<Seq<u8>>,
    kept: Seq<Seq<u8>>,
    blocks: Map<u64, Map<u32, Seq<Seq<u8>>>>,
    place: (u64, int),
)
    requires
        lost_some(config, all, kept, blocks),
        is_lost(config, all, kept, blocks, place),
    ensures
        available(
            block_at(blocks, place.0),
            shreds_for(config, kept, place.0, kept.len() as int),
            place.1,
        ),
{
    let sets = block_at(blocks, place.0);
    let k = set_of(place.1) as u32;
    let p = place.1 % 32;
    let all_shreds = shreds_for(config, all, place.0, all.len() as int);
    let kept_shreds = shreds_for(config, kept, place.0, kept.len() as int);
    assert(sets.contains_key(k));
    assert(arrived_of(sets[k], all_shreds)[p] != arrived_of(sets[k], kept_shreds)[p]);
}

/// A packet that differs from what was sent is altered; one that does not is not.
proof fn lemma_altered_differ(
    config: Config,
    b: Seq<Seq<u8>>,
    a: Seq<Seq<u8>>,
    blocks: Map<u64, Map<u32, Seq<Seq<u8>>>>,
    i: int,
)
    requires
        are_blocks(blocks),
        as_made(config, b, blocks),
        altered_on_the_way(config, b, a, blocks),
        0 <= i < a.len(),
    ensures
        is_altered(config, a, blocks, i) <==> a[i] != b[i],
{
    if is_altered(config, a, blocks, i) && a[i] == b[i] {
        lemma_altered_is_foreign(config, a, blocks, i);
        assert(accepted(config, b[i]));
    }
}

/// The place of a shred that was altered can be had.
proof fn lemma_altered_place(
    config: Config,
    b: Seq<Seq<u8>>,
    a: Seq<Seq<u8>>,
    blocks: Map<u64, Map<u32, Seq<Seq<u8>>>>,
    i: int,
)
    requires
        altered_on_the_way(config, b, a, blocks),
        0 <= i < a.len(),
        a[i] != b[i],
    ensures
        ({
            let x = shred_bytes(a[i]);
            let sets = block_at(blocks, slot_of(x));
            let shreds = shreds_for(config, a, slot_of(x), a.len() as int);
            &&& num_true(arrived_of(sets[fec_set_index_of(x)], shreds)) >= 32
            &&& available(sets, shreds, index_of(x) as int)
        }),
{
    let x = shred_bytes(a[i]);
    assert(is_altered(config, a, blocks, i));
    law_parsing_is_idempotent(a[i]);
    lemma_set_of_data(x);
}

/// What was altered leaves the rest of its FEC set, which is enough.
proof fn lemma_altered_same_or_half(
    config: Config,
    b: Seq<Seq<u8>>,
    a: Seq<Seq<u8>>,
    blocks: Map<u64, Map<u32, Seq<Seq<u8>>>>,
    slot: u64,
    k: u32,
)
    requires
        are_blocks(blocks),
        as_made(config, b, blocks),
        altered_on_the_way(config, b, a, blocks),
        block_at(blocks, slot).contains_key(k),
    ensures
        ({
            let whole = block_at(blocks, slot)[k];
            let from_a = arrived_of(whole, shreds_for(config, a, slot, a.len() as int));
            let from_b = arrived_of(whole, shreds_for(config, b, slot, b.len() as int));
            from_a == from_b || num_true(from_a) >= 32 && num_true(from_b) >= 32
        }),
{
    let n = a.len() as int;
    let sets = block_at(blocks, slot);
    let whole = sets[k];
    let a_shreds = shreds_for(config, a, slot, n);
    let b_shreds = shreds_for(config, b, slot, n);
    let from_a = arrived_of(whole, a_shreds);
    let from_b = arrived_of(whole, b_shreds);
    assert(is_block(sets));
    assert forall|j: int| 0 <= j < from_a.len() && from_a[j] implies from_b[j] by {
        lemma_kept_arrives(config, b, a, blocks, slot, k, j);
    }
    if exists|i: int| 0 <= i < n && hits(b, a, slot, k, i) {
        let i = choose|i: int| 0 <= i < n && hits(b, a, slot, k, i);
        lemma_altered_place(config, b, a, blocks, i);
        lemma_num_true_grows(from_a, from_b);
    } else {
        assert forall|j: int| 0 <= j < from_b.len() && from_b[j] implies from_a[j] by {
            lemma_unhit_arrives(config, b, a, blocks, slot, k, j);
        }
        assert(from_a =~= from_b);
    }
}

/// Whether packet `i` is one that was altered, of FEC set `k` of `slot`.
pub open spec fn hits(
    b: Seq<Seq<u8>>,
    a: Seq<Seq<u8>>,
    slot: u64,
    k: u32,
    i: int,
) -> bool {
    &&& a[i] != b[i]
    &&& slot_of(shred_bytes(a[i])) == slot
    &&& fec_set_index_of(shred_bytes(a[i])) == k
}

/// A shred of the block that arrives was sent.
proof fn lemma_kept_arrives(
    config: Config,
    b: Seq<Seq<u8>>,
    a: Seq<Seq<u8>>,
    blocks: Map<u64, Map<u32, Seq<Seq<u8>>>>,
    slot: u64,
    k: u32,
    j: int,
)
    requires
        are_blocks(blocks),
        altered_on_the_way(config, b, a, blocks),
        block_at(blocks, slot).contains_key(k),
        0 <= j < 64,
        shreds_for(config, a, slot, a.len() as int).contains(block_at(blocks, slot)[k][j]),
    ensures
        shreds_for(config, b, slot, b.len() as int).contains(block_at(blocks, slot)[k][j]),
{
    let n = a.len() as int;
    let sets = block_at(blocks, slot);
    let x = sets[k][j];
    lemma_shreds_for(config, a, slot, n, x);
    lemma_shreds_for(config, b, slot, n, x);
    let i = choose|i: int|
        0 <= i < n && is_for(config, #[trigger] a[i], slot) && shred_bytes(a[i]) == x;
    assert(is_block(sets));
    if a[i] != b[i] {
        lemma_altered_is_foreign(config, a, blocks, i);
        assert(fec_set_index_of(x) == k);
        assert(sets[k].contains(x));
    }
    assert(is_for(config, b[i], slot) && shred_bytes(b[i]) == x);
}

/// A shred that was sent arrives where none of its FEC set was altered.
proof fn lemma_unhit_arrives(
    config: Config,
    b: Seq<Seq<u8>>,
    a: Seq<Seq<u8>>,
    blocks: Map<u64, Map<u32, Seq<Seq<u8>>>>,
    slot: u64,
    k: u32,
    j: int,
)
    requires
        are_blocks(blocks),
        altered_on_the_way(config, b, a, blocks),
        block_at(blocks, slot).contains_key(k),
        0 <= j < 64,
        !exists|i: int| 0 <= i < a.len() && hits(b, a, slot, k, i),
        shreds_for(config, b, slot, b.len() as int).contains(block_at(blocks, slot)[k][j]),
    ensures
        shreds_for(config, a, slot, a.len() as int).contains(block_at(blocks, slot)[k][j]),
{
    let n = a.len() as int;
    let sets = block_at(blocks, slot);
    let x = sets[k][j];
    lemma_shreds_for(config, a, slot, n, x);
    lemma_shreds_for(config, b, slot, n, x);
    let i = choose|i: int|
        0 <= i < n && is_for(config, #[trigger] b[i], slot) && shred_bytes(b[i]) == x;
    assert(is_block(sets));
    assert(fec_set_index_of(x) == k);
    if a[i] != b[i] {
        assert(hits(b, a, slot, k, i));
    }
    assert(is_for(config, a[i], slot) && shred_bytes(a[i]) == x);
}

/// Where data shreds are altered on their way, after the first of their FEC set and with
/// half of the set intact, the same batches come out.
pub proof fn law_altered_shreds_change_no_batch(
    b_models: Seq<DeshredderModel>,
    b: Seq<Seq<u8>>,
    a_models: Seq<DeshredderModel>,
    a: Seq<Seq<u8>>,
    blocks: Map<u64, Map<u32, Seq<Seq<u8>>>>,
    low: u64,
)
    requires
        run(b_models, b),
        run(a_models, a),
        b_models[0].recovery,
        a_models[0].recovery,
        a_models[0].config == b_models[0].config,
        in_window(b_models[0].config, b, low),
        are_blocks(blocks),
        as_made(b_models[0].config, b, blocks),
        altered_on_the_way(b_models[0].config, b, a, blocks),
    ensures
        block_run(a_models, a, blocks, low),
        batches_from(a_models, a, a.len() as int).to_multiset() == batches_from(
            b_models,
            b,
            b.len() as int,
        ).to_multiset(),
{
    let config = b_models[0].config;
    assert(sent(config, b, blocks));
    assert forall|i: int| 0 <= i < a.len() && parse_error(#[trigger] a[i]) is None implies low
        <= slot_of(shred_bytes(a[i])) <= low + config.slot_lookback by {
        assert(parse_error(b[i]) is None);
        assert(place_of(b[i]).0 == place_of(a[i]).0);
    }
    assert(in_window(config, a, low));
    assert forall|i: int| 0 <= i < a.len() && accepted(config, #[trigger] a[i]) implies in_block(
        shred_bytes(a[i]),
        block_at(blocks, slot_of(shred_bytes(a[i]))),
    ) || is_altered(config, a, blocks, i) by {
        if a[i] == b[i] {
            assert(accepted(config, b[i]));
        }
    }
    assert(sent(config, a, blocks));
    assert(same_or_half(config, a, b, blocks)) by {
        assert forall|slot: u64, k: u32| #[trigger]
            block_at(blocks, slot).contains_key(k) implies {
            let whole = block_at(blocks, slot)[k];
            let from_a = arrived_of(whole, shreds_for(config, a, slot, a.len() as int));
            let from_b = arrived_of(whole, shreds_for(config, b, slot, b.len() as int));
            from_a == from_b || num_true(from_a) >= 32 && num_true(from_b) >= 32
        } by {
            lemma_altered_same_or_half(config, b, a, blocks, slot, k);
        }
    }
    law_half_of_each_set_is_enough(a_models, a, b_models, b, blocks, low);
}

/// The places of the shreds in those of the first `n` packets that were altered.
pub open spec fn altered_places(b: Seq<Seq<u8>>, a: Seq<Seq<u8>>, n: int) -> Set<(u64, int)>
    decreases n,
{
    if n <= 0 {
        Set::empty()
    } else if a[n - 1] != b[n - 1] {
        altered_places(b, a, n - 1).insert(place_of(a[n - 1]))
    } else {
        altered_places(b, a, n - 1)
    }
}

/// How many of the first `n` packets were altered.
pub open spec fn num_different(b: Seq<Seq<u8>>, a: Seq<Seq<u8>>, n: int) -> nat
    decreases n,
{
    if n <= 0 {
        0
    } else {
        num_different(b, a, n - 1) + if a[n - 1] != b[n - 1] {
            1nat
        } else {
            0nat
        }
    }
}

/// Whether no two of the packets that were altered have the same place.
pub open spec fn places_differ(b: Seq<Seq<u8>>, a: Seq<Seq<u8>>) -> bool {
    forall|i: int, j: int|
        0 <= i < j < a.len() && a[i] != b[i] && a[j] != b[j] ==> place_of(#[trigger] a[i])
            != place_of(#[trigger] a[j])
}

/// The packets that were altered have places, each its own.
proof fn lemma_altered_places(b: Seq<Seq<u8>>, a: Seq<Seq<u8>>, n: int)
    requires
        a.len() == b.len(),
        0 <= n <= a.len(),
        places_differ(b, a),
    ensures
        altered_places(b, a, n).finite(),
        altered_places(b, a, n).len() == num_different(b, a, n),
        forall|place: (u64, int)| #[trigger]
            altered_places(b, a, n).contains(place) ==> exists|i: int|
                0 <= i < n && a[i] != b[i] && place_of(#[trigger] a[i]) == place,
    decreases n,
{
    if n > 0 {
        lemma_altered_places(b, a, n - 1);
        let earlier = altered_places(b, a, n - 1);
        assert forall|place: (u64, int)| #[trigger]
            altered_places(b, a, n).contains(place) implies exists|i: int|
            0 <= i < n && a[i] != b[i] && place_of(#[trigger] a[i]) == place by {
            if earlier.contains(place) {
                let i = choose|i: int|
                    0 <= i < n - 1 && a[i] != b[i] && place_of(#[trigger] a[i]) == place;
                assert(place_of(a[i]) == place);
            } else {
                assert(place_of(a[n - 1]) == place);
            }
        }
        if a[n - 1] != b[n - 1] && earlier.contains(place_of(a[n - 1])) {
            let i = choose|i: int|
                0 <= i < n - 1 && a[i] != b[i] && place_of(#[trigger] a[i]) == place_of(a[n - 1]);
            assert(place_of(a[i]) != place_of(a[n - 1]));
        }
    }
}

/// The packets that differ are those that hold what was altered.
proof fn lemma_num_different(
    config: Config,
    b: Seq<Seq<u8>>,
    a: Seq<Seq<u8>>,
    blocks: Map<u64, Map<u32, Seq<Seq<u8>>>>,
    n: int,
)
    requires
        are_blocks(blocks),
        as_made(config, b, blocks),
        altered_on_the_way(config, b, a, blocks),
        0 <= n <= a.len(),
    ensures
        num_different(b, a, n) == num_altered(config, a, blocks, n),
    decreases n,
{
    if n > 0 {
        lemma_num_different(config, b, a, blocks, n - 1);
        lemma_altered_differ(config, b, a, blocks, n - 1);
    }
}

/// Where data shreds are altered on their way, after the first of their FEC set and with
/// half of the set intact, exactly those are rejected and no recovery fails. Where each
/// is in a place of its own, and comes in no other packet, at least as many are
/// recovered.
pub proof fn law_altered_shreds_are_rejected_and_recovered(
    b: Seq<Seq<u8>>,
    a_models: Seq<DeshredderModel>,
    a: Seq<Seq<u8>>,
    blocks: Map<u64, Map<u32, Seq<Seq<u8>>>>,
    low: u64,
)
    requires
        block_run(a_models, a, blocks, low),
        as_made(a_models[0].config, b, blocks),
        altered_on_the_way(a_models[0].config, b, a, blocks),
        places_differ(b, a),
        forall|i: int|
            0 <= i < a.len() && #[trigger] a[i] != b[i] ==> !shreds_for(
                a_models[0].config,
                a,
                place_of(a[i]).0,
                a.len() as int,
            ).contains(data_shreds(block_at(blocks, place_of(a[i]).0))[place_of(a[i]).1]),
    ensures
        ({
            let n = a.len() as int;
            let start = a_models[0].stats;
            let end = a_models[n].stats;
            &&& end.rejected == counted(start.rejected, num_different(b, a, n))
            &&& end.recovery_failures == start.recovery_failures
            &&& end.recovered == counted(start.recovered, num_rebuilt(a_models, a, n))
            &&& num_rebuilt(a_models, a, n) >= num_different(b, a, n)
        }),
{
    let config = a_models[0].config;
    let n = a.len() as int;
    let lost = altered_places(b, a, n);
    lemma_altered_places(b, a, n);
    lemma_num_different(config, b, a, blocks, n);
    assert forall|place: (u64, int)| #[trigger] lost.contains(place) implies {
        let sets = block_at(blocks, place.0);
        let shreds = shreds_for(config, a, place.0, n);
        available(sets, shreds, place.1) && !shreds.contains(data_shreds(sets)[place.1])
    } by {
        let i = choose|i: int| 0 <= i < n && a[i] != b[i] && place_of(#[trigger] a[i]) == place;
        lemma_altered_place(config, b, a, blocks, i);
    }
    law_lost_shreds_are_recovered(a_models, a, blocks, low, lost);
}

} // verus!

//! How a FEC set gathers its shreds: which it takes, when it has enough, and what it
//! rebuilds.

use crate::fec::{
    first_shred, lemma_all_taken, lemma_first_refused, lemma_inserted, lemma_missing_named,
    lemma_num_shreds_bound, lemma_num_true_add, lemma_template, num_shreds, rebuilt_bytes,
    rebuilt_error, reconstructed, taken, FecModel, Insert, RecoverError, Reject,
};
use crate::shred::{
    chained_root_of, erasure_index_of, erasure_shard_of, fec_set_index_of, index_of, kind_of,
    law_layout, lemma_indexes, merkle_root_of, parse_error, proof_size_of, resigned_of, slot_of,
    valid_wire, version_of, ShredKind,
};
use vstd::prelude::*;

verus! {

/// How many of the 64 places of a set hold a shred.
pub open spec fn held(m: FecModel) -> nat {
    (m.data + m.code).filter(|place: Option<Seq<u8>>| place is Some).len()
}

/// Counting the shreds counts the places that are taken.
proof fn lemma_places_counted(places: Seq<Option<Seq<u8>>>)
    ensures
        num_shreds(places) == places.filter(|place: Option<Seq<u8>>| place is Some).len(),
    decreases places.len(),
{
    reveal(Seq::filter);
    if places.len() > 0 {
        lemma_places_counted(places.drop_last());
        assert(taken(places).drop_last() =~= taken(places.drop_last()));
    }
}

/// A set is complete when none of its 32 data shreds is missing. Where one is, the
/// set can be recovered as soon as 32 of its 64 shreds are there.
pub proof fn law_half_is_enough(m: FecModel)
    requires
        m.valid(),
    ensures
        m.is_complete() <==> (forall|p: int| 0 <= p < 32 ==> (#[trigger] m.data[p]) is Some),
        m.can_recover() <==> held(m) >= 32 && !m.is_complete(),
{
    lemma_num_shreds_bound(m.data);
    lemma_num_shreds_bound(m.code);
    if forall|p: int| 0 <= p < 32 ==> (#[trigger] m.data[p]) is Some {
        lemma_all_taken(m.data);
    }
    lemma_places_counted(m.data + m.code);
    assert(taken(m.data + m.code) =~= taken(m.data) + taken(m.code));
    lemma_num_true_add(taken(m.data), taken(m.code));
}

/// The first shred of a set is taken whatever its root and signature are, if its
/// proof leads to a root at all.
pub proof fn law_first_shred_is_taken(b: Seq<u8>)
    requires
        valid_wire(b),
    ensures
        FecModel::empty().insert_outcome(b) == (match merkle_root_of(b) {
            Some(_) => Insert::New,
            None => Insert::Rejected(Reject::BadProof),
        }),
{
    law_layout(b);
    crate::fec::lemma_none_taken(32);
}

/// A shred that was taken fixes the root and the signature of its set. Another one,
/// for a place that is free, is taken exactly if it has the same root and signature,
/// and otherwise is rejected for what differs, the root before the signature.
pub proof fn law_shreds_of_a_set_agree(m: FecModel, a: Seq<u8>, b: Seq<u8>)
    requires
        m.valid(),
        valid_wire(a),
        valid_wire(b),
        m.insert_outcome(a) == Insert::New,
        kind_of(b) == ShredKind::Data ==> m.inserted(a).data[index_of(b) - fec_set_index_of(b)]
            is None,
        kind_of(b) == ShredKind::Code ==> m.inserted(a).code[erasure_index_of(b) - 32] is None
            && exists|p: int| 0 <= p < 32 && (#[trigger] m.inserted(a).data[p]) is None,
    ensures
        m.inserted(a).insert_outcome(b) == (if merkle_root_of(b) is None {
            Insert::Rejected(Reject::BadProof)
        } else if merkle_root_of(b) != merkle_root_of(a) {
            Insert::Rejected(Reject::MerkleRootMismatch)
        } else if b.take(64) != a.take(64) {
            Insert::Rejected(Reject::SignatureMismatch)
        } else {
            Insert::New
        }),
{
    law_layout(a);
    law_layout(b);
    lemma_inserted(m, a);
    law_half_is_enough(m.inserted(a));
}

/// A shred that was taken stands in its place and leaves the others where they are,
/// but for the code shreds of a set that it completes, which are let go. One that was
/// not taken leaves the set as it is.
pub proof fn law_place_of_a_shred(m: FecModel, b: Seq<u8>)
    requires
        m.valid(),
        valid_wire(b),
    ensures
        m.insert_outcome(b) != Insert::New ==> m.inserted(b) == m,
        m.insert_outcome(b) == Insert::New && kind_of(b) == ShredKind::Data ==> {
            let next = m.inserted(b);
            let place = index_of(b) - fec_set_index_of(b);
            &&& m.data[place] is None
            &&& next.data == m.data.update(place, Some(b))
            &&& if forall|p: int| 0 <= p < 32 ==> (#[trigger] next.data[p]) is Some {
                forall|p: int| 0 <= p < 32 ==> (#[trigger] next.code[p]) is None
            } else {
                next.code == m.code
            }
        },
        m.insert_outcome(b) == Insert::New && kind_of(b) == ShredKind::Code ==> {
            let next = m.inserted(b);
            let place = erasure_index_of(b) - 32;
            &&& m.code[place] is None
            &&& next.code == m.code.update(place, Some(b))
            &&& next.data == m.data
        },
{
    law_layout(b);
    lemma_inserted(m, b);
    law_half_is_enough(m.inserted(b));
}

/// A shred that comes again is a duplicate; a code shred of a set that has all its
/// data is not needed, whether it was there or not.
pub proof fn law_repeated_shred(m: FecModel, b: Seq<u8>)
    requires
        m.valid(),
        valid_wire(b),
    ensures
        kind_of(b) == ShredKind::Data ==> (m.insert_outcome(b) == Insert::Duplicate
            <==> m.data[index_of(b) - fec_set_index_of(b)] is Some),
        kind_of(b) == ShredKind::Data ==> m.insert_outcome(b) != Insert::Unneeded,
        kind_of(b) == ShredKind::Code ==> (m.insert_outcome(b) == Insert::Unneeded <==> (forall|
            p: int,
        |
            0 <= p < 32 ==> (#[trigger] m.data[p]) is Some)),
        kind_of(b) == ShredKind::Code ==> (m.insert_outcome(b) == Insert::Duplicate
            <==> m.code[erasure_index_of(b) - 32] is Some),
        m.insert_outcome(b) == Insert::New ==> m.inserted(b).insert_outcome(b)
            == Insert::Duplicate,
{
    law_layout(b);
    lemma_inserted(m, b);
    law_half_is_enough(m);
    if m.is_complete() {
        assert(m.code == crate::fec::no_shreds(32));
    }
}

/// Where the first code shred of a set stands for its headers, or its first data
/// shred where it has no code shred.
pub proof fn law_template(m: FecModel, p: int)
    requires
        m.valid(),
    ensures
        0 <= p < 32 && m.code[p] is Some && (forall|q: int|
            0 <= q < p ==> (#[trigger] m.code[q]) is None) ==> Some(m.template()) == m.code[p],
        0 <= p < 32 && m.data[p] is Some && (forall|q: int|
            0 <= q < p ==> (#[trigger] m.data[q]) is None) && (forall|q: int|
            0 <= q < 32 ==> (#[trigger] m.code[q]) is None) ==> Some(m.template()) == m.data[p],
{
    let places = m.code + m.data;
    if 0 <= p < 32 && m.code[p] is Some && (forall|q: int|
        0 <= q < p ==> (#[trigger] m.code[q]) is None) {
        assert forall|q: int| 0 <= q < p implies (#[trigger] places[q]) is None by {
            assert(places[q] == m.code[q]);
        }
        assert(places[p] == m.code[p]);
        lemma_first_is(places, p);
    }
    if 0 <= p < 32 && m.data[p] is Some && (forall|q: int|
        0 <= q < p ==> (#[trigger] m.data[q]) is None) && (forall|q: int|
        0 <= q < 32 ==> (#[trigger] m.code[q]) is None) {
        assert forall|q: int| 0 <= q < 32 + p implies (#[trigger] places[q]) is None by {
            if q < 32 {
                assert(places[q] == m.code[q]);
            } else {
                assert(places[q] == m.data[q - 32]);
            }
        }
        assert(places[32 + p] == m.data[p]);
        lemma_first_is(places, 32 + p);
    }
}

/// The first shred is the one before which there is none.
proof fn lemma_first_is(places: Seq<Option<Seq<u8>>>, p: int)
    requires
        0 <= p < places.len(),
        places[p] is Some,
        forall|q: int| 0 <= q < p ==> (#[trigger] places[q]) is None,
    ensures
        first_shred(places) == places[p],
    decreases places.len(),
{
    if p > 0 {
        assert(places[0] is None);
        let rest = places.drop_first();
        assert forall|q: int| 0 <= q < p - 1 implies (#[trigger] rest[q]) is None by {
            assert(rest[q] == places[q + 1]);
        }
        lemma_first_is(rest, p - 1);
    }
}

/// What a rebuilt shred is made of: the signature, the shard, then the chained root
/// of the template, a proof of zeros that is as long as the template's and, where
/// the template was signed again, its last 64 bytes.
pub proof fn law_rebuilt_is_made_of(signature: Seq<u8>, shard: Seq<u8>, template: Seq<u8>)
    requires
        valid_wire(template),
        signature.len() == 64,
        shard.len() == erasure_shard_of(template).len(),
    ensures
        ({
            let b = rebuilt_bytes(signature, shard, template);
            let root_at = 64 + shard.len() as int;
            let proof_end = root_at + 32 + 20 * proof_size_of(template);
            &&& b.len() == 1203
            &&& b.take(64) == signature
            &&& b.subrange(64, root_at) == shard
            &&& b.subrange(root_at, root_at + 32) == chained_root_of(template)
            &&& forall|i: int| root_at + 32 <= i < proof_end ==> (#[trigger] b[i]) == 0
            &&& if resigned_of(template) {
                &&& b.len() == proof_end + 64
                &&& b.skip(proof_end) == template.skip(template.len() - 64)
            } else {
                b.len() == proof_end
            }
        }),
{
    law_layout(template);
    reveal(valid_wire);
    let b = rebuilt_bytes(signature, shard, template);
    let root_at = 64 + shard.len() as int;
    let proof_end = root_at + 32 + 20 * proof_size_of(template);
    assert(chained_root_of(template).len() == 32);
    assert(b.take(64) =~= signature);
    assert(b.subrange(64, root_at) =~= shard);
    assert(b.subrange(root_at, root_at + 32) =~= chained_root_of(template));
    if resigned_of(template) {
        assert(b.skip(proof_end) =~= template.skip(template.len() - 64));
    }
}

/// What is refused of what was rebuilt: bytes that are no shred, for the reason that
/// they are none, and a shred that is not the data shred of this place in the slot,
/// the set and the version of the template.
pub proof fn law_rebuilt_fits(b: Seq<u8>, template: Seq<u8>, position: int)
    requires
        valid_wire(template),
        0 <= position < 32,
    ensures
        match rebuilt_error(b, template, position) {
            None => {
                &&& parse_error(b) is None
                &&& kind_of(b) == ShredKind::Data
                &&& slot_of(b) == slot_of(template)
                &&& version_of(b) == version_of(template)
                &&& fec_set_index_of(b) == fec_set_index_of(template)
                &&& index_of(b) == fec_set_index_of(template) + position
            },
            Some(RecoverError::InvalidShred(error)) => parse_error(b) == Some(error),
            Some(RecoverError::WrongHeaders { index }) => {
                &&& parse_error(b) is None
                &&& index == fec_set_index_of(template) + position
                &&& {
                    ||| kind_of(b) != ShredKind::Data
                    ||| slot_of(b) != slot_of(template)
                    ||| version_of(b) != version_of(template)
                    ||| fec_set_index_of(b) != fec_set_index_of(template)
                    ||| index_of(b) != index
                }
            },
            Some(RecoverError::ReedSolomon(_)) => false,
        },
{
    reveal(rebuilt_error);
    lemma_indexes(template);
    reveal(valid_wire);
}

/// Whether `next` is `m` with its missing data shreds below `end` rebuilt from
/// `shards`, and nothing else of its data changed.
pub open spec fn rebuilt_up_to(
    m: FecModel,
    next: FecModel,
    shards: Seq<(Seq<u8>, bool)>,
    end: int,
) -> bool {
    &&& next.data.len() == 32
    &&& forall|p: int|
        0 <= p < 32 ==> (#[trigger] next.data[p]) == (if m.data[p] is None && p < end {
            Some(rebuilt_bytes(m.signature, shards[p].0, m.template()))
        } else {
            m.data[p]
        })
}

/// Rebuilding goes through the missing data shreds in their order and ends at the
/// first that is refused, for its reason. What was rebuilt before stays, and so do
/// the code shreds. Where none is refused, the set has all its data and no code
/// shreds, and the missing data shreds are named in ascending order, no other.
pub proof fn law_rebuilding(m: FecModel, shards: Seq<(Seq<u8>, bool)>)
    requires
        m.valid(),
        m.num_data() + m.num_code() > 0,
    ensures
        ({
            let next = m.rebuilt_set(shards);
            match m.rebuild_outcome(shards) {
                Ok(indexes) => {
                    &&& rebuilt_up_to(m, next, shards, 32)
                    &&& forall|p: int| 0 <= p < 32 ==> (#[trigger] next.code[p]) is None
                    &&& forall|i: int, j: int|
                        0 <= i < j < indexes.len() ==> (#[trigger] indexes[i]) < (
                        #[trigger] indexes[j])
                    &&& forall|p: int|
                        0 <= p < 32 ==> ((#[trigger] m.data[p]) is None <==> indexes.contains(
                            (fec_set_index_of(m.template()) + p) as u32,
                        ))
                    &&& indexes.len() + m.num_data() == 32
                },
                Err(error) => exists|end: int|
                    {
                        &&& 0 <= end < 32
                        &&& m.data[end] is None
                        &&& rebuilt_error(
                            rebuilt_bytes(m.signature, shards[end].0, m.template()),
                            m.template(),
                            end,
                        ) == Some(error)
                        &&& #[trigger] rebuilt_up_to(m, next, shards, end)
                        &&& next.code == m.code
                    },
            }
        }),
{
    lemma_first_refused(m, shards, 0);
    let refused = m.first_refused(shards, 0);
    let next = m.rebuilt_set(shards);
    assert(rebuilt_up_to(m, next, shards, refused));
    if refused < 32 {
        lemma_refused_at(m, shards, 0);
    } else {
        lemma_template(m);
        lemma_indexes(m.template());
        reveal(valid_wire);
        lemma_names_ascend(m, 32);
        let indexes = m.missing_below(32);
        assert forall|p: int| 0 <= p < 32 implies ((#[trigger] m.data[p]) is None
            <==> indexes.contains((fec_set_index_of(m.template()) + p) as u32)) by {
            let index = (fec_set_index_of(m.template()) + p) as u32;
            if m.data[p] is None {
                lemma_missing_named(m, 32, p);
            }
            if indexes.contains(index) {
                let j = choose|j: int| 0 <= j < indexes.len() && indexes[j] == index;
                assert(missing_at(m, indexes[j] - fec_set_index_of(m.template())));
            }
        }
    }
}

/// Where rebuilding ends, a missing shred is refused.
proof fn lemma_refused_at(m: FecModel, shards: Seq<(Seq<u8>, bool)>, position: int)
    requires
        0 <= position <= 32,
        m.first_refused(shards, position) < 32,
    ensures
        position <= m.first_refused(shards, position),
        m.rebuild_error(shards, m.first_refused(shards, position)) is Some,
    decreases 32 - position,
{
    if position < 32 && m.rebuild_error(shards, position) is None {
        lemma_refused_at(m, shards, position + 1);
    }
}

/// Whether the data shred at a position is missing.
spec fn missing_at(m: FecModel, p: int) -> bool {
    0 <= p < 32 && m.data[p] is None
}

/// The missing data shreds below `end` are named in ascending order, and there are
/// as many names as there are missing shreds.
proof fn lemma_names_ascend(m: FecModel, end: int)
    requires
        0 <= end <= 32,
        m.data.len() == 32,
        fec_set_index_of(m.template()) + 31 <= u32::MAX,
    ensures
        forall|j: int|
            0 <= j < m.missing_below(end).len() ==> missing_at(
                m,
                #[trigger] m.missing_below(end)[j] - fec_set_index_of(m.template()),
            ) && m.missing_below(end)[j] < fec_set_index_of(m.template()) + end,
        forall|i: int, j: int|
            0 <= i < j < m.missing_below(end).len() ==> (#[trigger] m.missing_below(end)[i]) < (
            #[trigger] m.missing_below(end)[j]),
        m.missing_below(end).len() + num_shreds(m.data.take(end)) == end,
        end == 32 ==> m.missing_below(end).len() + m.num_data() == 32,
    decreases end,
{
    if end > 0 {
        lemma_names_ascend(m, end - 1);
        let before = m.missing_below(end - 1);
        let all = m.missing_below(end);
        let front = m.data.take(end);
        assert(front.drop_last() =~= m.data.take(end - 1));
        assert(taken(front).drop_last() =~= taken(front.drop_last()));
        assert(taken(front).last() == (m.data[end - 1] is Some));
        assert forall|j: int| 0 <= j < all.len() implies missing_at(
            m,
            #[trigger] all[j] - fec_set_index_of(m.template()),
        ) && all[j] < fec_set_index_of(m.template()) + end by {
            if j < before.len() {
                assert(all[j] == before[j]);
            }
        }
        assert forall|i: int, j: int| 0 <= i < j < all.len() implies (#[trigger] all[i]) < (
        #[trigger] all[j]) by {
            assert(all[i] == before[i]);
            if j < before.len() {
                assert(all[j] == before[j]);
            }
        }
    } else {
        assert(m.data.take(0) =~= Seq::empty());
        assert(taken(m.data.take(0)) =~= Seq::empty());
    }
    if end == 32 {
        assert(m.data.take(32) =~= m.data);
    }
}

/// Recovery is rebuilding from what the codec makes of the set's shards: those held,
/// each in its place and marked, data before code, and room for the others. Where
/// the codec fails, nothing changes.
pub proof fn law_recovery(m: FecModel)
    requires
        m.valid(),
    ensures
        m.shards().len() == 64,
        forall|p: int|
            0 <= p < 32 ==> (#[trigger] m.shards()[p]).1 == m.data[p] is Some && (m.data[p]
                is Some ==> m.shards()[p].0 == erasure_shard_of(m.data[p]->0)),
        forall|p: int|
            32 <= p < 64 ==> (#[trigger] m.shards()[p]).1 == m.code[p - 32] is Some && (m.code[p
                - 32] is Some ==> m.shards()[p].0 == erasure_shard_of(m.code[p - 32]->0)),
        match reconstructed(m.shards()) {
            Ok(shards) => m.recover_outcome() == m.rebuild_outcome(shards) && m.recovered()
                == m.rebuilt_set(shards),
            Err(error) => m.recovered() == m && m.recover_outcome() == Err::<
                Seq<u32>,
                RecoverError,
            >(RecoverError::ReedSolomon(error)),
        },
{
}

} // verus!

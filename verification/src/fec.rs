//! One FEC set: 32 data shreds protected by 32 Reed-Solomon code shreds.
//!
//! Any 32 of the 64 shreds are enough to rebuild the data shreds, so a set can
//! be completed before every data shred has arrived. Every shard fed into the
//! reconstruction already had its own proof verified against the set's signed
//! root on insert, nothing is retransmitted, and recovered shreds are only read
//! for their data and flags, so the Merkle tree is not rebuilt over a recovered
//! set and recovered shreds carry zeroed proof bytes.

use crate::buffer;
use crate::merkle::Hash32;
use crate::shred::{
    chained_root_of, erasure_index_of, erasure_shard_of, fec_set_index_of, index_of, kind_of,
    law_layout, merkle_root_of, parse_error, proof_offset_of, proof_size_of, resigned_of,
    retransmitter_signature_of, signature_of, slot_of, valid_wire, version_of, Shred, ShredError,
    ShredKind, CODE_SHREDS_PER_FEC_SET, DATA_SHREDS_PER_FEC_SET,
};
use vstd::prelude::*;

verus! {

/// The error type of the `reed_solomon_erasure` crate.
#[verifier::external_type_specification]
#[verifier::external_body]
pub struct ExCodecError(reed_solomon_erasure::Error);

/// The 32:32 codec over GF(2^8) of the `reed_solomon_erasure` crate. It only
/// comes out of [`reed_solomon`].
#[verifier::external_body]
pub struct ReedSolomon {
    codec: reed_solomon_erasure::galois_8::ReedSolomon,
}

/// Calls `ReedSolomon::new` for 32 data and 32 parity shards, which it accepts:
/// neither count is zero, and together they do not exceed the field's 256
/// elements.
#[verifier::external_body]
pub fn reed_solomon() -> ReedSolomon {
    ReedSolomon {
        codec: reed_solomon_erasure::galois_8::ReedSolomon::new(
            DATA_SHREDS_PER_FEC_SET,
            CODE_SHREDS_PER_FEC_SET,
        ).unwrap(),
    }
}

/// What `ReedSolomon::reconstruct_data` makes of 64 shards, each with the mark
/// that says whether it is present, under the 32:32 codec.
pub uninterp spec fn reconstructed(shards: Seq<(Seq<u8>, bool)>) -> Result<
    Seq<(Seq<u8>, bool)>,
    reed_solomon_erasure::Error,
>;

/// How many of `flags` are set.
pub open spec fn num_true(flags: Seq<bool>) -> nat
    decreases flags.len(),
{
    if flags.len() == 0 {
        0
    } else {
        num_true(flags.drop_last()) + (if flags.last() {
            1nat
        } else {
            0
        })
    }
}

/// The presence marks of `shards`.
pub open spec fn marks(shards: Seq<(Seq<u8>, bool)>) -> Seq<bool> {
    shards.map_values(|shard: (Seq<u8>, bool)| shard.1)
}

/// Whether the data shards among `shards` can be had: all 64 are there to be
/// filled in, 32 or more are present, none of those is empty, and those and the
/// room for the missing data shards are of one length.
pub open spec fn recoverable(shards: Seq<(Seq<u8>, bool)>) -> bool {
    &&& shards.len() == 64
    &&& num_true(marks(shards)) >= 32
    &&& forall|i: int| 0 <= i < 64 && (#[trigger] shards[i]).1 ==> shards[i].0.len() > 0
    &&& forall|i: int, j: int|
        0 <= i < 64 && 0 <= j < 64 && (#[trigger] shards[i]).1 && ((#[trigger] shards[j]).1 || j
            < 32) ==> shards[i].0.len() == shards[j].0.len()
}

/// Whether `after` is `before` with nothing but missing data shards written, and
/// these at their length.
pub open spec fn filled_in(before: Seq<(Seq<u8>, bool)>, after: Seq<(Seq<u8>, bool)>) -> bool {
    &&& after.len() == before.len()
    &&& forall|i: int|
        0 <= i < before.len() ==> (#[trigger] after[i]).1 == before[i].1 && after[i].0.len()
            == before[i].0.len() && (before[i].1 || i >= 32 ==> after[i].0 == before[i].0)
}

/// The shards of `whole` that `kept` marks, and room for the others.
pub open spec fn shards_kept(whole: Seq<Seq<u8>>, kept: Seq<bool>) -> Seq<(Seq<u8>, bool)> {
    Seq::new(
        64,
        |i: int|
            (
                if kept[i] {
                    whole[i]
                } else {
                    zeros(whole[i].len())
                },
                kept[i],
            ),
    )
}

/// Whether the code shards of `whole` are the parity of its data shards: 64
/// shards of one length, of which the last 32 alone give back the first 32.
pub open spec fn coded(whole: Seq<Seq<u8>>) -> bool {
    let code_alone = shards_kept(whole, Seq::new(64, |i: int| i >= 32));
    &&& whole.len() == 64
    &&& forall|i: int| 0 <= i < 64 ==> (#[trigger] whole[i]).len() == whole[0].len()
    &&& match reconstructed(code_alone) {
        Ok(shards) => forall|i: int| 0 <= i < 32 ==> (#[trigger] shards[i]).0 == whole[i],
        Err(_) => false,
    }
}

/// Whether `after` has the data shards of every coded set of shards that the
/// shards present in `before` belong to.
pub open spec fn restored(before: Seq<(Seq<u8>, bool)>, after: Seq<(Seq<u8>, bool)>) -> bool {
    forall|whole: Seq<Seq<u8>>|
        #![trigger coded(whole)]
        coded(whole) && (forall|i: int|
            0 <= i < 64 && (#[trigger] before[i]).1 ==> before[i].0 == whole[i]) ==> (forall|i: int|
            0 <= i < 32 ==> (#[trigger] after[i]).0 == whole[i])
}

/// Views of shards under reconstruction.
pub open spec fn shard_views(shards: Seq<(Vec<u8>, bool)>) -> Seq<(Seq<u8>, bool)> {
    shards.map_values(|shard: (Vec<u8>, bool)| (shard.0@, shard.1))
}

/// Calls `ReedSolomon::reconstruct_data` with the 32:32 codec. What it does is a
/// function of the shards and their marks. It succeeds exactly on shards that
/// are `recoverable`, and then writes the missing data shards only. If the
/// present shards belong to a set of shards whose code shards are the parity of
/// its data shards, it writes the data shards of that set, whichever 32 or more
/// are present: any 32 rows of the coding matrix are invertible.
#[verifier::external_body]
fn reconstruct_data(rs: &ReedSolomon, shards: &mut Vec<(Vec<u8>, bool)>) -> (done: Result<
    (),
    reed_solomon_erasure::Error,
>)
    ensures
        match done {
            Ok(_) => reconstructed(shard_views(old(shards)@)) == Ok::<
                Seq<(Seq<u8>, bool)>,
                reed_solomon_erasure::Error,
            >(shard_views(final(shards)@)),
            Err(error) => reconstructed(shard_views(old(shards)@)) == Err::<
                Seq<(Seq<u8>, bool)>,
                reed_solomon_erasure::Error,
            >(error),
        },
        done is Ok <==> recoverable(shard_views(old(shards)@)),
        done is Ok ==> filled_in(shard_views(old(shards)@), shard_views(final(shards)@)),
        done is Ok ==> restored(shard_views(old(shards)@), shard_views(final(shards)@)),
{
    rs.codec.reconstruct_data(shards)
}

#[derive(Debug, Clone, Copy, PartialEq, Eq, Structural)]
pub enum Insert {
    New,
    Duplicate,
    /// Code shred for a set that already has all its data.
    Unneeded,
    Rejected(Reject),
}

#[derive(Debug, Clone, Copy, PartialEq, Eq, Structural)]
pub enum Reject {
    /// Proof does not lead back to a root at all.
    BadProof,
    /// Root differs from the other shreds of this set.
    MerkleRootMismatch,
    /// Leader signature differs from the other shreds of this set.
    SignatureMismatch,
}

#[derive(Debug)]
pub enum RecoverError {
    /// The codec refused the shards.
    ReedSolomon(reed_solomon_erasure::Error),
    /// A recovered shred is malformed.
    InvalidShred(ShredError),
    /// A recovered shred has the wrong headers.
    WrongHeaders { index: u32 },
}

/// `n` zero bytes.
pub open spec fn zeros(n: nat) -> Seq<u8> {
    Seq::new(n, |i: int| 0u8)
}

/// What a FEC set holds: the wire bytes of its shreds by position, and what its
/// first shred fixed.
#[verifier::ext_equal]
pub struct FecModel {
    pub data: Seq<Option<Seq<u8>>>,
    pub code: Seq<Option<Seq<u8>>>,
    pub root: Option<Hash32>,
    pub signature: Seq<u8>,
}

/// `n` empty places.
pub open spec fn no_shreds(n: nat) -> Seq<Option<Seq<u8>>> {
    Seq::new(n, |i: int| None::<Seq<u8>>)
}

/// Which places hold a shred.
pub open spec fn taken(places: Seq<Option<Seq<u8>>>) -> Seq<bool> {
    places.map_values(|place: Option<Seq<u8>>| place is Some)
}

/// How many places hold a shred.
pub open spec fn num_shreds(places: Seq<Option<Seq<u8>>>) -> nat {
    num_true(taken(places))
}

/// The shred in the first place that holds one.
pub open spec fn first_shred(places: Seq<Option<Seq<u8>>>) -> Option<Seq<u8>>
    decreases places.len(),
{
    if places.len() == 0 {
        None
    } else if places[0] is Some {
        places[0]
    } else {
        first_shred(places.drop_first())
    }
}

/// Whether `b` is a shred of this kind and belongs at `position` of its set.
pub open spec fn belongs(b: Seq<u8>, kind: ShredKind, position: int) -> bool {
    &&& valid_wire(b)
    &&& kind_of(b) == kind
    &&& erasure_index_of(b) == position
}

/// Bytes of the missing data shred that `shard` was rebuilt for: what a received
/// data shred of the variant of `template` has, with zeros in place of the proof.
pub open spec fn rebuilt_bytes(signature: Seq<u8>, shard: Seq<u8>, template: Seq<u8>) -> Seq<u8> {
    signature + shard + chained_root_of(template) + zeros((20 * proof_size_of(template)) as nat) + (
    match retransmitter_signature_of(template) {
        Some(retransmitter) => retransmitter,
        None => Seq::empty(),
    })
}

/// Index of the data shred at `position` of the set that `template` belongs to.
pub open spec fn index_in_set(template: Seq<u8>, position: int) -> u32 {
    (fec_set_index_of(template) + position) as u32
}

/// What is wrong with the bytes `b` rebuilt for `position`.
#[verifier::opaque]
pub open spec fn rebuilt_error(b: Seq<u8>, template: Seq<u8>, position: int) -> Option<
    RecoverError,
> {
    let index = index_in_set(template, position);
    match parse_error(b) {
        Some(error) => Some(RecoverError::InvalidShred(error)),
        None => if kind_of(b) == ShredKind::Data && slot_of(b) == slot_of(template) && index_of(b)
            == index && fec_set_index_of(b) == fec_set_index_of(template) && version_of(b)
            == version_of(template) {
            None
        } else {
            Some(RecoverError::WrongHeaders { index })
        },
    }
}

impl FecModel {
    /// A set that no shred has reached yet.
    pub open spec fn empty() -> FecModel {
        FecModel { data: no_shreds(32), code: no_shreds(32), root: None, signature: zeros(64) }
    }

    /// Every shred is in its own place and carries the set's signature, every
    /// code shred leads to the set's root, and a complete set has no code shreds.
    pub open spec fn valid(self) -> bool {
        &&& self.data.len() == 32
        &&& self.code.len() == 32
        &&& self.signature.len() == 64
        &&& forall|p: int|
            0 <= p < 32 && (#[trigger] self.data[p]) is Some ==> belongs(
                self.data[p]->0,
                ShredKind::Data,
                p,
            ) && signature_of(self.data[p]->0) == self.signature
        &&& forall|p: int|
            0 <= p < 32 && (#[trigger] self.code[p]) is Some ==> belongs(
                self.code[p]->0,
                ShredKind::Code,
                32 + p,
            ) && signature_of(self.code[p]->0) == self.signature && merkle_root_of(self.code[p]->0)
                == self.root
        &&& self.is_complete() ==> self.code == no_shreds(32)
        &&& self.root is None ==> self == Self::empty()
    }

    pub open spec fn num_data(self) -> nat {
        num_shreds(self.data)
    }

    pub open spec fn num_code(self) -> nat {
        num_shreds(self.code)
    }

    pub open spec fn is_complete(self) -> bool {
        self.num_data() == 32
    }

    pub open spec fn can_recover(self) -> bool {
        !self.is_complete() && self.num_code() > 0 && self.num_data() + self.num_code() >= 32
    }

    /// What is in the place where the shred `b` belongs.
    pub open spec fn at(self, b: Seq<u8>) -> Option<Seq<u8>> {
        match kind_of(b) {
            ShredKind::Data => self.data[erasure_index_of(b)],
            ShredKind::Code => self.code[erasure_index_of(b) - 32],
        }
    }

    /// The set with the shred `b` put in its place.
    pub open spec fn with(self, b: Seq<u8>) -> FecModel {
        match kind_of(b) {
            ShredKind::Data => FecModel {
                data: self.data.update(erasure_index_of(b), Some(b)),
                ..self
            },
            ShredKind::Code => FecModel {
                code: self.code.update(erasure_index_of(b) - 32, Some(b)),
                ..self
            },
        }
    }

    /// The set without code shreds.
    pub open spec fn without_code(self) -> FecModel {
        FecModel { code: no_shreds(32), ..self }
    }

    /// What inserting the shred `b` comes to.
    pub open spec fn insert_outcome(self, b: Seq<u8>) -> Insert {
        if kind_of(b) == ShredKind::Code && self.is_complete() {
            Insert::Unneeded
        } else if self.at(b) is Some {
            Insert::Duplicate
        } else {
            match (merkle_root_of(b), self.root) {
                (None, _) => Insert::Rejected(Reject::BadProof),
                (Some(_), None) => Insert::New,
                (Some(root), Some(known)) => if root != known {
                    Insert::Rejected(Reject::MerkleRootMismatch)
                } else if signature_of(b) != self.signature {
                    Insert::Rejected(Reject::SignatureMismatch)
                } else {
                    Insert::New
                },
            }
        }
    }

    /// The set once the shred `b` has been inserted.
    pub open spec fn inserted(self, b: Seq<u8>) -> FecModel {
        if self.insert_outcome(b) == Insert::New {
            let next = FecModel {
                root: merkle_root_of(b),
                signature: signature_of(b),
                ..self.with(b)
            };
            if next.is_complete() {
                next.without_code()
            } else {
                next
            }
        } else {
            self
        }
    }

    /// The shred whose headers stand for the set's: its first code shred, or its
    /// first data shred where it has no code shred.
    pub open spec fn template(self) -> Seq<u8> {
        first_shred(self.code + self.data)->0
    }

    /// The shards that go into reconstruction: data then code, with room for
    /// those that are missing.
    pub open spec fn shards(self) -> Seq<(Seq<u8>, bool)> {
        let room = zeros(erasure_shard_of(self.template()).len());
        (self.data + self.code).map_values(
            |place: Option<Seq<u8>>|
                match place {
                    Some(b) => (erasure_shard_of(b), true),
                    None => (room, false),
                },
        )
    }

    /// Bytes rebuilt for `position` from its shard.
    pub open spec fn rebuilt(self, shards: Seq<(Seq<u8>, bool)>, position: int) -> Seq<u8> {
        rebuilt_bytes(self.signature, shards[position].0, self.template())
    }

    /// What is wrong with the data shred rebuilt for `position`, if that one is
    /// missing.
    pub open spec fn rebuild_error(self, shards: Seq<(Seq<u8>, bool)>, position: int) -> Option<
        RecoverError,
    > {
        if self.data[position] is Some {
            None
        } else {
            rebuilt_error(self.rebuilt(shards, position), self.template(), position)
        }
    }

    /// The first position from `position` on whose rebuilt shred is refused; 32
    /// if there is none.
    pub open spec fn first_refused(self, shards: Seq<(Seq<u8>, bool)>, position: int) -> int
        decreases 32 - position,
    {
        if position >= 32 {
            32
        } else if self.rebuild_error(shards, position) is Some {
            position
        } else {
            self.first_refused(shards, position + 1)
        }
    }

    /// The set with the data shreds missing below `end` rebuilt.
    pub open spec fn rebuilt_below(self, shards: Seq<(Seq<u8>, bool)>, end: int) -> FecModel {
        FecModel {
            data: Seq::new(
                32,
                |p: int|
                    if self.data[p] is None && p < end {
                        Some(self.rebuilt(shards, p))
                    } else {
                        self.data[p]
                    },
            ),
            ..self
        }
    }

    /// Indexes of the data shreds missing below `end`, in ascending order.
    pub open spec fn missing_below(self, end: int) -> Seq<u32>
        decreases end,
    {
        if end <= 0 {
            Seq::empty()
        } else if self.data[end - 1] is None {
            self.missing_below(end - 1).push(index_in_set(self.template(), end - 1))
        } else {
            self.missing_below(end - 1)
        }
    }

    /// What rebuilding the missing data shreds from `shards` comes to.
    pub open spec fn rebuild_outcome(self, shards: Seq<(Seq<u8>, bool)>) -> Result<
        Seq<u32>,
        RecoverError,
    > {
        let refused = self.first_refused(shards, 0);
        if refused < 32 {
            Err(self.rebuild_error(shards, refused)->0)
        } else {
            Ok(self.missing_below(32))
        }
    }

    /// The set once its missing data shreds have been rebuilt from `shards`: all
    /// of them, or those before the first one that is refused.
    pub open spec fn rebuilt_set(self, shards: Seq<(Seq<u8>, bool)>) -> FecModel {
        let refused = self.first_refused(shards, 0);
        if refused < 32 {
            self.rebuilt_below(shards, refused)
        } else {
            self.rebuilt_below(shards, 32).without_code()
        }
    }

    /// What recovery comes to: the indexes of the recovered shreds, or why it
    /// failed.
    pub open spec fn recover_outcome(self) -> Result<Seq<u32>, RecoverError> {
        match reconstructed(self.shards()) {
            Ok(shards) => self.rebuild_outcome(shards),
            Err(error) => Err(RecoverError::ReedSolomon(error)),
        }
    }

    /// The set once recovery has run.
    pub open spec fn recovered(self) -> FecModel {
        match reconstructed(self.shards()) {
            Ok(shards) => self.rebuilt_set(shards),
            Err(_) => self,
        }
    }
}

/// The wire bytes of what the places hold.
pub open spec fn wires(places: Seq<Option<Shred>>) -> Seq<Option<Seq<u8>>> {
    places.map_values(
        |place: Option<Shred>|
            match place {
                Some(shred) => Some(shred@),
                None => None,
            },
    )
}

pub struct FecSet {
    data: Vec<Option<Shred>>,
    code: Vec<Option<Shred>>,
    num_data: usize,
    num_code: usize,
    // Set by the first accepted shred; every later one must agree. Without
    // the leader's pubkey there is no way to tell which of two roots is the
    // signed one, so a corrupted first shred costs the whole set. Leader
    // signature verification would fix that; it needs the leader schedule.
    root: Option<Hash32>,
    signature: Vec<u8>,
}

impl View for FecSet {
    type V = FecModel;

    closed spec fn view(&self) -> FecModel {
        FecModel {
            data: wires(self.data@),
            code: wires(self.code@),
            root: self.root,
            signature: self.signature@,
        }
    }
}

/// `n` empty places.
fn empty_places(n: usize) -> (places: Vec<Option<Shred>>)
    ensures
        wires(places@) == no_shreds(n as nat),
{
    let mut places: Vec<Option<Shred>> = Vec::new();
    let mut i: usize = 0;
    while i < n
        invariant
            i <= n,
            places@.len() == i,
            forall|k: int| 0 <= k < i ==> (#[trigger] places@[k]) is None,
        decreases n - i,
    {
        places.push(None);
        i = i + 1;
    }
    assert(wires(places@) =~= no_shreds(n as nat));
    places
}

/// `n` zero bytes.
fn zero_bytes(n: usize) -> (bytes: Vec<u8>)
    ensures
        bytes@ == zeros(n as nat),
{
    let bytes: Vec<u8> = vec![0u8; n];
    assert(bytes@ =~= zeros(n as nat));
    bytes
}

/// No place holds a shred.
pub proof fn lemma_none_taken(n: nat)
    ensures
        num_shreds(no_shreds(n)) == 0,
    decreases n,
{
    if n > 0 {
        lemma_none_taken((n - 1) as nat);
        assert(taken(no_shreds(n)).drop_last() =~= taken(no_shreds((n - 1) as nat)));
    }
}

/// Filling an empty place adds one shred.
proof fn lemma_place_filled(places: Seq<Option<Seq<u8>>>, p: int, b: Seq<u8>)
    requires
        0 <= p < places.len(),
        places[p] is None,
    ensures
        num_shreds(places.update(p, Some(b))) == num_shreds(places) + 1,
    decreases places.len(),
{
    let next = places.update(p, Some(b));
    if p == places.len() - 1 {
        assert(taken(next).drop_last() =~= taken(places).drop_last());
    } else {
        lemma_place_filled(places.drop_last(), p, b);
        assert(taken(next).drop_last() =~= taken(places.drop_last().update(p, Some(b))));
        assert(taken(places).drop_last() =~= taken(places.drop_last()));
    }
}

/// There are no more shreds than places, and as many only where all are taken.
pub proof fn lemma_num_shreds_bound(places: Seq<Option<Seq<u8>>>)
    ensures
        num_shreds(places) <= places.len(),
        num_shreds(places) == places.len() ==> forall|p: int|
            0 <= p < places.len() ==> (#[trigger] places[p]) is Some,
        num_shreds(places) > 0 ==> exists|p: int|
            0 <= p < places.len() && (#[trigger] places[p]) is Some,
    decreases places.len(),
{
    if places.len() > 0 {
        let front = places.drop_last();
        assert(taken(places).drop_last() =~= taken(front));
        lemma_num_shreds_bound(front);
        if num_shreds(places) == places.len() {
            assert forall|p: int| 0 <= p < places.len() implies (#[trigger] places[p]) is Some by {
                if p < places.len() - 1 {
                    assert(front[p] == places[p]);
                }
            }
        }
        if num_shreds(places) > 0 {
            if places.last() is None {
                let p = choose|p: int| 0 <= p < front.len() && (#[trigger] front[p]) is Some;
                assert(places[p] is Some);
            } else {
                assert(places[places.len() - 1] is Some);
            }
        }
    }
}

/// Flags of two runs add up.
pub proof fn lemma_num_true_add(a: Seq<bool>, b: Seq<bool>)
    ensures
        num_true(a + b) == num_true(a) + num_true(b),
    decreases b.len(),
{
    if b.len() == 0 {
        assert(a + b =~= a);
    } else {
        lemma_num_true_add(a, b.drop_last());
        assert((a + b).drop_last() =~= a + b.drop_last());
    }
}

/// Inserting a shred keeps a set valid and counts it where it is new.
pub proof fn lemma_inserted(m: FecModel, b: Seq<u8>)
    requires
        m.valid(),
        valid_wire(b),
    ensures
        m.inserted(b).valid(),
        m.insert_outcome(b) == Insert::New ==> m.at(b) is None,
        m.insert_outcome(b) == Insert::New && kind_of(b) == ShredKind::Data
            ==> m.inserted(b).num_data() == m.num_data() + 1 && m.inserted(b).at(b) == Some(b),
        m.insert_outcome(b) == Insert::New && kind_of(b) == ShredKind::Code
            ==> m.inserted(b).num_data() == m.num_data() && m.inserted(b).num_code()
            == m.num_code() + 1 && !m.inserted(b).is_complete() && m.inserted(b).at(b) == Some(b),
{
    law_layout(b);
    if m.insert_outcome(b) == Insert::New {
        lemma_none_taken(32);
        let p = erasure_index_of(b);
        match kind_of(b) {
            ShredKind::Data => {
                lemma_place_filled(m.data, p, b);
            },
            ShredKind::Code => {
                lemma_place_filled(m.code, p - 32, b);
            },
        }
    }
}

/// The first shred of places that hold one is one of theirs.
proof fn lemma_first_shred(places: Seq<Option<Seq<u8>>>)
    ensures
        match first_shred(places) {
            Some(b) => exists|p: int| 0 <= p < places.len() && places[p] == Some(b),
            None => forall|p: int| 0 <= p < places.len() ==> (#[trigger] places[p]) is None,
        },
    decreases places.len(),
{
    if places.len() > 0 && places[0] is None {
        let rest = places.drop_first();
        lemma_first_shred(rest);
        match first_shred(rest) {
            Some(b) => {
                let p = choose|p: int| 0 <= p < rest.len() && rest[p] == Some(b);
                assert(places[p + 1] == Some(b));
            },
            None => {
                assert forall|p: int| 0 <= p < places.len() implies (
                #[trigger] places[p]) is None by {
                    if p > 0 {
                        assert(rest[p - 1] == places[p]);
                    }
                }
            },
        }
    }
}

/// A set that holds a shred has a template, and it is one of its shreds.
pub proof fn lemma_template(m: FecModel)
    requires
        m.valid(),
        m.num_data() + m.num_code() > 0,
    ensures
        first_shred(m.code + m.data) is Some,
        valid_wire(m.template()),
        (exists|p: int| 0 <= p < 32 && m.code[p] == Some(m.template())) || (exists|p: int|
            0 <= p < 32 && m.data[p] == Some(m.template())),
{
    let places = m.code + m.data;
    lemma_first_shred(places);
    lemma_num_shreds_bound(m.data);
    lemma_num_shreds_bound(m.code);
    if m.num_code() > 0 {
        let p = choose|p: int| 0 <= p < m.code.len() && (#[trigger] m.code[p]) is Some;
        assert(places[p] is Some);
    } else {
        let p = choose|p: int| 0 <= p < m.data.len() && (#[trigger] m.data[p]) is Some;
        assert(places[32 + p] is Some);
    }
    let p = choose|p: int| 0 <= p < places.len() && places[p] == Some(m.template());
    if p < 32 {
        assert(m.code[p] == Some(m.template()));
    } else {
        assert(m.data[p - 32] == Some(m.template()));
    }
}

/// A rebuilt shred is as long as a data shred, and where nothing is wrong with
/// it, it belongs where it was missing.
proof fn lemma_rebuilt(signature: Seq<u8>, shard: Seq<u8>, template: Seq<u8>, position: int)
    requires
        valid_wire(template),
        signature.len() == 64,
        shard.len() == erasure_shard_of(template).len(),
        0 <= position < 32,
    ensures
        rebuilt_bytes(signature, shard, template).len() == 1203,
        rebuilt_error(rebuilt_bytes(signature, shard, template), template, position) is None
            ==> belongs(rebuilt_bytes(signature, shard, template), ShredKind::Data, position)
            && signature_of(rebuilt_bytes(signature, shard, template)) == signature,
{
    reveal(valid_wire);
    reveal(rebuilt_error);
    law_layout(template);
    let b = rebuilt_bytes(signature, shard, template);
    assert(signature_of(b) =~= signature);
}

/// The shreds rebuilt for what is missing below `end` belong there and carry the
/// set's signature.
#[verifier::opaque]
spec fn rebuilt_belong(m: FecModel, shards: Seq<(Seq<u8>, bool)>, end: int) -> bool {
    forall|p: int|
        0 <= p < end && m.data[p] is None ==> belongs(
            #[trigger] m.rebuilt(shards, p),
            ShredKind::Data,
            p,
        ) && signature_of(m.rebuilt(shards, p)) == m.signature
}

/// Going on to the next position, which holds a shred or has one rebuilt.
proof fn lemma_rebuild_step(m: FecModel, shards: Seq<(Seq<u8>, bool)>, position: int)
    requires
        m.data.len() == 32,
        0 <= position < 32,
        rebuilt_belong(m, shards, position),
        m.data[position] is None ==> belongs(
            m.rebuilt(shards, position),
            ShredKind::Data,
            position,
        ) && signature_of(m.rebuilt(shards, position)) == m.signature,
    ensures
        rebuilt_belong(m, shards, position + 1),
        m.data[position] is Some ==> m.rebuilt_below(shards, position + 1) == m.rebuilt_below(
            shards,
            position,
        ),
        m.data[position] is None ==> m.rebuilt_below(shards, position + 1) == (FecModel {
            data: m.rebuilt_below(shards, position).data.update(
                position,
                Some(m.rebuilt(shards, position)),
            ),
            ..m
        }) && num_shreds(m.rebuilt_below(shards, position + 1).data) == num_shreds(
            m.rebuilt_below(shards, position).data,
        ) + 1,
{
    reveal(rebuilt_belong);
    let here = m.rebuilt_below(shards, position);
    if m.data[position] is None {
        lemma_place_filled(here.data, position, m.rebuilt(shards, position));
        assert(m.rebuilt_below(shards, position + 1).data =~= here.data.update(
            position,
            Some(m.rebuilt(shards, position)),
        ));
    } else {
        assert(m.rebuilt_below(shards, position + 1).data =~= here.data);
    }
}

/// A set whose missing data shreds were all rebuilt is complete and valid.
proof fn lemma_all_rebuilt(m: FecModel, shards: Seq<(Seq<u8>, bool)>)
    requires
        m.valid(),
        m.root is Some,
        rebuilt_belong(m, shards, 32),
    ensures
        m.rebuilt_below(shards, 32).without_code().valid(),
        m.rebuilt_below(shards, 32).num_data() == 32,
        m.rebuilt_below(shards, 32).without_code().num_code() == 0,
{
    reveal(rebuilt_belong);
    lemma_none_taken(32);
    lemma_all_taken(m.rebuilt_below(shards, 32).data);
}

/// A set in which a shred is still missing after part of it was rebuilt is valid.
proof fn lemma_part_rebuilt(m: FecModel, shards: Seq<(Seq<u8>, bool)>, end: int)
    requires
        m.valid(),
        0 <= end < 32,
        m.data[end] is None,
        m.root is Some,
        rebuilt_belong(m, shards, end),
    ensures
        m.rebuilt_below(shards, end).valid(),
{
    reveal(rebuilt_belong);
    let next = m.rebuilt_below(shards, end);
    lemma_num_shreds_bound(next.data);
    assert(next.data[end] is None);
}

/// Where all places are taken, there are as many shreds as places.
pub proof fn lemma_all_taken(places: Seq<Option<Seq<u8>>>)
    requires
        forall|p: int| 0 <= p < places.len() ==> (#[trigger] places[p]) is Some,
    ensures
        num_shreds(places) == places.len(),
    decreases places.len(),
{
    if places.len() > 0 {
        assert(taken(places).drop_last() =~= taken(places.drop_last()));
        lemma_all_taken(places.drop_last());
    }
}

/// A whole FEC set as its leader made it: 32 data and 32 code shreds of one
/// variant that agree on what they say of the set, the code shreds being the
/// parity of the data shreds.
pub open spec fn whole_set(whole: Seq<Seq<u8>>) -> bool {
    &&& whole.len() == 64
    &&& forall|i: int|
        0 <= i < 64 ==> belongs(
            #[trigger] whole[i],
            if i < 32 {
                ShredKind::Data
            } else {
                ShredKind::Code
            },
            i,
        )
    &&& forall|i: int|
        0 <= i < 64 ==> {
            &&& signature_of(#[trigger] whole[i]) == signature_of(whole[0])
            &&& slot_of(whole[i]) == slot_of(whole[0])
            &&& version_of(whole[i]) == version_of(whole[0])
            &&& fec_set_index_of(whole[i]) == fec_set_index_of(whole[0])
            &&& proof_size_of(whole[i]) == proof_size_of(whole[0])
            &&& resigned_of(whole[i]) == resigned_of(whole[0])
            &&& chained_root_of(whole[i]) == chained_root_of(whole[0])
        }
    &&& coded(whole.map_values(|b: Seq<u8>| erasure_shard_of(b)))
}

/// Whether all shreds of a set are shreds of `whole`.
pub open spec fn part_of(m: FecModel, whole: Seq<Seq<u8>>) -> bool {
    &&& forall|p: int|
        0 <= p < 32 && (#[trigger] m.data[p]) is Some ==> m.data[p] == Some(whole[p])
    &&& forall|p: int|
        0 <= p < 32 && (#[trigger] m.code[p]) is Some ==> m.code[p] == Some(whole[32 + p])
}

/// Whether two shreds are the same but for their proofs and retransmitter
/// signatures.
pub open spec fn same_up_to_proof(a: Seq<u8>, b: Seq<u8>) -> bool {
    &&& a.len() == b.len()
    &&& a.take(proof_offset_of(b)) == b.take(proof_offset_of(b))
}

/// A shred that is the same as a data shred but for the proof carries the same
/// data under the same headers.
pub proof fn law_same_up_to_proof(a: Seq<u8>, b: Seq<u8>)
    requires
        valid_wire(b),
        kind_of(b) == ShredKind::Data,
        same_up_to_proof(a, b),
    ensures
        valid_wire(a),
        kind_of(a) == ShredKind::Data,
        slot_of(a) == slot_of(b),
        index_of(a) == index_of(b),
        version_of(a) == version_of(b),
        fec_set_index_of(a) == fec_set_index_of(b),
        proof_size_of(a) == proof_size_of(b),
        signature_of(a) == signature_of(b),
        crate::shred::flags_of(a) == crate::shred::flags_of(b),
        crate::shred::data_of(a) == crate::shred::data_of(b),
        chained_root_of(a) == chained_root_of(b),
{
    law_layout(b);
    reveal(valid_wire);
    assert forall|i: int| 0 <= i < proof_offset_of(b) implies a[i] == b[i] by {
        assert(a.take(proof_offset_of(b))[i] == b.take(proof_offset_of(b))[i]);
    }
    assert(signature_of(a) =~= signature_of(b));
    assert(crate::shred::data_of(a) =~= crate::shred::data_of(b));
    assert(chained_root_of(a) =~= chained_root_of(b));
}

/// From the data shards of a whole set, rebuilding a part of it succeeds, and
/// gives every data shred of the whole set but for the proofs.
pub proof fn law_whole_set_rebuilt(
    m: FecModel,
    whole: Seq<Seq<u8>>,
    shards: Seq<(Seq<u8>, bool)>,
)
    requires
        m.valid(),
        m.num_data() + m.num_code() > 0,
        whole_set(whole),
        part_of(m, whole),
        forall|p: int| 0 <= p < 32 ==> (#[trigger] shards[p]).0 == erasure_shard_of(whole[p]),
    ensures
        m.rebuild_outcome(shards) is Ok,
        m.rebuilt_set(shards).is_complete(),
        forall|p: int|
            0 <= p < 32 ==> same_up_to_proof(
                (#[trigger] m.rebuilt_set(shards).data[p])->0,
                whole[p],
            ),
{
    lemma_template(m);
    let t = m.template();
    assert(exists|i: int| 0 <= i < 64 && t == whole[i]) by {
        if exists|p: int| 0 <= p < 32 && m.code[p] == Some(t) {
            let p = choose|p: int| 0 <= p < 32 && m.code[p] == Some(t);
            assert(t == whole[32 + p]);
        } else {
            let p = choose|p: int| 0 <= p < 32 && m.data[p] == Some(t);
            assert(t == whole[p]);
        }
    }
    let k = choose|i: int| 0 <= i < 64 && t == whole[i];
    assert(m.signature == signature_of(t));
    assert forall|p: int| 0 <= p < 32 implies m.rebuild_error(shards, p) is None && (m.data[p]
        is None ==> same_up_to_proof(m.rebuilt(shards, p), whole[p])) by {
        if m.data[p] is None {
            lemma_rebuilt_like_whole(whole, k, p);
            assert(shards[p].0 == erasure_shard_of(whole[p]));
        }
    }
    lemma_none_refused(m, shards, 0);
    let next = m.rebuilt_set(shards);
    assert forall|p: int| 0 <= p < 32 implies (#[trigger] next.data[p]) is Some
        && same_up_to_proof(next.data[p]->0, whole[p]) by {
        assert(m.rebuild_error(shards, p) is None);
    }
    lemma_all_taken(next.data);
}

/// Once the shards of a part of a whole set are restored, rebuilding succeeds.
proof fn lemma_whole_set_recovered(m: FecModel, whole: Seq<Seq<u8>>, shards: Seq<(Seq<u8>, bool)>)
    requires
        m.valid(),
        m.num_data() + m.num_code() > 0,
        whole_set(whole),
        part_of(m, whole),
        restored(m.shards(), shards),
    ensures
        m.rebuild_outcome(shards) is Ok,
        m.rebuilt_set(shards).is_complete(),
        forall|p: int|
            0 <= p < 32 ==> same_up_to_proof(
                (#[trigger] m.rebuilt_set(shards).data[p])->0,
                whole[p],
            ),
{
    let given = m.shards();
    let places = m.data + m.code;
    let whole_shards = whole.map_values(|b: Seq<u8>| erasure_shard_of(b));
    assert(coded(whole_shards));
    assert forall|i: int| 0 <= i < 64 && (#[trigger] given[i]).1 implies given[i].0
        == whole_shards[i] by {
        assert(places[i] == Some(whole[i]));
    }
    assert forall|p: int| 0 <= p < 32 implies (#[trigger] shards[p]).0 == erasure_shard_of(
        whole[p],
    ) by {
        assert(shards[p].0 == whole_shards[p]);
    }
    law_whole_set_rebuilt(m, whole, shards);
}

/// The shred rebuilt from the shard of a data shred of a whole set, by the
/// headers of any of its shreds, is that shred but for the proof.
proof fn lemma_rebuilt_like_whole(whole: Seq<Seq<u8>>, k: int, p: int)
    requires
        whole_set(whole),
        0 <= k < 64,
        0 <= p < 32,
    ensures
        ({
            let b = rebuilt_bytes(signature_of(whole[k]), erasure_shard_of(whole[p]), whole[k]);
            &&& same_up_to_proof(b, whole[p])
            &&& rebuilt_error(b, whole[k], p) is None
        }),
{
    let x = whole[p];
    let t = whole[k];
    let b = rebuilt_bytes(signature_of(t), erasure_shard_of(x), t);
    law_layout(x);
    law_layout(t);
    reveal(valid_wire);
    let n = proof_offset_of(x);
    assert(x.subrange(64, n - 32) =~= erasure_shard_of(x));
    assert(x.take(n) =~= signature_of(x) + erasure_shard_of(x) + chained_root_of(x));
    assert(b.take(n) =~= signature_of(t) + erasure_shard_of(x) + chained_root_of(t));
    law_same_up_to_proof(b, x);
    reveal(rebuilt_error);
}

/// Where no rebuilt shred is refused, the search for one comes to the end.
proof fn lemma_none_refused(m: FecModel, shards: Seq<(Seq<u8>, bool)>, position: int)
    requires
        0 <= position <= 32,
        forall|p: int| 0 <= p < 32 ==> (#[trigger] m.rebuild_error(shards, p)) is None,
    ensures
        m.first_refused(shards, position) == 32,
    decreases 32 - position,
{
    if position < 32 {
        lemma_none_refused(m, shards, position + 1);
    }
}

/// A part of a whole set that is large enough can be reconstructed.
proof fn lemma_part_is_recoverable(m: FecModel, whole: Seq<Seq<u8>>)
    requires
        m.valid(),
        m.can_recover(),
        whole_set(whole),
        part_of(m, whole),
    ensures
        recoverable(m.shards()),
{
    let places = m.data + m.code;
    let shards = m.shards();
    lemma_template(m);
    let t = m.template();
    assert(marks(shards) =~= taken(m.data) + taken(m.code));
    lemma_num_true_add(taken(m.data), taken(m.code));
    reveal(valid_wire);
    let len = erasure_shard_of(whole[0]).len();
    assert forall|i: int| 0 <= i < 64 implies erasure_shard_of(#[trigger] whole[i]).len() == len
        && len > 0 by {
        law_layout(whole[i]);
    }
    assert(erasure_shard_of(t).len() == len) by {
        if exists|p: int| 0 <= p < 32 && m.code[p] == Some(t) {
            let p = choose|p: int| 0 <= p < 32 && m.code[p] == Some(t);
            assert(t == whole[32 + p]);
        } else {
            let p = choose|p: int| 0 <= p < 32 && m.data[p] == Some(t);
            assert(t == whole[p]);
        }
    }
    assert forall|i: int| 0 <= i < 64 implies (#[trigger] shards[i]).0.len() == len by {
        if places[i] is Some {
            assert(places[i] == Some(whole[i]));
        }
    }
}

/// A set that no shred has reached is valid.
pub proof fn lemma_empty_valid()
    ensures
        FecModel::empty().valid(),
{
    lemma_none_taken(32);
}

/// Nothing is wrong with the shreds rebuilt before the first one that is refused.
pub proof fn lemma_first_refused(m: FecModel, shards: Seq<(Seq<u8>, bool)>, position: int)
    requires
        0 <= position <= 32,
    ensures
        position <= m.first_refused(shards, position) <= 32,
        forall|p: int|
            position <= p < m.first_refused(shards, position) ==> (#[trigger] m.rebuild_error(
                shards,
                p,
            )) is None,
    decreases 32 - position,
{
    if position < 32 && m.rebuild_error(shards, position) is None {
        lemma_first_refused(m, shards, position + 1);
        assert forall|p: int| position <= p < m.first_refused(shards, position) implies (
        #[trigger] m.rebuild_error(shards, p)) is None by {}
    }
}

/// Whether `index` is that of a data shred missing below `end`.
spec fn names_missing(m: FecModel, end: int, index: u32) -> bool {
    exists|p: int|
        0 <= p < end && m.data[p] is None && index == #[trigger] index_in_set(m.template(), p)
}

/// The indexes of missing data shreds are those of their positions.
proof fn lemma_missing_below(m: FecModel, end: int)
    requires
        0 <= end <= 32,
    ensures
        m.missing_below(end).len() <= end,
        forall|j: int|
            0 <= j < m.missing_below(end).len() ==> names_missing(
                m,
                end,
                #[trigger] m.missing_below(end)[j],
            ),
    decreases end,
{
    if end > 0 {
        lemma_missing_below(m, end - 1);
        let before = m.missing_below(end - 1);
        let all = m.missing_below(end);
        assert forall|j: int| 0 <= j < all.len() implies names_missing(
            m,
            end,
            #[trigger] all[j],
        ) by {
            if j < before.len() {
                assert(names_missing(m, end - 1, before[j]));
            } else {
                assert(all[j] == index_in_set(m.template(), end - 1));
            }
        }
    }
}

/// The index of every missing data shred is among those named.
pub proof fn lemma_missing_named(m: FecModel, end: int, p: int)
    requires
        0 <= p < end <= 32,
        m.data[p] is None,
    ensures
        m.missing_below(end).contains(index_in_set(m.template(), p)),
    decreases end,
{
    let all = m.missing_below(end);
    if p == end - 1 {
        assert(all.last() == index_in_set(m.template(), p));
    } else {
        lemma_missing_named(m, end - 1, p);
        let before = m.missing_below(end - 1);
        let j = choose|j: int|
            0 <= j < before.len() && before[j] == index_in_set(m.template(), p);
        assert(all[j] == before[j]);
    }
}

/// Recovery adds data shreds of the set where they are missing and leaves the
/// others alone. Where it succeeds it adds all, and names those that it added.
pub proof fn law_recovery_adds(m: FecModel, k: u32)
    requires
        m.valid(),
        m.can_recover(),
        m.recovered().valid(),
        forall|p: int|
            0 <= p < 32 && (#[trigger] m.data[p]) is Some ==> fec_set_index_of(m.data[p]->0) == k,
        forall|p: int|
            0 <= p < 32 && (#[trigger] m.code[p]) is Some ==> fec_set_index_of(m.code[p]->0) == k,
    ensures
        forall|p: int|
            0 <= p < 32 && (#[trigger] m.data[p]) is Some ==> m.recovered().data[p] == m.data[p],
        forall|p: int|
            0 <= p < 32 && (#[trigger] m.recovered().data[p]) is Some ==> fec_set_index_of(
                m.recovered().data[p]->0,
            ) == k,
        forall|p: int|
            0 <= p < 32 && (#[trigger] m.recovered().code[p]) is Some ==> m.recovered().code[p]
                == m.code[p],
        m.recover_outcome() matches Ok(indexes) ==> {
            &&& m.recovered().is_complete()
            &&& indexes.len() <= 32
            &&& forall|j: int|
                0 <= j < indexes.len() ==> k <= #[trigger] indexes[j] < k + 32 && m.data[indexes[j]
                    - k] is None && m.recovered().data[indexes[j] - k] is Some
        },
{
    match reconstructed(m.shards()) {
        Ok(shards) => {
            lemma_template(m);
            let t = m.template();
            crate::shred::lemma_indexes(t);
            let next = m.recovered();
            lemma_first_refused(m, shards, 0);
            let refused = m.first_refused(shards, 0);
            assert forall|p: int| 0 <= p < 32 && (#[trigger] next.data[p]) is Some implies
                fec_set_index_of(next.data[p]->0) == k by {
                if m.data[p] is None {
                    assert(m.rebuild_error(shards, p) is None);
                    reveal(rebuilt_error);
                }
            }
            if refused == 32 {
                lemma_missing_below(m, 32);
                let indexes = m.missing_below(32);
                assert forall|p: int| 0 <= p < 32 implies (#[trigger] next.data[p]) is Some by {}
                lemma_all_taken(next.data);
                assert forall|j: int| 0 <= j < indexes.len() implies k <= #[trigger] indexes[j] < k
                    + 32 && m.data[indexes[j] - k] is None && next.data[indexes[j] - k] is Some by {
                    assert(names_missing(m, 32, indexes[j]));
                    let p = choose|p: int|
                        0 <= p < 32 && m.data[p] is None && indexes[j] == #[trigger] index_in_set(
                            t,
                            p,
                        );
                    assert(indexes[j] == k + p);
                }
            }
        },
        Err(_) => {},
    }
}

/// A set that was recovered has all its data.
pub proof fn law_recovered_is_complete(m: FecModel)
    requires
        m.data.len() == 32,
    ensures
        m.recover_outcome() is Ok ==> m.recovered().is_complete(),
        m.recover_outcome() is Err ==> m.recovered().code == m.code,
{
    if let Ok(shards) = reconstructed(m.shards()) {
        lemma_first_refused(m, shards, 0);
        lemma_all_taken(m.rebuilt_below(shards, 32).data);
    }
}

impl Default for FecSet {
    fn default() -> (set: Self)
        ensures
            set.wf(),
            set@ == FecModel::empty(),
    {
        let set = Self {
            data: empty_places(DATA_SHREDS_PER_FEC_SET),
            code: empty_places(CODE_SHREDS_PER_FEC_SET),
            num_data: 0,
            num_code: 0,
            root: None,
            signature: zero_bytes(64),
        };
        proof {
            lemma_none_taken(32);
            assert(set@ =~= FecModel::empty());
        }
        set
    }
}

impl FecSet {
    /// The set is valid and its counters are right.
    pub open spec fn wf(&self) -> bool {
        &&& self@.valid()
        &&& self.counted()
    }

    /// The counters are right.
    pub closed spec fn counted(&self) -> bool {
        &&& self.num_data == self@.num_data()
        &&& self.num_code == self@.num_code()
    }

    /// Put a shred in its place, unless it is there already, is not needed any
    /// more or disagrees with the set.
    pub fn insert(&mut self, shred: Shred) -> (outcome: Insert)
        requires
            old(self).wf(),
        ensures
            final(self).wf(),
            outcome == old(self)@.insert_outcome(shred@),
            final(self)@ == old(self)@.inserted(shred@),
    {
        let ghost before = self@;
        let ghost b = shred@;
        // Cheap checks first: the Merkle root costs seven SHA-256 rounds, and
        // in the common case every code shred arrives after its set is done.
        if shred.kind() == ShredKind::Code && self.is_complete() {
            return Insert::Unneeded;
        }
        if self.get(&shred).is_some() {
            return Insert::Duplicate;
        }
        let root: Hash32 = match shred.merkle_root() {
            Some(root) => root,
            None => return Insert::Rejected(Reject::BadProof),
        };
        match self.root {
            None => {
                self.root = Some(root);
                self.signature = vstd::slice::slice_to_vec(shred.signature());
            },
            Some(known) => {
                if !buffer::same_hash(&known, &root) {
                    return Insert::Rejected(Reject::MerkleRootMismatch);
                }
                if !buffer::same_bytes(&self.signature, shred.signature()) {
                    return Insert::Rejected(Reject::SignatureMismatch);
                }
            },
        }
        proof {
            lemma_inserted(before, b);
            lemma_num_shreds_bound(before.data);
            lemma_num_shreds_bound(before.code);
        }
        let position: usize = shred.erasure_shard_index();
        match shred.kind() {
            ShredKind::Data => {
                self.data[position] = Some(shred);
                self.num_data = self.num_data + 1;
                assert(wires(self.data@) =~= before.data.update(position as int, Some(b)));
            },
            ShredKind::Code => {
                self.code[position - DATA_SHREDS_PER_FEC_SET] = Some(shred);
                self.num_code = self.num_code + 1;
                assert(wires(self.code@) =~= before.code.update(position - 32, Some(b)));
            },
        }
        let ghost next = FecModel {
            root: merkle_root_of(b),
            signature: signature_of(b),
            ..before.with(b)
        };
        assert(self@ =~= next);
        if self.num_data == DATA_SHREDS_PER_FEC_SET {
            self.drop_code();
            proof {
                lemma_none_taken(32);
            }
        }
        assert(self@ =~= before.inserted(b));
        Insert::New
    }

    /// What is in the place where a shred belongs.
    fn get(&self, shred: &Shred) -> (place: Option<&Shred>)
        requires
            self.wf(),
        ensures
            place is Some <==> self@.at(shred@) is Some,
            place matches Some(held) ==> self@.at(shred@) == Some(held@),
    {
        let position: usize = shred.erasure_shard_index();
        match shred.kind() {
            ShredKind::Data => self.data[position].as_ref(),
            ShredKind::Code => self.code[position - DATA_SHREDS_PER_FEC_SET].as_ref(),
        }
    }

    /// The data shred at `position` of the set.
    pub fn data(&self, position: usize) -> (place: Option<&Shred>)
        requires
            self.wf(),
            position < 32,
        ensures
            place is Some <==> self@.data[position as int] is Some,
            place matches Some(held) ==> self@.data[position as int] == Some(held@),
    {
        self.data[position].as_ref()
    }

    /// All data shreds present; the code shreds have been dropped.
    pub fn is_complete(&self) -> (complete: bool)
        requires
            self.wf(),
        ensures
            complete == self@.is_complete(),
    {
        self.num_data == DATA_SHREDS_PER_FEC_SET
    }

    /// Data shreds are missing, and the shreds present are enough to rebuild them.
    pub fn can_recover(&self) -> (able: bool)
        requires
            self.wf(),
        ensures
            able == self@.can_recover(),
    {
        proof {
            lemma_num_shreds_bound(self@.data);
            lemma_num_shreds_bound(self@.code);
        }
        !self.is_complete() && self.num_code > 0 && self.num_data + self.num_code
            >= DATA_SHREDS_PER_FEC_SET
    }

    fn drop_code(&mut self)
        ensures
            final(self)@ == old(self)@.without_code(),
            final(self).num_code == 0,
            final(self).num_data == old(self).num_data,
    {
        self.code = empty_places(CODE_SHREDS_PER_FEC_SET);
        self.num_code = 0;
    }

    /// What is in the places of the code shreds, then those of the data shreds.
    fn place(&self, p: usize) -> (place: Option<&Shred>)
        requires
            self.wf(),
            p < 64,
        ensures
            place is Some <==> (self@.code + self@.data)[p as int] is Some,
            place matches Some(held) ==> (self@.code + self@.data)[p as int] == Some(held@),
    {
        if p < CODE_SHREDS_PER_FEC_SET {
            self.code[p].as_ref()
        } else {
            self.data[p - CODE_SHREDS_PER_FEC_SET].as_ref()
        }
    }

    /// The shred whose headers stand for the set's.
    fn any_shred(&self) -> (shred: &Shred)
        requires
            self.wf(),
            self@.num_data() + self@.num_code() > 0,
        ensures
            shred@ == self@.template(),
            valid_wire(shred@),
    {
        let ghost places = self@.code + self@.data;
        proof {
            lemma_template(self@);
            assert(places.skip(0) =~= places);
        }
        let mut p: usize = 0;
        while self.place(p).is_none()
            invariant
                self.wf(),
                p < 64,
                places == self@.code + self@.data,
                first_shred(places) is Some,
                first_shred(places) == first_shred(places.skip(p as int)),
            decreases 64 - p,
        {
            assert(places.skip(p as int)[0] == places[p as int]);
            assert(places.skip(p as int).drop_first() =~= places.skip(p + 1));
            p = p + 1;
        }
        assert(places.skip(p as int)[0] == places[p as int]);
        self.place(p).unwrap()
    }

    /// The shards of the set, with room for those that are missing.
    fn shards(&self, template: &Shred) -> (shards: Vec<(Vec<u8>, bool)>)
        requires
            self.wf(),
            template@ == self@.template(),
        ensures
            shard_views(shards@) == self@.shards(),
    {
        let shard_len: usize = template.erasure_shard().len();
        let ghost wanted = self@.shards();
        let mut shards: Vec<(Vec<u8>, bool)> = Vec::new();
        let mut p: usize = 0;
        while p < 64
            invariant
                self.wf(),
                p <= 64,
                wanted == self@.shards(),
                wanted.len() == 64,
                shard_len == erasure_shard_of(self@.template()).len(),
                shard_views(shards@) == wanted.take(p as int),
            decreases 64 - p,
        {
            let place: Option<&Shred> = if p < 32 {
                self.data[p].as_ref()
            } else {
                self.code[p - 32].as_ref()
            };
            let ghost before = shards@;
            let shard: (Vec<u8>, bool) = match place {
                Some(shred) => (vstd::slice::slice_to_vec(shred.erasure_shard()), true),
                None => (zero_bytes(shard_len), false),
            };
            assert((shard.0@, shard.1) == wanted[p as int]);
            shards.push(shard);
            assert(shard_views(shards@) =~= shard_views(before).push((shard.0@, shard.1)));
            assert(wanted.take(p as int).push(wanted[p as int]) =~= wanted.take(p + 1));
            p = p + 1;
        }
        assert(wanted.take(64) =~= wanted);
        shards
    }

    /// Bytes of the missing data shred that `shard` was rebuilt for. Same layout
    /// as a received data shred: the shard already holds every header after the
    /// signature. The proof bytes stay zero.
    fn rebuilt_bytes(&self, shard: &Vec<u8>, template: &Shred) -> (bytes: Vec<u8>)
        ensures
            bytes@ == rebuilt_bytes(self@.signature, shard@, template@),
    {
        let mut bytes: Vec<u8> = Vec::with_capacity(crate::shred::DATA_SHRED_SIZE);
        buffer::append(&mut bytes, &self.signature);
        buffer::append(&mut bytes, shard);
        buffer::append(&mut bytes, template.chained_merkle_root());
        let padding: Vec<u8> = zero_bytes(20 * template.proof_size() as usize);
        buffer::append(&mut bytes, &padding);
        if let Some(signature) = template.retransmitter_signature() {
            buffer::append(&mut bytes, signature);
        }
        assert(bytes@ =~= rebuilt_bytes(self@.signature, shard@, template@));
        bytes
    }

    /// The missing data shred at `position`, from its shard.
    fn rebuilt_shred(&self, shard: &Vec<u8>, template: &Shred, position: usize) -> (built: Result<
        Shred,
        RecoverError,
    >)
        requires
            self@.signature.len() == 64,
            valid_wire(template@),
            shard@.len() == erasure_shard_of(template@).len(),
            position < 32,
        ensures
            fec_set_index_of(template@) + position <= u32::MAX,
            match built {
                Ok(shred) => {
                    let b = rebuilt_bytes(self@.signature, shard@, template@);
                    &&& shred@ == b
                    &&& rebuilt_error(b, template@, position as int) is None
                    &&& belongs(b, ShredKind::Data, position as int)
                    &&& signature_of(b) == self@.signature
                },
                Err(error) => rebuilt_error(
                    rebuilt_bytes(self@.signature, shard@, template@),
                    template@,
                    position as int,
                ) == Some(error),
            },
    {
        let bytes: Vec<u8> = self.rebuilt_bytes(shard, template);
        let ghost b = bytes@;
        proof {
            lemma_rebuilt(self@.signature, shard@, template@, position as int);
            reveal(valid_wire);
            reveal(rebuilt_error);
        }
        let fec_set_index: u32 = template.fec_set_index();
        let index: u32 = fec_set_index + position as u32;
        let shred: Shred = match Shred::parse(buffer::from_vec(bytes)) {
            Ok(shred) => shred,
            Err(error) => return Err(RecoverError::InvalidShred(error)),
        };
        assert(b.take(1203) =~= b);
        if shred.kind() != ShredKind::Data || shred.slot() != template.slot() || shred.index()
            != index || shred.fec_set_index() != fec_set_index || shred.version()
            != template.version() {
            return Err(RecoverError::WrongHeaders { index });
        }
        Ok(shred)
    }

    /// Rebuild the missing data shreds from the set's reconstructed shards.
    /// Returns their indexes. The first shred that is malformed or does not fit
    /// the set ends it: those before it stay.
    pub fn rebuild(&mut self, shards: &Vec<(Vec<u8>, bool)>) -> (outcome: Result<
        Vec<u32>,
        RecoverError,
    >)
        requires
            old(self).wf(),
            old(self)@.num_data() + old(self)@.num_code() > 0,
            shards@.len() >= 32,
            forall|p: int|
                0 <= p < 32 && old(self)@.data[p] is None ==> (#[trigger] shards@[p]).0@.len()
                    == erasure_shard_of(old(self)@.template()).len(),
        ensures
            final(self).wf(),
            final(self)@ == old(self)@.rebuilt_set(shard_views(shards@)),
            match outcome {
                Ok(indexes) => old(self)@.rebuild_outcome(shard_views(shards@)) == Ok::<
                    Seq<u32>,
                    RecoverError,
                >(indexes@),
                Err(error) => old(self)@.rebuild_outcome(shard_views(shards@)) == Err::<
                    Seq<u32>,
                    RecoverError,
                >(error),
            },
    {
        let ghost before = self@;
        let ghost views = shard_views(shards@);
        let template: Shred = self.any_shred().clone();
        let fec_set_index: u32 = template.fec_set_index();
        let mut recovered: Vec<u32> = Vec::new();
        proof {
            reveal(rebuilt_belong);
            assert(before.rebuilt_below(views, 0) =~= before);
            lemma_num_shreds_bound(before.data);
            lemma_num_shreds_bound(before.code);
        }
        let mut position: usize = 0;
        while position < 32
            invariant
                position <= 32,
                before == old(self)@,
                before.data.len() == 32,
                before.signature.len() == 64,
                valid_wire(template@),
                template@ == before.template(),
                fec_set_index == fec_set_index_of(template@),
                views == shard_views(shards@),
                shards@.len() >= 32,
                forall|p: int|
                    0 <= p < 32 && before.data[p] is None ==> (#[trigger] shards@[p]).0@.len()
                        == erasure_shard_of(before.template()).len(),
                before.valid(),
                before.root is Some,
                self@ == before.rebuilt_below(views, position as int),
                self.num_data == self@.num_data(),
                self.num_code == self@.num_code(),
                rebuilt_belong(before, views, position as int),
                recovered@ == before.missing_below(position as int),
                before.first_refused(views, 0) == before.first_refused(views, position as int),
            decreases 32 - position,
        {
            let ghost here = self@;
            assert(here.data[position as int] == before.data[position as int]);
            proof {
                lemma_num_shreds_bound(here.data);
            }
            if self.data[position].is_none() {
                assert(views[position as int].0 == shards@[position as int].0@);
                let built = self.rebuilt_shred(&shards[position].0, &template, position);
                let shred: Shred = match built {
                    Ok(shred) => shred,
                    Err(error) => {
                        proof {
                            lemma_part_rebuilt(before, views, position as int);
                        }
                        return Err(error);
                    },
                };
                let ghost b = shred@;
                self.data[position] = Some(shred);
                self.num_data = self.num_data + 1;
                recovered.push(fec_set_index + position as u32);
                assert(wires(self.data@) =~= here.data.update(position as int, Some(b)));
            }
            proof {
                lemma_rebuild_step(before, views, position as int);
            }
            position = position + 1;
        }
        self.drop_code();
        proof {
            lemma_all_rebuilt(before, views);
        }
        Ok(recovered)
    }

    /// Rebuild the missing data shreds. Returns their indexes. The codec refuses
    /// the shards only where they differ in length. If the set holds part of a
    /// whole set, it then has all data shreds of that one.
    pub fn recover(&mut self, rs: &ReedSolomon) -> (outcome: Result<Vec<u32>, RecoverError>)
        requires
            old(self).wf(),
            old(self)@.can_recover(),
        ensures
            final(self).wf(),
            final(self)@ == old(self)@.recovered(),
            match outcome {
                Ok(indexes) => old(self)@.recover_outcome() == Ok::<Seq<u32>, RecoverError>(
                    indexes@,
                ),
                Err(error) => old(self)@.recover_outcome() == Err::<Seq<u32>, RecoverError>(error),
            },
            reconstructed(old(self)@.shards()) is Ok <==> recoverable(old(self)@.shards()),
            forall|whole: Seq<Seq<u8>>|
                whole_set(whole) && #[trigger] part_of(old(self)@, whole) ==> outcome is Ok
                    && final(self)@.is_complete() && forall|p: int|
                    0 <= p < 32 ==> same_up_to_proof(
                        (#[trigger] final(self)@.data[p])->0,
                        whole[p],
                    ),
    {
        let ghost before = self@;
        let template: Shred = self.any_shred().clone();
        let mut shards: Vec<(Vec<u8>, bool)> = self.shards(&template);
        let ghost given = shard_views(shards@);
        // Only the data shards; reconstructing the missing parity would be
        // wasted work, nothing reads it.
        match reconstruct_data(rs, &mut shards) {
            Ok(()) => {},
            Err(error) => {
                proof {
                    assert forall|whole: Seq<Seq<u8>>|
                        whole_set(whole) && #[trigger] part_of(before, whole) implies false by {
                        lemma_part_is_recoverable(before, whole);
                    }
                }
                return Err(RecoverError::ReedSolomon(error));
            },
        }
        let ghost views = shard_views(shards@);
        proof {
            assert forall|p: int| 0 <= p < 32 && before.data[p] is None implies (
            #[trigger] shards@[p]).0@.len() == erasure_shard_of(before.template()).len() by {
                assert(views[p].0 == shards@[p].0@);
                assert((before.data + before.code)[p] is None);
                assert(given[p] == (zeros(erasure_shard_of(before.template()).len()), false));
            }
        }
        let outcome = self.rebuild(&shards);
        proof {
            assert forall|whole: Seq<Seq<u8>>|
                whole_set(whole) && #[trigger] part_of(before, whole) implies outcome is Ok
                && self@.is_complete() && forall|p: int|
                0 <= p < 32 ==> same_up_to_proof((#[trigger] self@.data[p])->0, whole[p]) by {
                lemma_whole_set_recovered(before, whole, views);
            }
        }
        outcome
    }
}

} // verus!

//! Shreds by their parts: what a leader puts together is what is read, and every shred
//! that is accepted can be put together from what is read of it.

use crate::le::{
    le16, le16_bytes, le32_bytes, le64_bytes, lemma_le16_round_trip, lemma_le16_spelled,
    lemma_le32_round_trip, lemma_le32_spelled, lemma_le64_round_trip, lemma_le64_spelled,
    lemma_le_same_bytes,
};
use crate::merkle::{
    clash, clash_on_the_way, law_leaves_that_differ, law_proof_binds, law_proof_reproduces_root,
    law_what_is_hashed, leaf_parts, sha256v, tree_proof, tree_root, Hash32,
};
use crate::shred::{
    capacity_of, chained_root_of, code_header_error, data_complete_of, data_header_error, data_of,
    erasure_index_of, erasure_shard_of, fec_set_index_of, flags_of, index_of, kind_of,
    last_in_slot_of, law_layout, law_trailing_bytes_are_ignored, lemma_masks, merkle_leaf_of,
    merkle_proof_of, merkle_root_of, num_code_of, num_data_of, parent_offset_of, parent_slot_of,
    parse_error, position_of, proof_size_of, resigned_of, retransmitter_signature_of, room,
    shred_bytes, signature_of, size_of, slot_of, valid_wire, version_of, ShredError, ShredKind,
};
use vstd::prelude::*;

verus! {

/// The first byte after the signature: kind and form of the shred in the high half, the
/// number of its proof entries in the low half.
pub open spec fn variant_byte(kind: ShredKind, resigned: bool, entries: u8) -> u8 {
    match (kind, resigned) {
        (ShredKind::Data, false) => (0x90 + entries) as u8,
        (ShredKind::Data, true) => (0xb0 + entries) as u8,
        (ShredKind::Code, false) => (0x60 + entries) as u8,
        (ShredKind::Code, true) => (0x70 + entries) as u8,
    }
}

/// What all shreds have behind the signature: variant, slot, index, shred version and
/// FEC set index.
#[verifier::opaque]
pub open spec fn common_headers(
    variant: u8,
    slot: u64,
    index: u32,
    version: u16,
    fec_set_index: u32,
) -> Seq<u8> {
    seq![variant] + le64_bytes(slot) + le32_bytes(index) + le16_bytes(version) + le32_bytes(
        fec_set_index,
    )
}

/// What a data shred is made of.
pub struct DataParts {
    pub signature: Seq<u8>,
    pub resigned: bool,
    pub entries: u8,
    pub slot: u64,
    pub index: u32,
    pub version: u16,
    pub fec_set_index: u32,
    pub parent_offset: u16,
    pub flags: u8,
    pub data: Seq<u8>,
    pub padding: Seq<u8>,
    pub chained_root: Seq<u8>,
    pub proof_bytes: Seq<u8>,
    pub retransmitter: Seq<u8>,
}

impl DataParts {
    /// Everything between the leader's signature and the chained root: this is coded.
    pub open spec fn shard(self) -> Seq<u8> {
        common_headers(
            variant_byte(ShredKind::Data, self.resigned, self.entries),
            self.slot,
            self.index,
            self.version,
            self.fec_set_index,
        ) + le16_bytes(self.parent_offset) + seq![self.flags] + le16_bytes(
            (88 + self.data.len()) as u16,
        ) + self.data + self.padding
    }

    pub open spec fn bytes(self) -> Seq<u8> {
        self.signature + self.shard() + self.chained_root + self.proof_bytes + self.retransmitter
    }

    /// Every part has its size, and they fill the shred.
    pub open spec fn sized(self) -> bool {
        &&& self.signature.len() == 64
        &&& self.entries < 16
        &&& self.chained_root.len() == 32
        &&& self.proof_bytes.len() == 20 * self.entries
        &&& self.retransmitter.len() == (if self.resigned {
            64nat
        } else {
            0
        })
        &&& self.bytes().len() == 1203
    }

    /// The fields go together: the index is one of the slot and of the FEC set, the slot
    /// has a parent unless it is the first, and the last shred of a slot ends a batch and
    /// a FEC set.
    pub open spec fn sane(self) -> bool {
        &&& self.index < 32768
        &&& exists|set: int, place: int|
            0 <= place < 32 && self.fec_set_index == #[trigger] (32 * set) && self.index
                == #[trigger] (32 * set + place)
        &&& if self.slot == 0 {
            self.parent_offset == 0
        } else {
            1 <= self.parent_offset <= self.slot
        }
        &&& self.flags & 0x80 != 0 ==> self.flags & 0x40 != 0 && self.index % 32 == 31
    }
}

/// What a code shred is made of.
pub struct CodeParts {
    pub signature: Seq<u8>,
    pub resigned: bool,
    pub entries: u8,
    pub slot: u64,
    pub index: u32,
    pub version: u16,
    pub fec_set_index: u32,
    pub num_data: u16,
    pub num_code: u16,
    pub position: u16,
    pub shard: Seq<u8>,
    pub chained_root: Seq<u8>,
    pub proof_bytes: Seq<u8>,
    pub retransmitter: Seq<u8>,
}

impl CodeParts {
    pub open spec fn headers(self) -> Seq<u8> {
        common_headers(
            variant_byte(ShredKind::Code, self.resigned, self.entries),
            self.slot,
            self.index,
            self.version,
            self.fec_set_index,
        ) + le16_bytes(self.num_data) + le16_bytes(self.num_code) + le16_bytes(self.position)
    }

    pub open spec fn bytes(self) -> Seq<u8> {
        self.signature + self.headers() + self.shard + self.chained_root + self.proof_bytes
            + self.retransmitter
    }

    /// Every part has its size, and they fill the shred.
    pub open spec fn sized(self) -> bool {
        &&& self.signature.len() == 64
        &&& self.entries < 16
        &&& self.chained_root.len() == 32
        &&& self.proof_bytes.len() == 20 * self.entries
        &&& self.retransmitter.len() == (if self.resigned {
            64nat
        } else {
            0
        })
        &&& self.bytes().len() == 1228
    }

    /// The fields go together: the set is one of 32 data and 32 code shreds, and the
    /// position is one of them.
    pub open spec fn sane(self) -> bool {
        &&& self.index < 32768
        &&& self.fec_set_index % 32 == 0
        &&& self.num_data == 32
        &&& self.num_code == 32
        &&& self.position < 32
        &&& self.position <= self.index
    }
}

/// What the fields read that all shreds have.
proof fn lemma_common(
    signature: Seq<u8>,
    variant: u8,
    slot: u64,
    index: u32,
    version: u16,
    fec_set_index: u32,
    rest: Seq<u8>,
)
    requires
        signature.len() == 64,
    ensures
        common_headers(variant, slot, index, version, fec_set_index).len() == 19,
        ({
            let b = signature + common_headers(variant, slot, index, version, fec_set_index) + rest;
            &&& b.len() == 83 + rest.len()
            &&& b[64] == variant
            &&& slot_of(b) == slot
            &&& index_of(b) == index
            &&& version_of(b) == version
            &&& fec_set_index_of(b) == fec_set_index
        }),
{
    reveal(common_headers);
    let head = common_headers(variant, slot, index, version, fec_set_index);
    let b = signature + head + rest;
    assert(b.subrange(65, 73) =~= le64_bytes(slot));
    assert(b.subrange(73, 77) =~= le32_bytes(index));
    assert(b.subrange(77, 79) =~= le16_bytes(version));
    assert(b.subrange(79, 83) =~= le32_bytes(fec_set_index));
    assert(le64_bytes(slot).subrange(0, 8) =~= le64_bytes(slot));
    assert(le32_bytes(index).subrange(0, 4) =~= le32_bytes(index));
    assert(le16_bytes(version).subrange(0, 2) =~= le16_bytes(version));
    assert(le32_bytes(fec_set_index).subrange(0, 4) =~= le32_bytes(fec_set_index));
    lemma_le_same_bytes(b, 65, le64_bytes(slot), 0, 8);
    lemma_le_same_bytes(b, 73, le32_bytes(index), 0, 4);
    lemma_le_same_bytes(b, 77, le16_bytes(version), 0, 2);
    lemma_le_same_bytes(b, 79, le32_bytes(fec_set_index), 0, 4);
    lemma_le64_round_trip(slot);
    lemma_le32_round_trip(index);
    lemma_le16_round_trip(version);
    lemma_le32_round_trip(fec_set_index);
}

/// A number of two bytes reads back where it stands.
proof fn lemma_le16_in(b: Seq<u8>, at: int, x: u16)
    requires
        0 <= at,
        at + 2 <= b.len(),
        b.subrange(at, at + 2) == le16_bytes(x),
    ensures
        le16(b, at) == x,
{
    assert(le16_bytes(x).subrange(0, 2) =~= le16_bytes(x));
    lemma_le_same_bytes(b, at, le16_bytes(x), 0, 2);
    lemma_le16_round_trip(x);
}

/// Where the parts of a data shred are.
proof fn lemma_data_places(
    signature: Seq<u8>,
    common: Seq<u8>,
    parent: Seq<u8>,
    flags: u8,
    size: Seq<u8>,
    data: Seq<u8>,
    padding: Seq<u8>,
    root: Seq<u8>,
    siblings: Seq<u8>,
    retransmitter: Seq<u8>,
)
    requires
        signature.len() == 64,
        common.len() == 19,
        parent.len() == 2,
        size.len() == 2,
        root.len() == 32,
    ensures
        ({
            let shard = common + parent + seq![flags] + size + data + padding;
            let b = signature + shard + root + siblings + retransmitter;
            let end = 88 + data.len() as int + padding.len() as int;
            &&& shard.len() == end - 64
            &&& b.len() == end + 32 + siblings.len() + retransmitter.len()
            &&& b == signature + common + (parent + seq![flags] + size + data + padding + root
                + siblings + retransmitter)
            &&& b.take(64) == signature
            &&& b.subrange(83, 85) == parent
            &&& b[85] == flags
            &&& b.subrange(86, 88) == size
            &&& b.subrange(88, 88 + data.len() as int) == data
            &&& b.subrange(64, end) == shard
            &&& b.subrange(end, end + 32) == root
            &&& b.subrange(64, end + 32) == shard + root
            &&& b.subrange(end + 32, end + 32 + siblings.len()) == siblings
            &&& b.subrange(b.len() - retransmitter.len(), b.len() as int) == retransmitter
        }),
{
    let shard = common + parent + seq![flags] + size + data + padding;
    let b = signature + shard + root + siblings + retransmitter;
    let end = 88 + data.len() as int + padding.len() as int;
    assert(b =~= signature + common + (parent + seq![flags] + size + data + padding + root
        + siblings + retransmitter));
    assert(b.take(64) =~= signature);
    assert(b.subrange(83, 85) =~= parent);
    assert(b.subrange(86, 88) =~= size);
    assert(b.subrange(88, 88 + data.len() as int) =~= data);
    assert(b.subrange(64, end) =~= shard);
    assert(b.subrange(end, end + 32) =~= root);
    assert(b.subrange(64, end + 32) =~= shard + root);
    assert(b.subrange(end + 32, end + 32 + siblings.len()) =~= siblings);
    assert(b.subrange(b.len() - retransmitter.len(), b.len() as int) =~= retransmitter);
}

/// The fields of a data shred.
proof fn lemma_data_fields(p: DataParts)
    requires
        p.sized(),
    ensures
        ({
            let b = p.bytes();
            let end = 64 + p.shard().len() as int;
            &&& slot_of(b) == p.slot
            &&& index_of(b) == p.index
            &&& version_of(b) == p.version
            &&& fec_set_index_of(b) == p.fec_set_index
            &&& b[64] == variant_byte(ShredKind::Data, p.resigned, p.entries)
            &&& signature_of(b) == p.signature
            &&& parent_offset_of(b) == p.parent_offset
            &&& flags_of(b) == p.flags
            &&& size_of(b) == 88 + p.data.len()
            &&& b.len() == 1203
            &&& end == 88 + p.data.len() + p.padding.len()
            &&& end + 32 + p.proof_bytes.len() + p.retransmitter.len() == 1203
            &&& b.subrange(88, 88 + p.data.len() as int) == p.data
            &&& b.subrange(64, end) == p.shard()
            &&& b.subrange(end, end + 32) == p.chained_root
            &&& b.subrange(64, end + 32) == p.shard() + p.chained_root
            &&& b.subrange(end + 32, end + 32 + p.proof_bytes.len()) == p.proof_bytes
            &&& b.subrange(1203 - p.retransmitter.len(), 1203) == p.retransmitter
        }),
{
    let b = p.bytes();
    let variant = variant_byte(ShredKind::Data, p.resigned, p.entries);
    let head = common_headers(variant, p.slot, p.index, p.version, p.fec_set_index);
    let parent = le16_bytes(p.parent_offset);
    let size_field = (88 + p.data.len()) as u16;
    let size = le16_bytes(size_field);
    let rest = parent + seq![p.flags] + size + p.data + p.padding + p.chained_root + p.proof_bytes
        + p.retransmitter;
    lemma_common(p.signature, variant, p.slot, p.index, p.version, p.fec_set_index, rest);
    lemma_data_places(
        p.signature,
        head,
        parent,
        p.flags,
        size,
        p.data,
        p.padding,
        p.chained_root,
        p.proof_bytes,
        p.retransmitter,
    );
    lemma_le16_in(b, 83, p.parent_offset);
    lemma_le16_in(b, 86, size_field);
}

/// The high and the low half of the variant byte.
proof fn lemma_variant(kind: ShredKind, resigned: bool, entries: u8)
    requires
        entries < 16,
    ensures
        ({
            let v = variant_byte(kind, resigned, entries);
            &&& v % 16 == entries
            &&& kind == ShredKind::Data ==> v / 16 == (if resigned {
                11int
            } else {
                9
            })
            &&& kind == ShredKind::Code ==> v / 16 == (if resigned {
                7int
            } else {
                6
            })
        }),
{
}

/// A data shred that was put together reads as its parts: every field is the one that
/// was put in, the coded part is what stands between the signature and the chained root,
/// and the Merkle leaf is that and the chained root.
pub proof fn law_data_shred_reads_as_its_parts(p: DataParts)
    requires
        p.sized(),
    ensures
        ({
            let b = p.bytes();
            &&& kind_of(b) == ShredKind::Data
            &&& resigned_of(b) == p.resigned
            &&& proof_size_of(b) == p.entries
            &&& signature_of(b) == p.signature
            &&& slot_of(b) == p.slot
            &&& index_of(b) == p.index
            &&& version_of(b) == p.version
            &&& fec_set_index_of(b) == p.fec_set_index
            &&& flags_of(b) == p.flags
            &&& data_of(b) == p.data
            &&& p.parent_offset <= p.slot ==> parent_slot_of(b) == Some(
                (p.slot - p.parent_offset) as u64,
            )
            &&& data_complete_of(b) == (p.flags & 0x40 != 0)
            &&& last_in_slot_of(b) == (p.flags & 0x40 != 0 && p.flags & 0x80 != 0)
            &&& erasure_shard_of(b) == p.shard()
            &&& erasure_index_of(b) == p.index - p.fec_set_index
            &&& chained_root_of(b) == p.chained_root
            &&& merkle_proof_of(b) == p.proof_bytes
            &&& retransmitter_signature_of(b) == (if p.resigned {
                Some(p.retransmitter)
            } else {
                None
            })
            &&& merkle_leaf_of(b) == sha256v(leaf_parts(p.shard() + p.chained_root))
        }),
{
    let b = p.bytes();
    lemma_data_fields(p);
    lemma_variant(ShredKind::Data, p.resigned, p.entries);
    lemma_masks(p.flags);
    lemma_flag_pair(p.flags);
    assert(capacity_of(b) == p.data.len() + p.padding.len());
    let leaf = p.shard() + p.chained_root;
    let some: Seq<u8> = Seq::new(20, |i: int| 0u8);
    law_what_is_hashed(leaf, some, some);
}

/// Bits 6 and 7, one by one and together.
proof fn lemma_flag_pair(flags: u8)
    by (bit_vector)
    ensures
        (flags / 64 == 3) == (flags & 0x40 != 0 && flags & 0x80 != 0),
        (flags / 64 == 2) == (flags & 0x40 == 0 && flags & 0x80 != 0),
{
}

/// Which FEC set an index is in.
proof fn lemma_in_set(index: u32, fec_set_index: u32)
    ensures
        (exists|set: int, place: int|
            0 <= place < 32 && fec_set_index == #[trigger] (32 * set) && index == #[trigger] (32
                * set + place)) <==> fec_set_index % 32 == 0 && fec_set_index <= index
            < fec_set_index + 32,
{
    if fec_set_index % 32 == 0 && fec_set_index <= index < fec_set_index + 32 {
        let set = fec_set_index as int / 32;
        let place = index - fec_set_index;
        assert(fec_set_index == 32 * set && index == 32 * set + place);
    }
}

/// A data shred that was put together is accepted exactly if its fields go together,
/// whatever follows it in its datagram, and what follows is left out.
pub proof fn law_sane_data_shreds_are_accepted(p: DataParts, after: Seq<u8>)
    requires
        p.sized(),
    ensures
        parse_error(p.bytes() + after) is None <==> p.sane(),
        shred_bytes(p.bytes() + after) == p.bytes(),
        p.sane() ==> valid_wire(p.bytes()),
{
    let b = p.bytes();
    law_data_shred_reads_as_its_parts(p);
    lemma_data_fields(p);
    lemma_variant(ShredKind::Data, p.resigned, p.entries);
    law_trailing_bytes_are_ignored(b, after);
    assert(shred_bytes(b) =~= b);
    lemma_flag_pair(p.flags);
    lemma_in_set(p.index, p.fec_set_index);
    assert(capacity_of(b) == p.data.len() + p.padding.len());
    reveal(valid_wire);
}

/// Where the parts of a code shred are.
proof fn lemma_code_places(
    signature: Seq<u8>,
    common: Seq<u8>,
    num_data: Seq<u8>,
    num_code: Seq<u8>,
    position: Seq<u8>,
    shard: Seq<u8>,
    root: Seq<u8>,
    siblings: Seq<u8>,
    retransmitter: Seq<u8>,
)
    requires
        signature.len() == 64,
        common.len() == 19,
        num_data.len() == 2,
        num_code.len() == 2,
        position.len() == 2,
        root.len() == 32,
    ensures
        ({
            let headers = common + num_data + num_code + position;
            let b = signature + headers + shard + root + siblings + retransmitter;
            let end = 89 + shard.len() as int;
            &&& b.len() == end + 32 + siblings.len() + retransmitter.len()
            &&& b == signature + common + (num_data + num_code + position + shard + root + siblings
                + retransmitter)
            &&& b.take(64) == signature
            &&& b.subrange(64, 89) == headers
            &&& b.subrange(83, 85) == num_data
            &&& b.subrange(85, 87) == num_code
            &&& b.subrange(87, 89) == position
            &&& b.subrange(89, end) == shard
            &&& b.subrange(end, end + 32) == root
            &&& b.subrange(89, end + 32) == shard + root
            &&& b.subrange(end + 32, end + 32 + siblings.len()) == siblings
            &&& b.subrange(b.len() - retransmitter.len(), b.len() as int) == retransmitter
        }),
{
    let headers = common + num_data + num_code + position;
    let b = signature + headers + shard + root + siblings + retransmitter;
    let end = 89 + shard.len() as int;
    assert(b =~= signature + common + (num_data + num_code + position + shard + root + siblings
        + retransmitter));
    assert(b.take(64) =~= signature);
    assert(b.subrange(64, 89) =~= headers);
    assert(b.subrange(83, 85) =~= num_data);
    assert(b.subrange(85, 87) =~= num_code);
    assert(b.subrange(87, 89) =~= position);
    assert(b.subrange(89, end) =~= shard);
    assert(b.subrange(end, end + 32) =~= root);
    assert(b.subrange(89, end + 32) =~= shard + root);
    assert(b.subrange(end + 32, end + 32 + siblings.len()) =~= siblings);
    assert(b.subrange(b.len() - retransmitter.len(), b.len() as int) =~= retransmitter);
}

/// The fields of a code shred.
proof fn lemma_code_fields(p: CodeParts)
    requires
        p.sized(),
    ensures
        ({
            let b = p.bytes();
            let end = 89 + p.shard.len() as int;
            &&& slot_of(b) == p.slot
            &&& index_of(b) == p.index
            &&& version_of(b) == p.version
            &&& fec_set_index_of(b) == p.fec_set_index
            &&& b[64] == variant_byte(ShredKind::Code, p.resigned, p.entries)
            &&& signature_of(b) == p.signature
            &&& num_data_of(b) == p.num_data
            &&& num_code_of(b) == p.num_code
            &&& position_of(b) == p.position
            &&& b.len() == 1228
            &&& end + 32 + p.proof_bytes.len() + p.retransmitter.len() == 1228
            &&& b.subrange(64, 89) == p.headers()
            &&& b.subrange(89, end) == p.shard
            &&& b.subrange(end, end + 32) == p.chained_root
            &&& b.subrange(89, end + 32) == p.shard + p.chained_root
            &&& b.subrange(end + 32, end + 32 + p.proof_bytes.len()) == p.proof_bytes
            &&& b.subrange(1228 - p.retransmitter.len(), 1228) == p.retransmitter
        }),
{
    let b = p.bytes();
    let variant = variant_byte(ShredKind::Code, p.resigned, p.entries);
    let head = common_headers(variant, p.slot, p.index, p.version, p.fec_set_index);
    let num_data = le16_bytes(p.num_data);
    let num_code = le16_bytes(p.num_code);
    let position = le16_bytes(p.position);
    let rest = num_data + num_code + position + p.shard + p.chained_root + p.proof_bytes
        + p.retransmitter;
    lemma_common(p.signature, variant, p.slot, p.index, p.version, p.fec_set_index, rest);
    lemma_code_places(
        p.signature,
        head,
        num_data,
        num_code,
        position,
        p.shard,
        p.chained_root,
        p.proof_bytes,
        p.retransmitter,
    );
    lemma_le16_in(b, 83, p.num_data);
    lemma_le16_in(b, 85, p.num_code);
    lemma_le16_in(b, 87, p.position);
}

/// A code shred that was put together reads as its parts: every field is the one that
/// was put in, the coded part is what stands between the headers and the chained root,
/// and the Merkle leaf is that and the chained root.
pub proof fn law_code_shred_reads_as_its_parts(p: CodeParts)
    requires
        p.sized(),
    ensures
        ({
            let b = p.bytes();
            &&& kind_of(b) == ShredKind::Code
            &&& resigned_of(b) == p.resigned
            &&& proof_size_of(b) == p.entries
            &&& signature_of(b) == p.signature
            &&& slot_of(b) == p.slot
            &&& index_of(b) == p.index
            &&& version_of(b) == p.version
            &&& fec_set_index_of(b) == p.fec_set_index
            &&& data_of(b) == Seq::<u8>::empty()
            &&& parent_slot_of(b) is None
            &&& !data_complete_of(b)
            &&& !last_in_slot_of(b)
            &&& erasure_shard_of(b) == p.shard
            &&& erasure_index_of(b) == 32 + p.position
            &&& chained_root_of(b) == p.chained_root
            &&& merkle_proof_of(b) == p.proof_bytes
            &&& retransmitter_signature_of(b) == (if p.resigned {
                Some(p.retransmitter)
            } else {
                None
            })
            &&& merkle_leaf_of(b) == sha256v(leaf_parts(p.shard + p.chained_root))
        }),
{
    let b = p.bytes();
    lemma_code_fields(p);
    lemma_variant(ShredKind::Code, p.resigned, p.entries);
    assert(capacity_of(b) == p.shard.len());
    let leaf = p.shard + p.chained_root;
    let some: Seq<u8> = Seq::new(20, |i: int| 0u8);
    law_what_is_hashed(leaf, some, some);
}

/// A code shred that was put together is accepted exactly if its fields go together,
/// whatever follows it in its datagram, and what follows is left out.
pub proof fn law_sane_code_shreds_are_accepted(p: CodeParts, after: Seq<u8>)
    requires
        p.sized(),
    ensures
        parse_error(p.bytes() + after) is None <==> p.sane(),
        shred_bytes(p.bytes() + after) == p.bytes(),
        p.sane() ==> valid_wire(p.bytes()),
{
    let b = p.bytes();
    law_code_shred_reads_as_its_parts(p);
    lemma_code_fields(p);
    lemma_variant(ShredKind::Code, p.resigned, p.entries);
    law_trailing_bytes_are_ignored(b, after);
    assert(shred_bytes(b) =~= b);
    assert(capacity_of(b) == p.shard.len());
    reveal(valid_wire);
}

/// The parts of a data shred.
pub open spec fn data_parts(b: Seq<u8>) -> DataParts {
    let end = b.len() - (if b[64] & 0xf0 == 0xb0 {
        64int
    } else {
        0
    });
    let entries = b[64] & 0x0f;
    let chained = end - 20 * entries - 32;
    DataParts {
        signature: b.subrange(0, 64),
        resigned: b[64] & 0xf0 == 0xb0,
        entries,
        slot: slot_of(b),
        index: index_of(b),
        version: version_of(b),
        fec_set_index: fec_set_index_of(b),
        parent_offset: parent_offset_of(b),
        flags: b[85],
        data: data_of(b),
        padding: b.subrange(88 + data_of(b).len() as int, chained),
        chained_root: b.subrange(chained, chained + 32),
        proof_bytes: b.subrange(chained + 32, end),
        retransmitter: b.subrange(end, b.len() as int),
    }
}

/// The parts of a code shred.
pub open spec fn code_parts(b: Seq<u8>) -> CodeParts {
    let end = b.len() - (if b[64] & 0xf0 == 0x70 {
        64int
    } else {
        0
    });
    let entries = b[64] & 0x0f;
    let chained = end - 20 * entries - 32;
    CodeParts {
        signature: b.subrange(0, 64),
        resigned: b[64] & 0xf0 == 0x70,
        entries,
        slot: slot_of(b),
        index: index_of(b),
        version: version_of(b),
        fec_set_index: fec_set_index_of(b),
        num_data: num_data_of(b),
        num_code: num_code_of(b),
        position: position_of(b),
        shard: b.subrange(89, chained),
        chained_root: b.subrange(chained, chained + 32),
        proof_bytes: b.subrange(chained + 32, end),
        retransmitter: b.subrange(end, b.len() as int),
    }
}

/// The bytes of the common headers are those that spell what is read of them.
proof fn lemma_common_spelled(b: Seq<u8>)
    requires
        b.len() >= 83,
    ensures
        b.subrange(64, 83) == common_headers(
            b[64],
            slot_of(b),
            index_of(b),
            version_of(b),
            fec_set_index_of(b),
        ),
{
    reveal(common_headers);
    lemma_le64_spelled(b, 65);
    lemma_le32_spelled(b, 73);
    lemma_le16_spelled(b, 77);
    lemma_le32_spelled(b, 79);
    assert(b.subrange(64, 83) =~= seq![b[64]] + b.subrange(65, 73) + b.subrange(73, 77)
        + b.subrange(77, 79) + b.subrange(79, 83));
}

/// The halves of the variant byte, by mask.
proof fn lemma_halves(v: u8)
    by (bit_vector)
    ensures
        v & 0x0f < 16,
        v & 0x0f == v % 16,
        (v & 0xf0 == 0x90) == (v / 16 == 9),
        (v & 0xf0 == 0xb0) == (v / 16 == 11),
        (v & 0xf0 == 0x60) == (v / 16 == 6),
        (v & 0xf0 == 0x70) == (v / 16 == 7),
        v / 16 == 9 ==> v == 0x90 + (v & 0x0f),
        v / 16 == 11 ==> v == 0xb0 + (v & 0x0f),
        v / 16 == 6 ==> v == 0x60 + (v & 0x0f),
        v / 16 == 7 ==> v == 0x70 + (v & 0x0f),
{
}

/// The places of the parts of a data shred, one after the other, make it up.
proof fn lemma_data_rejoined(b: Seq<u8>, data_end: int, end: int, siblings: int)
    requires
        b.len() == 1203,
        88 <= data_end <= end,
        0 <= siblings,
        end + 32 + siblings <= 1203,
    ensures
        b == b.subrange(0, 64) + (b.subrange(64, 83) + b.subrange(83, 85) + seq![b[85]]
            + b.subrange(86, 88) + b.subrange(88, data_end) + b.subrange(data_end, end))
            + b.subrange(end, end + 32) + b.subrange(end + 32, end + 32 + siblings) + b.subrange(
            end + 32 + siblings,
            1203,
        ),
{
    assert(b =~= b.subrange(0, 64) + (b.subrange(64, 83) + b.subrange(83, 85) + seq![b[85]]
        + b.subrange(86, 88) + b.subrange(88, data_end) + b.subrange(data_end, end)) + b.subrange(
        end,
        end + 32,
    ) + b.subrange(end + 32, end + 32 + siblings) + b.subrange(end + 32 + siblings, 1203));
}

/// The places of the parts of a code shred, one after the other, make it up.
proof fn lemma_code_rejoined(b: Seq<u8>, end: int, siblings: int)
    requires
        b.len() == 1228,
        89 <= end,
        0 <= siblings,
        end + 32 + siblings <= 1228,
    ensures
        b == b.subrange(0, 64) + (b.subrange(64, 83) + b.subrange(83, 85) + b.subrange(85, 87)
            + b.subrange(87, 89)) + b.subrange(89, end) + b.subrange(end, end + 32) + b.subrange(
            end + 32,
            end + 32 + siblings,
        ) + b.subrange(end + 32 + siblings, 1228),
{
    assert(b =~= b.subrange(0, 64) + (b.subrange(64, 83) + b.subrange(83, 85) + b.subrange(85, 87)
        + b.subrange(87, 89)) + b.subrange(89, end) + b.subrange(end, end + 32) + b.subrange(
        end + 32,
        end + 32 + siblings,
    ) + b.subrange(end + 32 + siblings, 1228));
}

/// A data shred that is accepted is put together from sane parts: nothing in it goes
/// unread, and no datagram is accepted that a leader could not have sent.
pub proof fn law_accepted_data_shreds_are_made_of_parts(b: Seq<u8>)
    requires
        valid_wire(b),
        kind_of(b) == ShredKind::Data,
    ensures
        data_parts(b).sized(),
        data_parts(b).sane(),
        data_parts(b).bytes() == b,
{
    reveal(valid_wire);
    let p = data_parts(b);
    lemma_halves(b[64]);
    lemma_common_spelled(b);
    lemma_le16_spelled(b, 83);
    lemma_le16_spelled(b, 86);
    lemma_flag_pair(b[85]);
    lemma_in_set(p.index, p.fec_set_index);
    assert(variant_byte(ShredKind::Data, p.resigned, p.entries) == b[64]);
    assert((88 + p.data.len()) as u16 == size_of(b));
    lemma_data_rejoined(
        b,
        88 + p.data.len() as int,
        88 + p.data.len() as int + p.padding.len() as int,
        p.proof_bytes.len() as int,
    );
}

/// A code shred that is accepted is put together from sane parts: nothing in it goes
/// unread, and no datagram is accepted that a leader could not have sent.
pub proof fn law_accepted_code_shreds_are_made_of_parts(b: Seq<u8>)
    requires
        valid_wire(b),
        kind_of(b) == ShredKind::Code,
    ensures
        code_parts(b).sized(),
        code_parts(b).sane(),
        code_parts(b).bytes() == b,
{
    reveal(valid_wire);
    let p = code_parts(b);
    lemma_halves(b[64]);
    lemma_common_spelled(b);
    lemma_le16_spelled(b, 83);
    lemma_le16_spelled(b, 85);
    lemma_le16_spelled(b, 87);
    assert(variant_byte(ShredKind::Code, p.resigned, p.entries) == b[64]);
    lemma_code_rejoined(b, 89 + p.shard.len() as int, p.proof_bytes.len() as int);
}

/// Signature, headers of a code shred, erasure shard, chained root, proof and
/// retransmitter signature make up a shred, each of its own size, without a gap and
/// without overlap.
pub proof fn law_parts_fill_the_shred(b: Seq<u8>)
    requires
        valid_wire(b),
    ensures
        ({
            let headers = if kind_of(b) == ShredKind::Code {
                b.subrange(64, 89)
            } else {
                Seq::empty()
            };
            let retransmitter = match retransmitter_signature_of(b) {
                Some(signature) => signature,
                None => Seq::empty(),
            };
            &&& b == signature_of(b) + headers + erasure_shard_of(b) + chained_root_of(b)
                + merkle_proof_of(b) + retransmitter
            &&& signature_of(b).len() == 64
            &&& chained_root_of(b).len() == 32
            &&& merkle_proof_of(b).len() == 20 * (b[64] & 0x0f)
            &&& retransmitter.len() == (if b[64] & 0xf0 == 0xb0 || b[64] & 0xf0 == 0x70 {
                64nat
            } else {
                0
            })
            &&& b.len() == (if b[64] & 0xf0 == 0x90 || b[64] & 0xf0 == 0xb0 {
                1203nat
            } else {
                1228
            })
        }),
{
    reveal(valid_wire);
    lemma_halves(b[64]);
    if kind_of(b) == ShredKind::Data {
        law_accepted_data_shreds_are_made_of_parts(b);
        law_data_shred_reads_as_its_parts(data_parts(b));
        let p = data_parts(b);
        assert(p.signature + Seq::empty() =~= p.signature);
    } else {
        law_accepted_code_shreds_are_made_of_parts(b);
        law_code_shred_reads_as_its_parts(code_parts(b));
        lemma_code_fields(code_parts(b));
    }
}

/// A data shred ends a batch exactly if bit 6 of its flags is set, whatever the other
/// bits, and is the last of its slot if bit 7 is set too. The reference tick in the low
/// six bits makes no difference.
pub proof fn law_flags(b: Seq<u8>, other: Seq<u8>)
    ensures
        kind_of(b) == ShredKind::Data ==> {
            &&& data_complete_of(b) <==> b[85] & 0x40 != 0
            &&& last_in_slot_of(b) <==> b[85] & 0xc0 == 0xc0
        },
        kind_of(b) == ShredKind::Code ==> !data_complete_of(b) && !last_in_slot_of(b),
        kind_of(b) == kind_of(other) && b[85] & 0xc0 == other[85] & 0xc0 ==> data_complete_of(b)
            == data_complete_of(other) && last_in_slot_of(b) == last_in_slot_of(other),
{
    lemma_masks(b[85]);
    let f = b[85];
    let g = other[85];
    assert(f & 0xc0 == g & 0xc0 ==> f / 64 == g / 64) by (bit_vector);
}

/// Shreds of one form and place that differ in a byte between the signature (data) or
/// the headers (code) and the proof lead to different roots, unless the digest has a
/// clash on the way.
pub proof fn law_altered_shreds_lead_elsewhere(a: Seq<u8>, b: Seq<u8>, i: int)
    requires
        valid_wire(a),
        valid_wire(b),
        kind_of(a) == kind_of(b),
        a[64] == b[64],
        erasure_index_of(a) == erasure_index_of(b),
        merkle_proof_of(a) == merkle_proof_of(b),
        signature_of(a).len() <= i,
        kind_of(a) == ShredKind::Code ==> 89 <= i,
        i < a.len() - merkle_proof_of(a).len() - (if resigned_of(a) {
            64int
        } else {
            0
        }),
        a[i] != b[i],
        !clash(
            leaf_parts(erasure_shard_of(a) + chained_root_of(a)),
            leaf_parts(erasure_shard_of(b) + chained_root_of(b)),
        ),
        !clash_on_the_way(
            erasure_index_of(a) as nat,
            merkle_leaf_of(a),
            merkle_leaf_of(b),
            merkle_proof_of(a),
        ),
        merkle_root_of(a) is Some,
    ensures
        merkle_root_of(b) is Some,
        merkle_root_of(a) != merkle_root_of(b),
{
    lemma_halves(a[64]);
    law_parts_fill_the_shred(a);
    law_parts_fill_the_shred(b);
    let start = if kind_of(a) == ShredKind::Code {
        89int
    } else {
        64
    };
    let x = erasure_shard_of(a) + chained_root_of(a);
    let y = erasure_shard_of(b) + chained_root_of(b);
    assert(a[i] == x[i - start]);
    assert(b[i] == y[i - start]);
    if kind_of(a) == ShredKind::Data {
        law_accepted_data_shreds_are_made_of_parts(a);
        law_accepted_data_shreds_are_made_of_parts(b);
        law_data_shred_reads_as_its_parts(data_parts(a));
        law_data_shred_reads_as_its_parts(data_parts(b));
    } else {
        law_accepted_code_shreds_are_made_of_parts(a);
        law_accepted_code_shreds_are_made_of_parts(b);
        law_code_shred_reads_as_its_parts(code_parts(a));
        law_code_shred_reads_as_its_parts(code_parts(b));
    }
    let some: Seq<u8> = Seq::new(20, |j: int| 0u8);
    law_what_is_hashed(x, some, some);
    law_what_is_hashed(y, some, some);
    law_leaves_that_differ(x, y);
    law_proof_binds(
        erasure_index_of(a) as nat,
        merkle_leaf_of(a),
        merkle_leaf_of(b),
        merkle_proof_of(a),
    );
}

/// A shred whose proof is that of its place in a tree over the leaves of its FEC set
/// leads to the root of that tree. Its place is that among the data shreds, or 32 more
/// than that among the code shreds.
pub proof fn law_shred_of_a_tree(b: Seq<u8>, leaves: Seq<Hash32>, place: nat)
    requires
        valid_wire(b),
        leaves.len() == 64,
        kind_of(b) == ShredKind::Data ==> place == index_of(b) - fec_set_index_of(b),
        kind_of(b) == ShredKind::Code ==> place == 32 + position_of(b),
        leaves[place as int] == merkle_leaf_of(b),
        merkle_proof_of(b) == tree_proof(leaves, place).flatten(),
    ensures
        merkle_root_of(b) == Some(tree_root(leaves)),
{
    law_layout(b);
    law_proof_reproduces_root(leaves, place);
}

/// Whether the reason for which a datagram is refused holds of its bytes, and names what
/// is in them.
pub open spec fn reason_holds(b: Seq<u8>, reason: ShredError) -> bool {
    match reason {
        ShredError::TooShort(n) => n == b.len() && (n <= 64 || n < 1203 || n < 1228 && (b[64] & 0xf0
            == 0x60 || b[64] & 0xf0 == 0x70)),
        ShredError::InvalidVariant(v) => b.len() > 64 && v == b[64] && v & 0xf0 != 0x90 && v & 0xf0
            != 0xb0 && v & 0xf0 != 0x60 && v & 0xf0 != 0x70,
        ShredError::InvalidProofSize(n) => n == b[64] & 0x0f && room(
            kind_of(b),
            n,
            resigned_of(b),
        ) < 0,
        ShredError::IndexOutOfRange(index) => index >= 32768 && b.subrange(73, 77) == le32_bytes(
            index,
        ),
        ShredError::FecSetMisaligned { index, fec_set_index } => {
            &&& b.subrange(73, 77) == le32_bytes(index)
            &&& b.subrange(79, 83) == le32_bytes(fec_set_index)
            &&& fec_set_index % 32 != 0 || index < fec_set_index || index >= fec_set_index + 32
        },
        ShredError::InvalidParentOffset { slot, parent_offset } => {
            &&& b.subrange(65, 73) == le64_bytes(slot)
            &&& b.subrange(83, 85) == le16_bytes(parent_offset)
            &&& parent_offset > slot || parent_offset == 0 && slot > 0
        },
        ShredError::InvalidFlags(flags) => flags == b[85] && flags & 0x80 != 0 && (flags & 0x40 == 0
            || index_of(b) % 32 != 31),
        ShredError::InvalidSize(size) => b.subrange(86, 88) == le16_bytes(size) && (size < 88
            || size > 88 + room(ShredKind::Data, b[64] & 0x0f, b[64] & 0xf0 == 0xb0)),
        ShredError::InvalidErasureConfig { num_data, num_code, position } => {
            &&& b.subrange(83, 85) == le16_bytes(num_data)
            &&& b.subrange(85, 87) == le16_bytes(num_code)
            &&& b.subrange(87, 89) == le16_bytes(position)
            &&& num_data != 32 || num_code != 32 || position >= 32 || position > index_of(b)
                || fec_set_index_of(b) % 32 != 0
        },
    }
}

/// The last index of a FEC set.
proof fn lemma_last_of_set(index: u32)
    ensures
        ((index + 1) % 32 == 0) == (index % 32 == 31),
{
}

/// What is wrong with the headers of a data shred is.
#[verifier::rlimit(40)]
proof fn lemma_data_reason(b: Seq<u8>)
    requires
        b.len() >= 89,
        kind_of(b) == ShredKind::Data,
    ensures
        data_header_error(b) matches Some(reason) ==> reason_holds(b, reason),
{
    lemma_halves(b[64]);
    lemma_fields_spelled(b);
    lemma_flag_pair(b[85]);
    lemma_last_of_set(index_of(b));
}

/// What is wrong with the headers of a code shred is.
proof fn lemma_code_reason(b: Seq<u8>)
    requires
        b.len() >= 89,
    ensures
        code_header_error(b) matches Some(reason) ==> reason_holds(b, reason),
{
    lemma_fields_spelled(b);
}

/// Why a datagram is refused: the reason holds of its bytes, and names what is in them.
pub proof fn law_refusals_name_what_is_wrong(b: Seq<u8>)
    requires
        b.len() <= usize::MAX,
    ensures
        parse_error(b) matches Some(reason) ==> reason_holds(b, reason),
        parse_error(b) is None ==> b.len() >= 1203,
{
    if b.len() > 64 {
        lemma_halves(b[64]);
    }
    if b.len() >= 1203 {
        lemma_le32_spelled(b, 73);
        if kind_of(b) == ShredKind::Data {
            lemma_data_reason(b);
        } else {
            lemma_code_reason(b);
        }
    }
}

/// Every field is what its bytes spell.
proof fn lemma_fields_spelled(b: Seq<u8>)
    requires
        b.len() >= 89,
    ensures
        b.subrange(65, 73) == le64_bytes(slot_of(b)),
        b.subrange(73, 77) == le32_bytes(index_of(b)),
        b.subrange(79, 83) == le32_bytes(fec_set_index_of(b)),
        b.subrange(83, 85) == le16_bytes(parent_offset_of(b)),
        b.subrange(86, 88) == le16_bytes(size_of(b)),
        b.subrange(83, 85) == le16_bytes(num_data_of(b)),
        b.subrange(85, 87) == le16_bytes(num_code_of(b)),
        b.subrange(87, 89) == le16_bytes(position_of(b)),
{
    lemma_le64_spelled(b, 65);
    lemma_le32_spelled(b, 73);
    lemma_le32_spelled(b, 79);
    lemma_le16_spelled(b, 83);
    lemma_le16_spelled(b, 85);
    lemma_le16_spelled(b, 86);
    lemma_le16_spelled(b, 87);
}

/// How much room there is: what is left of the whole once all other parts of their sizes
/// are taken off, and none where they are too large together.
pub proof fn law_room(entries: u8)
    ensures
        64 + 24 + room(ShredKind::Data, entries, false) + 32 + 20 * entries == 1203,
        64 + 24 + room(ShredKind::Data, entries, true) + 32 + 20 * entries + 64 == 1203,
        64 + 25 + room(ShredKind::Code, entries, false) + 32 + 20 * entries == 1228,
        64 + 25 + room(ShredKind::Code, entries, true) + 32 + 20 * entries + 64 == 1228,
{
}

/// Of several things that are wrong with a shred the first is named: its length, its
/// variant, its index, then what its kind asks for in the order of its headers.
pub proof fn law_first_fault_is_named(b: Seq<u8>, p: DataParts, q: CodeParts)
    requires
        p.sized(),
        q.sized(),
        b.len() <= usize::MAX,
    ensures
        b.len() <= 64 ==> parse_error(b) == Some(ShredError::TooShort(b.len() as usize)),
        64 < b.len() < 1203 ==> parse_error(b) == (if b[64] & 0xf0 == 0x90 || b[64] & 0xf0 == 0xb0
            || b[64] & 0xf0 == 0x60 || b[64] & 0xf0 == 0x70 {
            Some(ShredError::TooShort(b.len() as usize))
        } else {
            Some(ShredError::InvalidVariant(b[64]))
        }),
        p.index >= 32768 ==> parse_error(p.bytes()) == Some(ShredError::IndexOutOfRange(p.index)),
        q.index >= 32768 ==> parse_error(q.bytes()) == Some(ShredError::IndexOutOfRange(q.index)),
        p.index < 32768 && (p.fec_set_index % 32 != 0 || p.index / 32 != p.fec_set_index / 32)
            ==> parse_error(p.bytes()) == Some(
            ShredError::FecSetMisaligned { index: p.index, fec_set_index: p.fec_set_index },
        ),
        q.index < 32768 && !q.sane() ==> parse_error(q.bytes()) == Some(
            ShredError::InvalidErasureConfig {
                num_data: q.num_data,
                num_code: q.num_code,
                position: q.position,
            },
        ),
        parse_error(p.bytes()) is Some && parse_error(
            DataParts { flags: 0, ..p }.bytes(),
        ) is None ==> parse_error(p.bytes()) == Some(ShredError::InvalidFlags(p.flags)),
{
    if b.len() > 64 {
        lemma_halves(b[64]);
    }
    lemma_data_fault(p);
    lemma_code_fault(q);
    let plain = DataParts { flags: 0, ..p };
    lemma_data_len(p, plain);
    lemma_data_fault(plain);
}

/// Flags do not change the size of a shred.
proof fn lemma_data_len(p: DataParts, plain: DataParts)
    requires
        p.sized(),
        plain == (DataParts { flags: 0, ..p }),
    ensures
        plain.sized(),
{
    assert(plain.shard().len() == p.shard().len());
}

/// What is wrong with a data shred that was put together.
proof fn lemma_data_fault(p: DataParts)
    requires
        p.sized(),
    ensures
        ({
            let in_set = p.fec_set_index % 32 == 0 && p.index / 32 == p.fec_set_index / 32;
            let parented = p.parent_offset <= p.slot && (p.parent_offset > 0 || p.slot == 0);
            let error = parse_error(p.bytes());
            &&& p.index >= 32768 ==> error == Some(ShredError::IndexOutOfRange(p.index))
            &&& p.index < 32768 && !in_set ==> error == Some(
                ShredError::FecSetMisaligned { index: p.index, fec_set_index: p.fec_set_index },
            )
            &&& p.index < 32768 && in_set && !parented ==> error == Some(
                ShredError::InvalidParentOffset { slot: p.slot, parent_offset: p.parent_offset },
            )
            &&& p.index < 32768 && in_set && parented ==> error is None || error == Some(
                ShredError::InvalidFlags(p.flags),
            )
        }),
{
    let b = p.bytes();
    lemma_data_fields(p);
    lemma_variant(ShredKind::Data, p.resigned, p.entries);
    assert(capacity_of(b) == p.data.len() + p.padding.len());
}

/// What is wrong with a code shred that was put together.
proof fn lemma_code_fault(p: CodeParts)
    requires
        p.sized(),
    ensures
        p.index >= 32768 ==> parse_error(p.bytes()) == Some(ShredError::IndexOutOfRange(p.index)),
        p.index < 32768 && !p.sane() ==> parse_error(p.bytes()) == Some(
            ShredError::InvalidErasureConfig {
                num_data: p.num_data,
                num_code: p.num_code,
                position: p.position,
            },
        ),
{
    let b = p.bytes();
    lemma_code_fields(p);
    lemma_variant(ShredKind::Code, p.resigned, p.entries);
    assert(capacity_of(b) == p.shard.len());
}

} // verus!

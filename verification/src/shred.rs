//! Shred wire format: parsing and stateless validation.
//!
//! A shred is one UDP datagram. Mainnet only carries chained Merkle shreds, so
//! that is the only layout handled here. Every offset below is a fixed position
//! in the datagram:
//!
//! ```text
//! offset size  field
//! 0      64    leader signature over the FEC set's Merkle root
//! 64     1     variant: high nibble 0x9/0xb = data, 0x6/0x7 = code
//!              (0xb/0x7 = resigned); low nibble = Merkle proof entries
//! 65     8     slot (LE)
//! 73     4     shred index (LE)
//! 77     2     shred version (LE)
//! 79     4     FEC set index (LE)
//! data shreds:                         code shreds:
//! 83     2     parent offset           83  2  num data shreds
//! 85     1     flags                   85  2  num coding shreds
//! 86     2     size (headers + data)   87  2  position in FEC set
//! 88     ...   entry bytes             89  ... erasure coded shard
//! ```
//!
//! After the data buffer (or coded shard) comes the chained Merkle root
//! (32 bytes), the Merkle proof (20 bytes per entry) and, on resigned
//! variants, a trailing 64-byte retransmitter signature. Data shreds are
//! exactly 1203 bytes, code shreds 1228; a repair response may append a
//! 4-byte nonce, which is ignored.
//!
//! What is not checked here: the leader signature (needs the leader
//! schedule) and the Merkle root, which is checked per FEC set in
//! [`crate::fec`].

use crate::buffer;
use crate::buffer::contents;
use crate::le::{le16, le32, le64, u16_at, u32_at, u64_at};
use crate::merkle;
use crate::merkle::{leaf_hash, proof_root, Hash32, PROOF_ENTRY_SIZE};
use bytes::Bytes;
use vstd::prelude::*;

verus! {

/// Wire size of a data shred.
pub const DATA_SHRED_SIZE: usize = 1203;

/// Wire size of a code shred.
pub const CODE_SHRED_SIZE: usize = 1228;

/// Data shreds in one FEC set.
pub const DATA_SHREDS_PER_FEC_SET: usize = 32;

/// Code shreds in one FEC set.
pub const CODE_SHREDS_PER_FEC_SET: usize = 32;

/// Exclusive upper bound on a data or code shred index within a slot.
pub const MAX_SHREDS_PER_SLOT: u32 = 32_768;

/// Largest UDP payload a shred packet can have (shred + repair nonce).
pub const MAX_PACKET_SIZE: usize = 1232;

pub const SIGNATURE_SIZE: usize = 64;

pub const DATA_HEADERS_SIZE: usize = 88;

pub const CODE_HEADERS_SIZE: usize = 89;

const MERKLE_ROOT_SIZE: usize = 32;

/// Entry bytes in a regular (unsigned, 32:32) data shred.
pub const DATA_CAPACITY: usize = 963;

const VARIANT_OFFSET: usize = 64;

const SLOT_OFFSET: usize = 65;

const INDEX_OFFSET: usize = 73;

const VERSION_OFFSET: usize = 77;

const FEC_SET_INDEX_OFFSET: usize = 79;

const PARENT_OFFSET_OFFSET: usize = 83;

const FLAGS_OFFSET: usize = 85;

const SIZE_OFFSET: usize = 86;

const NUM_DATA_OFFSET: usize = 83;

const NUM_CODE_OFFSET: usize = 85;

const POSITION_OFFSET: usize = 87;

/// Flag bit: this data shred ends an entry batch.
pub const FLAG_DATA_COMPLETE: u8 = 0x40;

/// Flag bits: this data shred is the last one in its slot. The value has the
/// data-complete bit set too, so last-in-slot always implies data-complete.
pub const FLAG_LAST_IN_SLOT: u8 = 0xC0;

#[derive(Debug, Clone, Copy, PartialEq, Eq, Structural)]
pub enum ShredKind {
    Data,
    Code,
}

#[derive(Debug, Clone, Copy, PartialEq, Eq, Structural)]
pub enum ShredError {
    /// The packet is shorter than a shred.
    TooShort(usize),
    /// Unknown shred variant.
    InvalidVariant(u8),
    /// The proof leaves no room for data.
    InvalidProofSize(u8),
    /// The shred index is out of range.
    IndexOutOfRange(u32),
    /// The index is not inside the FEC set.
    FecSetMisaligned { index: u32, fec_set_index: u32 },
    /// The parent offset is invalid for the slot.
    InvalidParentOffset { slot: u64, parent_offset: u16 },
    /// Invalid data shred flags.
    InvalidFlags(u8),
    /// The data size field is out of range.
    InvalidSize(u16),
    /// The erasure config is not 32:32, or the position is outside of it.
    InvalidErasureConfig { num_data: u16, num_code: u16, position: u16 },
}

/// Wire size of a shred of this kind.
pub open spec fn wire_size(kind: ShredKind) -> int {
    match kind {
        ShredKind::Data => 1203,
        ShredKind::Code => 1228,
    }
}

/// Size of the headers of a shred of this kind.
pub open spec fn headers_size(kind: ShredKind) -> int {
    match kind {
        ShredKind::Data => 88,
        ShredKind::Code => 89,
    }
}

/// What is left of the wire size once the headers, the chained root, the proof
/// and the retransmitter signature of a resigned shred have taken their room.
pub open spec fn room(kind: ShredKind, proof_size: u8, resigned: bool) -> int {
    wire_size(kind) - headers_size(kind) - 32 - 20 * proof_size - (if resigned {
        64int
    } else {
        0
    })
}

/// Whether the high nibble of the variant byte names a known shred variant.
pub open spec fn known_variant(variant: u8) -> bool {
    variant / 16 == 9 || variant / 16 == 11 || variant / 16 == 6 || variant / 16 == 7
}

/// Kind of the shred with wire bytes `b`.
pub open spec fn kind_of(b: Seq<u8>) -> ShredKind {
    if b[64] / 16 == 9 || b[64] / 16 == 11 {
        ShredKind::Data
    } else {
        ShredKind::Code
    }
}

/// Whether the shred ends with a retransmitter signature.
pub open spec fn resigned_of(b: Seq<u8>) -> bool {
    b[64] / 16 == 11 || b[64] / 16 == 7
}

/// Number of Merkle proof entries in the shred.
pub open spec fn proof_size_of(b: Seq<u8>) -> u8 {
    b[64] % 16
}

pub open spec fn slot_of(b: Seq<u8>) -> u64 {
    le64(b, 65) as u64
}

pub open spec fn index_of(b: Seq<u8>) -> u32 {
    le32(b, 73) as u32
}

pub open spec fn version_of(b: Seq<u8>) -> u16 {
    le16(b, 77) as u16
}

pub open spec fn fec_set_index_of(b: Seq<u8>) -> u32 {
    le32(b, 79) as u32
}

pub open spec fn parent_offset_of(b: Seq<u8>) -> u16 {
    le16(b, 83) as u16
}

pub open spec fn flags_of(b: Seq<u8>) -> u8 {
    b[85]
}

pub open spec fn size_of(b: Seq<u8>) -> u16 {
    le16(b, 86) as u16
}

pub open spec fn num_data_of(b: Seq<u8>) -> u16 {
    le16(b, 83) as u16
}

pub open spec fn num_code_of(b: Seq<u8>) -> u16 {
    le16(b, 85) as u16
}

pub open spec fn position_of(b: Seq<u8>) -> u16 {
    le16(b, 87) as u16
}

/// Bit 6: the shred ends an entry batch.
pub open spec fn flags_data_complete(flags: u8) -> bool {
    flags / 64 % 2 == 1
}

/// Bits 6 and 7: the shred is the last of its slot.
pub open spec fn flags_last_in_slot(flags: u8) -> bool {
    flags / 64 == 3
}

/// Room for entry bytes (data) or the coded shard (code) of the shred.
pub open spec fn capacity_of(b: Seq<u8>) -> int {
    room(kind_of(b), proof_size_of(b), resigned_of(b))
}

/// What is wrong with the headers of a data shred.
pub open spec fn data_header_error(b: Seq<u8>) -> Option<ShredError> {
    let index = index_of(b);
    let fec_set_index = fec_set_index_of(b);
    let slot = slot_of(b);
    let parent_offset = parent_offset_of(b);
    let flags = flags_of(b);
    if fec_set_index % 32 != 0 || !(fec_set_index <= index < fec_set_index + 32) {
        Some(ShredError::FecSetMisaligned { index, fec_set_index })
    } else if parent_offset == 0 && slot != 0 || parent_offset > slot {
        Some(ShredError::InvalidParentOffset { slot, parent_offset })
    } else if flags / 64 == 2 || flags_last_in_slot(flags) && (index + 1) % 32 != 0 {
        Some(ShredError::InvalidFlags(flags))
    } else if !(88 <= size_of(b) <= 88 + capacity_of(b)) {
        Some(ShredError::InvalidSize(size_of(b)))
    } else {
        None
    }
}

/// What is wrong with the headers of a code shred.
pub open spec fn code_header_error(b: Seq<u8>) -> Option<ShredError> {
    let num_data = num_data_of(b);
    let num_code = num_code_of(b);
    let position = position_of(b);
    if num_data == 32 && num_code == 32 && position < 32 && position <= index_of(b)
        && fec_set_index_of(b) % 32 == 0 {
        None
    } else {
        Some(ShredError::InvalidErasureConfig { num_data, num_code, position })
    }
}

/// The error with which the datagram `b` is refused; `None` if it is a shred.
pub open spec fn parse_error(b: Seq<u8>) -> Option<ShredError> {
    if b.len() <= 64 {
        Some(ShredError::TooShort(b.len() as usize))
    } else if !known_variant(b[64]) {
        Some(ShredError::InvalidVariant(b[64]))
    } else if b.len() < wire_size(kind_of(b)) {
        Some(ShredError::TooShort(b.len() as usize))
    } else if capacity_of(b) < 0 {
        Some(ShredError::InvalidProofSize(proof_size_of(b)))
    } else if index_of(b) >= MAX_SHREDS_PER_SLOT {
        Some(ShredError::IndexOutOfRange(index_of(b)))
    } else {
        match kind_of(b) {
            ShredKind::Data => data_header_error(b),
            ShredKind::Code => code_header_error(b),
        }
    }
}

/// The shred in a datagram: its bytes up to the wire size of its kind.
pub open spec fn shred_bytes(b: Seq<u8>) -> Seq<u8> {
    b.take(wire_size(kind_of(b)))
}

/// Whether `b` is a well-formed shred, without anything after it.
#[verifier::opaque]
pub open spec fn valid_wire(b: Seq<u8>) -> bool {
    parse_error(b) is None && b.len() == wire_size(kind_of(b))
}

/// Leader signature.
pub open spec fn signature_of(b: Seq<u8>) -> Seq<u8> {
    b.take(64)
}

/// Entry bytes carried by a data shred; empty for a code shred.
pub open spec fn data_of(b: Seq<u8>) -> Seq<u8> {
    match kind_of(b) {
        ShredKind::Data => b.subrange(88, size_of(b) as int),
        ShredKind::Code => Seq::empty(),
    }
}

/// The slot this one builds on, as a data shred tells it.
pub open spec fn parent_slot_of(b: Seq<u8>) -> Option<u64> {
    match kind_of(b) {
        ShredKind::Data => Some((slot_of(b) - parent_offset_of(b)) as u64),
        ShredKind::Code => None,
    }
}

/// Whether the shred is a data shred that ends an entry batch.
pub open spec fn data_complete_of(b: Seq<u8>) -> bool {
    kind_of(b) == ShredKind::Data && flags_data_complete(flags_of(b))
}

/// Whether the shred is the last data shred of its slot.
pub open spec fn last_in_slot_of(b: Seq<u8>) -> bool {
    kind_of(b) == ShredKind::Data && flags_last_in_slot(flags_of(b))
}

/// Where the part under erasure coding starts.
pub open spec fn shard_start(kind: ShredKind) -> int {
    match kind {
        ShredKind::Data => 64,
        ShredKind::Code => 89,
    }
}

/// The part of the shred that takes part in erasure coding.
pub open spec fn erasure_shard_of(b: Seq<u8>) -> Seq<u8> {
    b.subrange(shard_start(kind_of(b)), headers_size(kind_of(b)) + capacity_of(b))
}

/// Position in the erasure batch of the FEC set: data shreds first, then code.
pub open spec fn erasure_index_of(b: Seq<u8>) -> int {
    match kind_of(b) {
        ShredKind::Data => index_of(b) - fec_set_index_of(b),
        ShredKind::Code => 32 + position_of(b),
    }
}

/// Where the Merkle proof starts, right after the chained root.
pub open spec fn proof_offset_of(b: Seq<u8>) -> int {
    headers_size(kind_of(b)) + capacity_of(b) + 32
}

/// Merkle root of the previous FEC set.
pub open spec fn chained_root_of(b: Seq<u8>) -> Seq<u8> {
    b.subrange(proof_offset_of(b) - 32, proof_offset_of(b))
}

/// Merkle proof of the shred.
pub open spec fn merkle_proof_of(b: Seq<u8>) -> Seq<u8> {
    b.subrange(proof_offset_of(b), proof_offset_of(b) + 20 * proof_size_of(b))
}

/// Retransmitter signature on resigned variants.
pub open spec fn retransmitter_signature_of(b: Seq<u8>) -> Option<Seq<u8>> {
    if resigned_of(b) {
        Some(b.subrange(b.len() - 64, b.len() as int))
    } else {
        None
    }
}

/// Merkle leaf: what stands between the leader signature (data) or the headers
/// (code) and the proof.
pub open spec fn merkle_leaf_of(b: Seq<u8>) -> Hash32 {
    leaf_hash(b.subrange(shard_start(kind_of(b)), proof_offset_of(b)))
}

/// Merkle root of the FEC set that the shred's own proof leads to.
pub open spec fn merkle_root_of(b: Seq<u8>) -> Option<Hash32> {
    proof_root(erasure_index_of(b) as nat, merkle_leaf_of(b), merkle_proof_of(b))
}

/// The fields that the parser reads with bit masks, as quotients and remainders.
pub proof fn lemma_masks(x: u8)
    by (bit_vector)
    ensures
        x & 0xF0 == 16 * (x / 16),
        x & 0x0F == x % 16,
        (x & 0x40 != 0) == (x / 64 % 2 == 1),
        (x & 0x80 != 0) == (x / 64 >= 2),
        (x & 0xC0 == 0xC0) == (x / 64 == 3),
{
}

/// The parts that a well-formed shred is made of lie inside it, one after the
/// other: headers, coded part, chained root, proof and retransmitter signature
/// fill the wire size exactly.
pub proof fn law_layout(b: Seq<u8>)
    requires
        valid_wire(b),
    ensures
        0 <= capacity_of(b),
        proof_offset_of(b) + 20 * proof_size_of(b) + (if resigned_of(b) {
            64int
        } else {
            0
        }) == b.len(),
        b == signature_of(b) + b.subrange(64, proof_offset_of(b) - 32) + chained_root_of(b)
            + merkle_proof_of(b) + (match retransmitter_signature_of(b) {
            Some(signature) => signature,
            None => Seq::empty(),
        }),
        kind_of(b) == ShredKind::Data ==> 0 <= erasure_index_of(b) < 32,
        kind_of(b) == ShredKind::Code ==> 32 <= erasure_index_of(b) < 64,
{
    reveal(valid_wire);
    let tail = match retransmitter_signature_of(b) {
        Some(signature) => signature,
        None => Seq::empty(),
    };
    assert(b =~= signature_of(b) + b.subrange(64, proof_offset_of(b) - 32) + chained_root_of(b)
        + merkle_proof_of(b) + tail);
}

/// The index of a well-formed shred is one that a slot can have, and FEC sets start
/// at multiples of 32.
pub proof fn lemma_indexes(b: Seq<u8>)
    requires
        valid_wire(b),
    ensures
        index_of(b) < MAX_SHREDS_PER_SLOT,
        fec_set_index_of(b) % 32 == 0,
{
    reveal(valid_wire);
}

/// Whatever follows a shred in its datagram, such as a repair nonce, is ignored.
pub proof fn law_trailing_bytes_are_ignored(b: Seq<u8>, tail: Seq<u8>)
    requires
        b.len() > 64,
        known_variant(b[64]),
        b.len() >= wire_size(kind_of(b)),
    ensures
        parse_error(b + tail) == parse_error(b),
        shred_bytes(b + tail) == shred_bytes(b),
{
    assert(shred_bytes(b + tail) =~= shred_bytes(b));
}

/// The shred in a datagram that parses is itself well formed, and parses to itself.
pub proof fn law_parsing_is_idempotent(b: Seq<u8>)
    requires
        parse_error(b) is None,
    ensures
        valid_wire(shred_bytes(b)),
        parse_error(shred_bytes(b)) is None,
        shred_bytes(shred_bytes(b)) == shred_bytes(b),
{
    reveal(valid_wire);
    let tail = b.skip(wire_size(kind_of(b)));
    assert(shred_bytes(b) + tail =~= b);
    law_trailing_bytes_are_ignored(shred_bytes(b), tail);
    assert(shred_bytes(shred_bytes(b)) =~= shred_bytes(b));
}

/// Data and code shreds of the same variant have erasure shards of the same
/// length, which Reed-Solomon coding needs.
pub proof fn law_shard_lengths_agree(data: Seq<u8>, code: Seq<u8>)
    requires
        valid_wire(data),
        valid_wire(code),
        kind_of(data) == ShredKind::Data,
        kind_of(code) == ShredKind::Code,
        proof_size_of(data) == proof_size_of(code),
        resigned_of(data) == resigned_of(code),
    ensures
        erasure_shard_of(data).len() == erasure_shard_of(code).len(),
{
    reveal(valid_wire);
}

/// The last shred of a slot always ends an entry batch.
pub proof fn law_last_in_slot_is_data_complete(b: Seq<u8>)
    ensures
        last_in_slot_of(b) ==> data_complete_of(b),
{
}

/// `DATA_CAPACITY` is the room in an unsigned data shred with the proof of a
/// 64 leaf tree.
pub proof fn law_data_capacity()
    ensures
        DATA_CAPACITY == room(ShredKind::Data, merkle::PROOF_ENTRIES_FOR_32_32, false),
{
}

/// Bytes usable for entries (data) or the coded shard (code) for a variant.
pub fn capacity(kind: ShredKind, proof_size: u8, resigned: bool) -> (bytes: Option<usize>)
    ensures
        match bytes {
            Some(n) => n == room(kind, proof_size, resigned),
            None => room(kind, proof_size, resigned) < 0,
        },
{
    let (total, headers): (usize, usize) = match kind {
        ShredKind::Data => (DATA_SHRED_SIZE, DATA_HEADERS_SIZE),
        ShredKind::Code => (CODE_SHRED_SIZE, CODE_HEADERS_SIZE),
    };
    let resign: usize = if resigned {
        SIGNATURE_SIZE
    } else {
        0
    };
    let overhead: usize = headers + MERKLE_ROOT_SIZE + (proof_size as usize) * PROOF_ENTRY_SIZE
        + resign;
    total.checked_sub(overhead)
}

#[derive(Debug, Clone, Copy, PartialEq, Eq, Structural)]
enum Header {
    Data { parent_offset: u16, flags: u8, size: u16 },
    Code { position: u16 },
}

/// A validated shred. The bytes are a reference counted slice (`Bytes`), so
/// shreds received in one batch share a single allocation and cloning is cheap.
#[derive(Debug, PartialEq, Eq)]
pub struct Shred {
    bytes: Bytes,
    kind: ShredKind,
    resigned: bool,
    proof_size: u8,
    slot: u64,
    index: u32,
    version: u16,
    fec_set_index: u32,
    /// Entry bytes (data) or coded shard (code) the variant can hold.
    capacity: usize,
    header: Header,
}

impl View for Shred {
    type V = Seq<u8>;

    /// The wire bytes, of which all else is a function.
    closed spec fn view(&self) -> Seq<u8> {
        contents(self.bytes)
    }
}

impl Clone for Shred {
    fn clone(&self) -> (shred: Self)
        ensures
            shred@ == self@,
    {
        proof {
            use_type_invariant(self);
        }
        Self {
            bytes: buffer::share(&self.bytes),
            kind: self.kind,
            resigned: self.resigned,
            proof_size: self.proof_size,
            slot: self.slot,
            index: self.index,
            version: self.version,
            fec_set_index: self.fec_set_index,
            capacity: self.capacity,
            header: self.header,
        }
    }
}

impl Shred {
    #[verifier::type_invariant]
    spec fn well_formed(&self) -> bool {
        &&& valid_wire(self@)
        &&& self.kind == kind_of(self@)
        &&& self.resigned == resigned_of(self@)
        &&& self.proof_size == proof_size_of(self@)
        &&& self.slot == slot_of(self@)
        &&& self.index == index_of(self@)
        &&& self.version == version_of(self@)
        &&& self.fec_set_index == fec_set_index_of(self@)
        &&& self.capacity == capacity_of(self@)
        &&& match self.header {
            Header::Data { parent_offset, flags, size } => {
                &&& kind_of(self@) == ShredKind::Data
                &&& parent_offset == parent_offset_of(self@)
                &&& flags == flags_of(self@)
                &&& size == size_of(self@)
            },
            Header::Code { position } => {
                &&& kind_of(self@) == ShredKind::Code
                &&& position == position_of(self@)
            },
        }
    }

    /// Parse and validate one datagram. The buffer is truncated to the wire
    /// size of the variant (dropping a repair nonce if present).
    pub fn parse(bytes: Bytes) -> (parsed: Result<Self, ShredError>)
        ensures
            match parsed {
                Ok(shred) => {
                    &&& parse_error(contents(bytes)) is None
                    &&& shred@ == shred_bytes(contents(bytes))
                    &&& valid_wire(shred@)
                },
                Err(error) => parse_error(contents(bytes)) == Some(error),
            },
    {
        reveal(valid_wire);
        let mut bytes = bytes;
        let ghost datagram = contents(bytes);
        let received: usize = buffer::as_slice(&bytes).len();
        if received <= VARIANT_OFFSET {
            return Err(ShredError::TooShort(received));
        }
        let variant: u8 = buffer::as_slice(&bytes)[VARIANT_OFFSET];
        proof {
            lemma_masks(variant);
        }
        let (kind, resigned) = match variant & 0xF0 {
            0x90 => (ShredKind::Data, false),
            0xB0 => (ShredKind::Data, true),
            0x60 => (ShredKind::Code, false),
            0x70 => (ShredKind::Code, true),
            _ => return Err(ShredError::InvalidVariant(variant)),
        };
        let proof_size: u8 = variant & 0x0F;
        let wire: usize = match kind {
            ShredKind::Data => DATA_SHRED_SIZE,
            ShredKind::Code => CODE_SHRED_SIZE,
        };
        if received < wire {
            return Err(ShredError::TooShort(received));
        }
        buffer::truncate(&mut bytes, wire);
        assert(contents(bytes) =~= shred_bytes(datagram));
        proof {
            let tail = datagram.skip(wire as int);
            assert(contents(bytes) + tail =~= datagram);
            law_trailing_bytes_are_ignored(contents(bytes), tail);
        }
        let capacity: usize = match capacity(kind, proof_size, resigned) {
            Some(capacity) => capacity,
            None => return Err(ShredError::InvalidProofSize(proof_size)),
        };
        let b: &[u8] = buffer::as_slice(&bytes);
        let slot: u64 = u64_at(b, SLOT_OFFSET);
        let index: u32 = u32_at(b, INDEX_OFFSET);
        let version: u16 = u16_at(b, VERSION_OFFSET);
        let fec_set_index: u32 = u32_at(b, FEC_SET_INDEX_OFFSET);
        if index >= MAX_SHREDS_PER_SLOT {
            return Err(ShredError::IndexOutOfRange(index));
        }
        let header = match kind {
            ShredKind::Data => {
                // Data index space: the set starts on a 32-aligned index and
                // the shred sits inside its own set.
                if fec_set_index % 32 != 0 || index < fec_set_index || index - fec_set_index >= 32 {
                    return Err(ShredError::FecSetMisaligned { index, fec_set_index });
                }
                let parent_offset: u16 = u16_at(b, PARENT_OFFSET_OFFSET);
                // Zero means "slot 0 has no parent"; anywhere else the shred
                // would be its own parent.
                if (parent_offset == 0 && slot != 0) || parent_offset as u64 > slot {
                    return Err(ShredError::InvalidParentOffset { slot, parent_offset });
                }
                let flags: u8 = b[FLAGS_OFFSET];
                proof {
                    lemma_masks(flags);
                }
                let last_in_slot: bool = flags & FLAG_LAST_IN_SLOT == FLAG_LAST_IN_SLOT;
                // Bit 7 on its own is not a valid flag byte, and the last shred
                // of a slot always closes its FEC set.
                if (flags & 0x80 != 0 && flags & FLAG_DATA_COMPLETE == 0) || (last_in_slot && (index
                    + 1) % 32 != 0) {
                    return Err(ShredError::InvalidFlags(flags));
                }
                let size: u16 = u16_at(b, SIZE_OFFSET);
                if (size as usize) < DATA_HEADERS_SIZE || size as usize > DATA_HEADERS_SIZE
                    + capacity {
                    return Err(ShredError::InvalidSize(size));
                }
                Header::Data { parent_offset, flags, size }
            },
            ShredKind::Code => {
                let num_data: u16 = u16_at(b, NUM_DATA_OFFSET);
                let num_code: u16 = u16_at(b, NUM_CODE_OFFSET);
                let position: u16 = u16_at(b, POSITION_OFFSET);
                // Code shreds have their own index space (`index - position`
                // is the first code index of the set) but share
                // `fec_set_index` with the data shreds they protect.
                if num_data as usize != DATA_SHREDS_PER_FEC_SET || num_code as usize
                    != CODE_SHREDS_PER_FEC_SET || position as usize >= CODE_SHREDS_PER_FEC_SET
                    || position as u32 > index || fec_set_index % 32 != 0 {
                    return Err(ShredError::InvalidErasureConfig { num_data, num_code, position });
                }
                Header::Code { position }
            },
        };
        Ok(
            Self {
                bytes,
                kind,
                resigned,
                proof_size,
                slot,
                index,
                version,
                fec_set_index,
                capacity,
                header,
            },
        )
    }

    pub fn kind(&self) -> (kind: ShredKind)
        ensures
            kind == kind_of(self@),
            valid_wire(self@),
    {
        proof {
            use_type_invariant(self);
        }
        self.kind
    }

    pub fn is_data(&self) -> (data: bool)
        ensures
            data == (kind_of(self@) == ShredKind::Data),
    {
        proof {
            use_type_invariant(self);
        }
        self.kind == ShredKind::Data
    }

    pub fn slot(&self) -> (slot: u64)
        ensures
            slot == slot_of(self@),
    {
        proof {
            use_type_invariant(self);
        }
        self.slot
    }

    pub fn index(&self) -> (index: u32)
        ensures
            index == index_of(self@),
    {
        proof {
            use_type_invariant(self);
        }
        self.index
    }

    pub fn version(&self) -> (version: u16)
        ensures
            version == version_of(self@),
    {
        proof {
            use_type_invariant(self);
        }
        self.version
    }

    pub fn fec_set_index(&self) -> (fec_set_index: u32)
        ensures
            fec_set_index == fec_set_index_of(self@),
    {
        proof {
            use_type_invariant(self);
        }
        self.fec_set_index
    }

    pub fn resigned(&self) -> (resigned: bool)
        ensures
            resigned == resigned_of(self@),
    {
        proof {
            use_type_invariant(self);
        }
        self.resigned
    }

    pub fn proof_size(&self) -> (proof_size: u8)
        ensures
            proof_size == proof_size_of(self@),
    {
        proof {
            use_type_invariant(self);
        }
        self.proof_size
    }

    /// Full wire bytes (without repair nonce), which are those of a well-formed
    /// shred.
    pub fn bytes(&self) -> (bytes: &[u8])
        ensures
            bytes@ == self@,
            valid_wire(self@),
    {
        proof {
            use_type_invariant(self);
        }
        buffer::as_slice(&self.bytes)
    }

    pub fn signature(&self) -> (signature: &[u8])
        ensures
            signature@ == signature_of(self@),
            signature@.len() == 64,
    {
        proof {
            use_type_invariant(self);
            reveal(valid_wire);
        }
        &self.bytes()[0..SIGNATURE_SIZE]
    }

    pub fn parent_slot(&self) -> (slot: Option<u64>)
        ensures
            slot == parent_slot_of(self@),
    {
        proof {
            use_type_invariant(self);
            reveal(valid_wire);
        }
        match self.header {
            Header::Data { parent_offset, .. } => Some(self.slot - parent_offset as u64),
            Header::Code { .. } => None,
        }
    }

    pub fn flags(&self) -> (flags: Option<u8>)
        ensures
            flags == (match kind_of(self@) {
                ShredKind::Data => Some(flags_of(self@)),
                ShredKind::Code => None,
            }),
    {
        proof {
            use_type_invariant(self);
        }
        match self.header {
            Header::Data { flags, .. } => Some(flags),
            Header::Code { .. } => None,
        }
    }

    pub fn data_complete(&self) -> (complete: bool)
        ensures
            complete == data_complete_of(self@),
    {
        match self.flags() {
            Some(flags) => {
                proof {
                    lemma_masks(flags);
                }
                flags & FLAG_DATA_COMPLETE != 0
            },
            None => false,
        }
    }

    pub fn last_in_slot(&self) -> (last: bool)
        ensures
            last == last_in_slot_of(self@),
    {
        match self.flags() {
            Some(flags) => {
                proof {
                    lemma_masks(flags);
                }
                flags & FLAG_LAST_IN_SLOT == FLAG_LAST_IN_SLOT
            },
            None => false,
        }
    }

    /// Entry bytes carried by a data shred; empty for code shreds.
    pub fn data(&self) -> (data: &[u8])
        ensures
            data@ == data_of(self@),
    {
        proof {
            use_type_invariant(self);
            reveal(valid_wire);
        }
        match self.header {
            Header::Data { size, .. } => &self.bytes()[DATA_HEADERS_SIZE..size as usize],
            Header::Code { .. } => &self.bytes()[0..0],
        }
    }

    /// Range of the payload that takes part in erasure coding. For data
    /// shreds this starts right after the signature and so includes the
    /// headers, which is how recovery gets the headers of a missing shred.
    pub fn erasure_shard(&self) -> (shard: &[u8])
        ensures
            shard@ == erasure_shard_of(self@),
    {
        proof {
            use_type_invariant(self);
            reveal(valid_wire);
        }
        match self.kind {
            ShredKind::Data => &self.bytes()[SIGNATURE_SIZE..DATA_HEADERS_SIZE + self.capacity],
            ShredKind::Code => &self.bytes()[CODE_HEADERS_SIZE..CODE_HEADERS_SIZE + self.capacity],
        }
    }

    /// Position in the FEC set's erasure batch: data shreds first, then code.
    pub fn erasure_shard_index(&self) -> (index: usize)
        ensures
            index == erasure_index_of(self@),
            kind_of(self@) == ShredKind::Data ==> index < 32,
            kind_of(self@) == ShredKind::Code ==> 32 <= index < 64,
    {
        proof {
            use_type_invariant(self);
            reveal(valid_wire);
        }
        match self.header {
            Header::Data { .. } => (self.index - self.fec_set_index) as usize,
            Header::Code { position } => DATA_SHREDS_PER_FEC_SET + position as usize,
        }
    }

    fn proof_offset(&self) -> (offset: usize)
        ensures
            offset == proof_offset_of(self@),
            valid_wire(self@),
            offset + 20 * proof_size_of(self@) <= self@.len(),
    {
        proof {
            use_type_invariant(self);
            reveal(valid_wire);
        }
        let headers: usize = match self.kind {
            ShredKind::Data => DATA_HEADERS_SIZE,
            ShredKind::Code => CODE_HEADERS_SIZE,
        };
        headers + self.capacity + MERKLE_ROOT_SIZE
    }

    /// Merkle root of the previous FEC set, as carried by this shred.
    pub fn chained_merkle_root(&self) -> (root: &[u8])
        ensures
            root@ == chained_root_of(self@),
            root@.len() == 32,
    {
        let end: usize = self.proof_offset();
        &self.bytes()[end - MERKLE_ROOT_SIZE..end]
    }

    pub fn merkle_proof(&self) -> (entries: &[u8])
        ensures
            entries@ == merkle_proof_of(self@),
    {
        let start: usize = self.proof_offset();
        let size: usize = self.proof_size() as usize * PROOF_ENTRY_SIZE;
        &self.bytes()[start..start + size]
    }

    /// Retransmitter signature on resigned variants.
    pub fn retransmitter_signature(&self) -> (signature: Option<&[u8]>)
        ensures
            match signature {
                Some(signature) => {
                    &&& retransmitter_signature_of(self@) == Some(signature@)
                    &&& signature@.len() == 64
                },
                None => retransmitter_signature_of(self@) is None,
            },
    {
        proof {
            use_type_invariant(self);
            reveal(valid_wire);
        }
        if self.resigned() {
            let bytes: &[u8] = self.bytes();
            Some(&bytes[bytes.len() - SIGNATURE_SIZE..bytes.len()])
        } else {
            None
        }
    }

    /// Merkle leaf: everything between the leader signature (data) or the
    /// headers (code) and the proof, which includes the chained root.
    pub fn merkle_leaf(&self) -> (leaf: Hash32)
        ensures
            leaf == merkle_leaf_of(self@),
    {
        let start: usize = match self.kind() {
            ShredKind::Data => SIGNATURE_SIZE,
            ShredKind::Code => CODE_HEADERS_SIZE,
        };
        let end: usize = self.proof_offset();
        merkle::leaf(&self.bytes()[start..end])
    }

    /// Merkle root of the FEC set recomputed from this shred's own proof.
    /// This is the value the leader signed; all shreds of a set share it.
    pub fn merkle_root(&self) -> (root: Option<Hash32>)
        ensures
            root == merkle_root_of(self@),
    {
        merkle::root_from_proof(
            self.erasure_shard_index(),
            self.merkle_leaf(),
            self.merkle_proof(),
        )
    }
}

} // verus!

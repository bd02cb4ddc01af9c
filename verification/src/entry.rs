//! Decoding the deshredded bytes into entries and transactions.
//!
//! The payload of one complete shred run is a block component: a `u64`
//! little-endian entry count followed by that many entries. A zero count means a
//! block marker follows instead of entries; markers carry no transactions, so
//! they are reported and otherwise ignored.
//!
//! Entries are serialized with `wincode`, not bincode. For legacy and v0
//! transactions the two formats are identical, but v1 transactions have a layout
//! bincode cannot express: the signatures come after the message without a length
//! prefix, and counts are plain `u8`/`u16`. The `wincode` schema of
//! `VersionedTransaction` handles all three versions.

use crate::le::{le64, le64_bytes, lemma_le64_round_trip, lemma_le_same_bytes, u64_at};
use crate::view::{entries_of, entry_bytes, scans, EntryModel, TxModel};
use solana_transaction::versioned::VersionedTransaction;
use vstd::prelude::*;
use wincode::{ReadError, WriteError};

verus! {

/// The hash type of the `solana_hash` crate.
#[verifier::external_type_specification]
#[verifier::external_body]
pub struct ExHash(solana_hash::Hash);

/// The transaction type of the `solana_transaction` crate.
#[verifier::external_type_specification]
#[verifier::external_body]
pub struct ExVersionedTransaction(solana_transaction::versioned::VersionedTransaction);

/// What `wincode` fails with when it reads.
#[verifier::external_type_specification]
#[verifier::external_body]
pub struct ExReadError(wincode::ReadError);

/// What `wincode` fails with when it writes.
#[verifier::external_type_specification]
#[verifier::external_body]
pub struct ExWriteError(wincode::WriteError);

/// Upper bound on one batch. The length prefixes use it as the preallocation
/// limit.
pub const MAX_DATA_SHREDS_SIZE: usize = 32_768 * 1232;

/// The fields of an entry, in the order in which they are serialized.
pub type WireEntry = (u64, solana_hash::Hash, Vec<VersionedTransaction>);

/// What `wincode` reads from the front of `bytes` as a vector of entries, each
/// made of a `u64`, a hash and a vector of transactions, with
/// `MAX_DATA_SHREDS_SIZE` as the limit for both length prefixes.
pub uninterp spec fn decoded(bytes: Seq<u8>) -> Result<
    Seq<(u64, solana_hash::Hash, Seq<VersionedTransaction>)>,
    ReadError,
>;

/// What `wincode` writes for such a vector of entries.
pub uninterp spec fn encoded(entries: Seq<(u64, solana_hash::Hash, Seq<VersionedTransaction>)>) -> Result<
    Seq<u8>,
    WriteError,
>;

/// The bytes of a hash, as `Hash::to_bytes` gives them.
pub uninterp spec fn hash_bytes(hash: solana_hash::Hash) -> Seq<u8>;

/// The signatures of a transaction, those in its field `signatures`, each by the bytes
/// that `Signature::as_array` gives.
pub uninterp spec fn signatures_of(transaction: VersionedTransaction) -> Seq<Seq<u8>>;

/// Whether `VersionedTransaction::sanitize` finds nothing wrong with a transaction.
pub uninterp spec fn sanitized(transaction: VersionedTransaction) -> bool;

/// Whether a transaction can be told from what is written for it: it is sane, so that
/// there are as many signatures as its header asks for, and their number is not taken
/// for a version.
pub open spec fn well_formed(transaction: VersionedTransaction) -> bool {
    sanitized(transaction) && signatures_of(transaction).len() < 0x80
}

/// Whether all transactions of entries are well formed.
pub open spec fn all_well_formed(
    entries: Seq<(u64, solana_hash::Hash, Seq<VersionedTransaction>)>,
) -> bool {
    forall|i: int, j: int|
        0 <= i < entries.len() && 0 <= j < entries[i].2.len() ==> well_formed(
            #[trigger] entries[i].2[j],
        )
}

/// Whether `bytes` are read as `entries`.
pub open spec fn decodes_to(
    bytes: Seq<u8>,
    entries: Seq<(u64, solana_hash::Hash, Seq<VersionedTransaction>)>,
) -> bool {
    decoded(bytes) == Ok::<Seq<(u64, solana_hash::Hash, Seq<VersionedTransaction>)>, ReadError>(
        entries,
    )
}

/// Whether `bytes` are what is written for `entries`.
pub open spec fn encodes_to(
    entries: Seq<(u64, solana_hash::Hash, Seq<VersionedTransaction>)>,
    bytes: Seq<u8>,
) -> bool {
    encoded(entries) == Ok::<Seq<u8>, WriteError>(bytes)
}

/// Whether a scanned transaction has the signatures of the one that was read, where the
/// scan finds them.
pub open spec fn signed_as(found: TxModel, transaction: VersionedTransaction) -> bool {
    let signatures = signatures_of(transaction);
    &&& found.num_signatures == signatures.len()
    &&& forall|s: int|
        0 <= s < signatures.len() ==> #[trigger] signatures[s] == found.bytes.subrange(
            found.signatures_offset + 64 * s,
            found.signatures_offset + 64 * s + 64,
        )
}

/// Whether a scanned entry is the one that was read: it has as many hashes and
/// transactions, the same hash and signatures, its bytes are those that are written for
/// it, and so are those of each of its transactions.
pub open spec fn scanned_as(
    found: EntryModel,
    fields: (u64, solana_hash::Hash, Seq<VersionedTransaction>),
) -> bool {
    &&& found.num_hashes == fields.0
    &&& found.hash == hash_bytes(fields.1)
    &&& found.num_transactions == fields.2.len()
    &&& found.txs().len() == fields.2.len()
    &&& encodes_to(seq![fields], le64_bytes(1) + entry_bytes(found))
    &&& forall|j: int|
        0 <= j < fields.2.len() ==> signed_as(found.txs()[j], #[trigger] fields.2[j])
    &&& forall|j: int|
        0 <= j < fields.2.len() ==> encodes_to(
            seq![(fields.0, fields.1, seq![#[trigger] fields.2[j]])],
            le64_bytes(1) + entry_bytes(
                EntryModel {
                    num_transactions: 1,
                    transactions: found.txs()[j].bytes,
                    ..found
                },
            ),
        )
}

/// Whether scanning `bytes` finds what was read from them, entry for entry and
/// transaction for transaction.
pub open spec fn scanned_alike(
    bytes: Seq<u8>,
    entries: Seq<(u64, solana_hash::Hash, Seq<VersionedTransaction>)>,
) -> bool {
    &&& scans(bytes)
    &&& entries_of(bytes).len() == entries.len()
    &&& forall|i: int|
        0 <= i < entries.len() ==> scanned_as(entries_of(bytes)[i], #[trigger] entries[i])
}

/// Up to this size no segment has so many items that a length prefix is refused.
pub const MAX_SCANNED_SIZE: usize = 0x10_0000;

/// Views of entries' fields.
pub open spec fn wire_views(wire: Seq<WireEntry>) -> Seq<(u64, solana_hash::Hash, Seq<VersionedTransaction>)> {
    wire.map_values(|fields: WireEntry| (fields.0, fields.1, fields.2@))
}

/// How many transactions there are in entries.
pub open spec fn num_transactions(
    entries: Seq<(u64, solana_hash::Hash, Seq<VersionedTransaction>)>,
) -> nat
    decreases entries.len(),
{
    if entries.len() == 0 {
        0
    } else {
        num_transactions(entries.drop_last()) + entries.last().2.len()
    }
}

/// A prefix of the entries has no more transactions than all of them.
pub proof fn lemma_num_transactions_grows(
    entries: Seq<(u64, solana_hash::Hash, Seq<VersionedTransaction>)>,
    n: int,
)
    requires
        0 <= n <= entries.len(),
    ensures
        num_transactions(entries.take(n)) <= num_transactions(entries),
    decreases entries.len() - n,
{
    if n < entries.len() {
        lemma_num_transactions_grows(entries, n + 1);
        assert(entries.take(n + 1).drop_last() =~= entries.take(n));
    } else {
        assert(entries.take(n) =~= entries);
    }
}

/// Calls `wincode::Deserialize::deserialize` for a vector of entries' fields. What it
/// reads depends on the bytes alone: a little-endian `u64` count, then that many
/// entries. Every transaction takes up at least one byte. It takes no notice of bytes
/// that follow the entries. It reads entries and transactions where the scanner of
/// [`crate::view`] finds them, each from the bytes that are written for it, and with
/// the hash and the signatures that are found there. In no more than
/// `MAX_SCANNED_SIZE` bytes it reads whatever the scanner accepts; in more, a length
/// can exceed the limit for what is allocated at once, which goes by the size of the
/// items in memory. What else is in a transaction is left unsaid.
#[verifier::external_body]
fn read_entries(bytes: &[u8]) -> (read: Result<Vec<WireEntry>, ReadError>)
    ensures
        match (read, decoded(bytes@)) {
            (Ok(wire), Ok(entries)) => wire_views(wire@) == entries && bytes@.len() >= 8
                && wire@.len() == le64(bytes@, 0) && num_transactions(entries) <= bytes@.len(),
            (Err(error), Err(reason)) => error == reason,
            _ => false,
        },
        forall|n: int|
            0 <= n <= bytes@.len() && (#[trigger] decoded(bytes@.take(n))) is Ok ==> match read {
                Ok(wire) => decodes_to(bytes@.take(n), wire_views(wire@)),
                Err(_) => false,
            },
        match read {
            Ok(wire) => scanned_alike(bytes@, wire_views(wire@)),
            Err(_) => bytes@.len() <= MAX_SCANNED_SIZE ==> !scans(bytes@),
        },
{
    <wincode::containers::Vec<
        (
            u64,
            solana_hash::Hash,
            wincode::containers::Vec<
                VersionedTransaction,
                wincode::len::BincodeLen<MAX_DATA_SHREDS_SIZE>,
            >,
        ),
        wincode::len::BincodeLen<MAX_DATA_SHREDS_SIZE>,
    > as wincode::Deserialize>::deserialize(bytes)
}

/// Calls `wincode::Serialize::serialize` for a vector of entries' fields. What it
/// writes depends on the entries alone, and starts with their little-endian `u64`
/// count. Entries that were read once can be written, and are read back and scanned
/// from what is written. So are entries whose transactions are well formed, where they
/// can be written: every list in them is as long as its length says. Of other entries
/// nothing is said but that: a transaction can be put together so that it cannot be told
/// from another one once it is written.
#[verifier::external_body]
fn write_entries(wire: &Vec<WireEntry>) -> (written: Result<Vec<u8>, WriteError>)
    ensures
        match (written, encoded(wire_views(wire@))) {
            (Ok(bytes), Ok(wanted)) => bytes@ == wanted && bytes@.len() >= 8 && bytes@.take(8)
                == le64_bytes(wire@.len() as u64),
            (Err(error), Err(reason)) => error == reason,
            _ => false,
        },
        forall|source: Seq<u8>| #[trigger]
            decodes_to(source, wire_views(wire@)) ==> match written {
                Ok(bytes) => decodes_to(bytes@, wire_views(wire@)) && scanned_alike(
                    bytes@,
                    wire_views(wire@),
                ),
                Err(_) => false,
            },
        match written {
            Ok(bytes) => all_well_formed(wire_views(wire@)) ==> decodes_to(
                bytes@,
                wire_views(wire@),
            ) && scanned_alike(bytes@, wire_views(wire@)),
            Err(_) => true,
        },
{
    <wincode::containers::Vec<
        (
            u64,
            solana_hash::Hash,
            wincode::containers::Vec<
                VersionedTransaction,
                wincode::len::BincodeLen<MAX_DATA_SHREDS_SIZE>,
            >,
        ),
        wincode::len::BincodeLen<MAX_DATA_SHREDS_SIZE>,
    > as wincode::Serialize>::serialize(wire)
}

#[derive(Debug, PartialEq, Eq, Default)]
pub struct Entry {
    /// PoH hashes since the previous entry.
    pub num_hashes: u64,
    /// PoH hash after `num_hashes` hashes (mixed with the transactions).
    pub hash: solana_hash::Hash,
    pub transactions: Vec<VersionedTransaction>,
}

/// Calls `Hash::clone`, which copies the hash.
#[verifier::external_body]
fn clone_hash(hash: &solana_hash::Hash) -> (copy: solana_hash::Hash)
    ensures
        copy == *hash,
{
    hash.clone()
}

/// Calls `VersionedTransaction::clone`, which copies every field.
#[verifier::external_body]
fn clone_transaction(transaction: &VersionedTransaction) -> (copy: VersionedTransaction)
    ensures
        copy == *transaction,
{
    transaction.clone()
}

/// Calls `Hash::to_bytes`, which gives the bytes of the hash: as many as a hash has.
#[verifier::external_body]
fn bytes_of_hash(hash: &solana_hash::Hash) -> (bytes: [u8; 32])
    ensures
        bytes@ == hash_bytes(*hash),
{
    hash.to_bytes()
}

/// Reads the field `signatures` and calls `Signature::as_array` on each, which gives the
/// bytes of the signature.
#[verifier::external_body]
fn signatures(transaction: &VersionedTransaction) -> (signatures: Vec<[u8; 64]>)
    ensures
        signatures@.map_values(|signature: [u8; 64]| signature@) == signatures_of(*transaction),
{
    transaction.signatures.iter().map(|signature| *signature.as_array()).collect()
}

/// Calls `VersionedTransaction::sanitize`, which looks at the transaction alone.
#[verifier::external_body]
fn sanitize(transaction: &VersionedTransaction) -> (sane: bool)
    ensures
        sane == sanitized(*transaction),
{
    transaction.sanitize().is_ok()
}

/// The transaction id, as [`crate::view::TxView::signature`] gives it: the first
/// signature, if there is one.
pub fn first_signature(transaction: &VersionedTransaction) -> (first: Option<[u8; 64]>)
    ensures
        match first {
            Some(signature) => signatures_of(*transaction).len() > 0 && signature@
                == signatures_of(*transaction)[0],
            None => signatures_of(*transaction).len() == 0,
        },
{
    let all: Vec<[u8; 64]> = signatures(transaction);
    if all.len() == 0 {
        None
    } else {
        assert(all@.map_values(|signature: [u8; 64]| signature@)[0] == all@[0]@);
        Some(all[0])
    }
}

/// Whether all transactions of entries are well formed, as those are that a leader puts
/// into a block. Such entries decode from what they are encoded to.
pub fn are_well_formed(entries: &Vec<Entry>) -> (all: bool)
    ensures
        all == all_well_formed(entry_views(entries@)),
{
    let ghost views = entry_views(entries@);
    let mut i: usize = 0;
    while i < entries.len()
        invariant
            i <= entries@.len(),
            views == entry_views(entries@),
            all_well_formed(views.take(i as int)),
        decreases entries@.len() - i,
    {
        let transactions: &Vec<VersionedTransaction> = &entries[i].transactions;
        assert(views[i as int].2 == transactions@);
        let mut j: usize = 0;
        while j < transactions.len()
            invariant
                i < entries@.len(),
                j <= transactions@.len(),
                views == entry_views(entries@),
                views[i as int].2 == transactions@,
                forall|k: int| 0 <= k < j ==> well_formed(#[trigger] transactions@[k]),
            decreases transactions@.len() - j,
        {
            let transaction: &VersionedTransaction = &transactions[j];
            if !sanitize(transaction) || signatures(transaction).len() >= 0x80 {
                assert(!well_formed(views[i as int].2[j as int]));
                return false;
            }
            j = j + 1;
        }
        proof {
            let more = views.take(i + 1);
            assert forall|a: int, b: int|
                0 <= a < more.len() && 0 <= b < more[a].2.len() implies well_formed(
                #[trigger] more[a].2[b],
            ) by {
                if a < i {
                    assert(views.take(i as int)[a].2[b] == more[a].2[b]);
                }
            }
        }
        i = i + 1;
    }
    assert(views.take(i as int) =~= views);
    true
}

impl Clone for Entry {
    fn clone(&self) -> (entry: Self)
        ensures
            entry@ == self@,
    {
        let mut transactions: Vec<VersionedTransaction> = Vec::new();
        let mut i: usize = 0;
        while i < self.transactions.len()
            invariant
                i <= self.transactions@.len(),
                transactions@ == self.transactions@.take(i as int),
            decreases self.transactions@.len() - i,
        {
            transactions.push(clone_transaction(&self.transactions[i]));
            assert(transactions@ =~= self.transactions@.take(i + 1));
            i = i + 1;
        }
        assert(self.transactions@.take(i as int) =~= self.transactions@);
        Entry { num_hashes: self.num_hashes, hash: clone_hash(&self.hash), transactions }
    }
}

impl Entry {
    /// The bytes of the hash, as [`crate::view::EntryView`] has them.
    pub fn hash_bytes(&self) -> (bytes: [u8; 32])
        ensures
            bytes@ == hash_bytes(self@.1),
    {
        bytes_of_hash(&self.hash)
    }
}

impl View for Entry {
    type V = (u64, solana_hash::Hash, Seq<VersionedTransaction>);

    open spec fn view(&self) -> (u64, solana_hash::Hash, Seq<VersionedTransaction>) {
        (self.num_hashes, self.hash, self.transactions@)
    }
}

/// Views of entries.
pub open spec fn entry_views(entries: Seq<Entry>) -> Seq<(u64, solana_hash::Hash, Seq<VersionedTransaction>)> {
    entries.map_values(|entry: Entry| entry@)
}

pub enum BlockData {
    Entries(Vec<Entry>),
    BlockMarker,
}

/// The payload does not decode.
#[derive(Debug)]
pub struct DecodeError {
    pub source: ReadError,
}

/// The entries cannot be serialized.
#[derive(Debug)]
pub struct EncodeError {
    pub source: WriteError,
}

/// Whether a payload is a block marker: its entry count is zero.
pub open spec fn is_marker(bytes: Seq<u8>) -> bool {
    bytes.len() >= 8 && le64(bytes, 0) == 0
}

/// Whether the first eight bytes are there and all zero.
pub open spec fn starts_with_zeros(bytes: Seq<u8>) -> bool {
    bytes.len() >= 8 && forall|i: int| 0 <= i < 8 ==> #[trigger] bytes[i] == 0
}

/// A payload is a block marker exactly if its first eight bytes are all zero. One that
/// starts with the number of its entries is none, unless it has none.
pub proof fn law_marker(bytes: Seq<u8>, n: u64, rest: Seq<u8>)
    ensures
        is_marker(bytes) <==> starts_with_zeros(bytes),
        is_marker(le64_bytes(n) + rest) <==> n == 0,
{
    if bytes.len() >= 8 {
        lemma_zero_bytes(bytes);
    }
    let counted = le64_bytes(n) + rest;
    assert(counted.subrange(0, 8) =~= le64_bytes(n));
    assert(le64_bytes(n).subrange(0, 8) =~= le64_bytes(n));
    lemma_le_same_bytes(counted, 0, le64_bytes(n), 0, 8);
    lemma_le64_round_trip(n);
}

/// A number is zero exactly if all its bytes are.
proof fn lemma_zero_bytes(bytes: Seq<u8>)
    requires
        bytes.len() >= 8,
    ensures
        le64(bytes, 0) == 0 <==> starts_with_zeros(bytes),
{
    if starts_with_zeros(bytes) {
        assert(bytes[0] == 0 && bytes[1] == 0 && bytes[2] == 0 && bytes[3] == 0 && bytes[4] == 0
            && bytes[5] == 0 && bytes[6] == 0 && bytes[7] == 0);
    }
}

/// What was encoded is no marker where there is an entry in it.
proof fn lemma_encoded_is_no_marker(bytes: Seq<u8>, n: u64)
    requires
        bytes.len() >= 8,
        bytes.take(8) == le64_bytes(n),
    ensures
        starts_with_zeros(bytes) <==> n == 0,
{
    let rest = bytes.skip(8);
    assert(bytes =~= le64_bytes(n) + rest);
    law_marker(bytes, n, rest);
}

/// Entries from their fields.
pub fn from_wire(wire: Vec<WireEntry>) -> (entries: Vec<Entry>)
    ensures
        entry_views(entries@) == wire_views(wire@),
        entries@.len() == wire@.len(),
{
    let mut entries: Vec<Entry> = Vec::new();
    let ghost all = wire@;
    for fields in it: wire
        invariant
            it.seq() == all,
            entries@.len() == it.index(),
            forall|i: int|
                0 <= i < it.index() ==> (#[trigger] entries@[i])@ == (
                    all[i].0,
                    all[i].1,
                    all[i].2@,
                ),
    {
        let (num_hashes, hash, transactions) = fields;
        entries.push(Entry { num_hashes, hash, transactions });
    }
    assert(entry_views(entries@) =~= wire_views(all));
    entries
}

/// Fields of entries.
fn into_wire(entries: Vec<Entry>) -> (wire: Vec<WireEntry>)
    ensures
        wire_views(wire@) == entry_views(entries@),
        wire@.len() == entries@.len(),
{
    let mut wire: Vec<WireEntry> = Vec::new();
    let ghost all = entries@;
    for entry in it: entries
        invariant
            it.seq() == all,
            wire@.len() == it.index(),
            forall|i: int|
                0 <= i < it.index() ==> {
                    let fields = #[trigger] wire@[i];
                    (fields.0, fields.1, fields.2@) == all[i]@
                },
    {
        wire.push((entry.num_hashes, entry.hash, entry.transactions));
    }
    assert(wire_views(wire@) =~= entry_views(all));
    wire
}

/// Decode one complete shred run. Bytes that follow the entries are ignored: a
/// final padded run can carry trailing zero bytes. What is decoded is what the scanner
/// of [`crate::view`] finds, at the same boundaries.
pub fn decode(bytes: &[u8]) -> (data: Result<BlockData, DecodeError>)
    ensures
        match data {
            Ok(BlockData::BlockMarker) => is_marker(bytes@),
            Ok(BlockData::Entries(entries)) => {
                &&& !is_marker(bytes@)
                &&& decodes_to(bytes@, entry_views(entries@))
                &&& bytes@.len() >= 8
                &&& entries@.len() == le64(bytes@, 0)
                &&& num_transactions(entry_views(entries@)) <= bytes@.len()
                &&& scanned_alike(bytes@, entry_views(entries@))
            },
            Err(error) => {
                &&& !is_marker(bytes@)
                &&& decoded(bytes@) == Err::<
                    Seq<(u64, solana_hash::Hash, Seq<VersionedTransaction>)>,
                    ReadError,
                >(error.source)
                &&& bytes@.len() <= MAX_SCANNED_SIZE ==> !scans(bytes@)
            },
        },
        forall|n: int|
            0 <= n <= bytes@.len() && (#[trigger] decoded(bytes@.take(n))) is Ok ==> decoded(
                bytes@.take(n),
            ) == decoded(bytes@) || is_marker(bytes@),
        data matches Ok(BlockData::BlockMarker) <==> starts_with_zeros(bytes@),
        data matches Ok(BlockData::Entries(entries)) ==> entries@.len() > 0,
{
    proof {
        law_marker(bytes@, 0, Seq::empty());
    }
    if bytes.len() >= 8 && u64_at(bytes, 0) == 0 {
        return Ok(BlockData::BlockMarker);
    }
    match read_entries(bytes) {
        Ok(wire) => Ok(BlockData::Entries(from_wire(wire))),
        Err(error) => Err(DecodeError { source: error }),
    }
}

/// Serialize entries the way a leader does before shredding them, if that can be
/// done. Entries that were decoded can be serialized again, and decode from that. So do
/// entries that are well formed.
pub fn try_encode(entries: Vec<Entry>) -> (bytes: Result<Vec<u8>, EncodeError>)
    ensures
        match (bytes, encoded(entry_views(entries@))) {
            (Ok(bytes), Ok(wanted)) => bytes@ == wanted && bytes@.len() >= 8 && bytes@.take(8)
                == le64_bytes(entries@.len() as u64),
            (Err(error), Err(reason)) => error.source == reason,
            _ => false,
        },
        forall|source: Seq<u8>| #[trigger]
            decodes_to(source, entry_views(entries@)) ==> match bytes {
                Ok(bytes) => decodes_to(bytes@, entry_views(entries@)) && scanned_alike(
                    bytes@,
                    entry_views(entries@),
                ),
                Err(_) => false,
            },
        match bytes {
            Ok(bytes) => all_well_formed(entry_views(entries@)) ==> decodes_to(
                bytes@,
                entry_views(entries@),
            ) && scanned_alike(bytes@, entry_views(entries@)),
            Err(_) => true,
        },
        bytes matches Ok(bytes) ==> (starts_with_zeros(bytes@) <==> entries@.len() == 0),
{
    let wire: Vec<WireEntry> = into_wire(entries);
    match write_entries(&wire) {
        Ok(_) => Ok(encode(from_wire(wire))),
        Err(error) => Err(EncodeError { source: error }),
    }
}

/// Serialize entries the way a leader does before shredding them. Entries that
/// were decoded decode from that again, and so do entries that are well formed.
pub fn encode(entries: Vec<Entry>) -> (bytes: Vec<u8>)
    requires
        encoded(entry_views(entries@)) is Ok,
    ensures
        encoded(entry_views(entries@)) == Ok::<Seq<u8>, WriteError>(bytes@),
        bytes@.len() >= 8,
        bytes@.take(8) == le64_bytes(entries@.len() as u64),
        forall|source: Seq<u8>| #[trigger]
            decodes_to(source, entry_views(entries@)) ==> decodes_to(
                bytes@,
                entry_views(entries@),
            ) && scanned_alike(bytes@, entry_views(entries@)),
        all_well_formed(entry_views(entries@)) ==> decodes_to(bytes@, entry_views(entries@))
            && scanned_alike(bytes@, entry_views(entries@)),
        starts_with_zeros(bytes@) <==> entries@.len() == 0,
{
    let count: usize = entries.len();
    let bytes: Vec<u8> = write_entries(&into_wire(entries)).unwrap();
    proof {
        lemma_encoded_is_no_marker(bytes@, count as u64);
    }
    bytes
}

} // verus!

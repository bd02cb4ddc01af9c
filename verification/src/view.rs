//! Zero-copy view of a deshredded segment: entries and transactions as
//! slices into the payload, nothing allocated, nothing copied.
//!
//! [`crate::entry::decode`] materializes every transaction into owned
//! structs, which costs a handful of heap allocations per transaction. A
//! consumer that only routes on the signature, the program ids, or a few
//! account keys can instead scan the segment once, learning only where each
//! transaction starts and ends, and read the fields it needs in place.
//!
//! Wire layout walked here, all little-endian:
//!
//! ```text
//! segment  = entry count (u64) | entries
//! entry    = num_hashes (u64) | hash (32) | tx count (u64) | transactions
//! legacy   = sigs (shortvec) | header (3) | keys (shortvec of 32) |
//!            blockhash (32) | instructions (shortvec)
//! v0       = like legacy with a 0x80 version byte before the header and
//!            address table lookups after the instructions
//! v1       = 0x81 | header (3) | config mask (u32) | blockhash (32) |
//!            n_ix (u8) | n_keys (u8) | keys | config values |
//!            ix headers (4 each) | ix payloads | sigs (no count prefix)
//! ```
//!
//! The scanner accepts exactly what the owned decoder accepts, but for the limits
//! that the decoder sets on what it allocates for one length, and the slices are
//! those that the decoder reads.

use crate::le::{
    le16, le32, le64, le64_bytes, lemma_le64_spelled, u16_at, u32_at, u64_at,
};
use vstd::prelude::*;

verus! {

#[derive(Debug, Clone, Copy, PartialEq, Eq, Structural)]
pub enum ViewError {
    /// The segment ends at or after this byte, where more was needed.
    Truncated(usize),
    /// The length at this byte is not a valid shortvec length.
    BadShortVec(usize),
    /// Unknown transaction version.
    UnknownVersion(u8),
    /// Unknown v1 config mask bit.
    BadConfigMask,
}

#[derive(Debug, Clone, Copy, PartialEq, Eq, Structural)]
pub enum TxVersion {
    Legacy,
    V0,
    V1,
}

/// Where `n` bytes from `at` on end.
pub open spec fn span(b: Seq<u8>, at: int, n: int) -> Result<int, ViewError> {
    if at + n <= b.len() {
        Ok(at + n)
    } else {
        Err(ViewError::Truncated(at as usize))
    }
}

/// A length in Solana's compact form, a `u16` in as few bytes as it takes: 7 bits per
/// byte, at most 3 bytes, each but the last with the top bit set. Gives the length and
/// where it ends.
pub open spec fn shortvec(b: Seq<u8>, at: int) -> Result<(int, int), ViewError> {
    if at >= b.len() {
        Err(ViewError::Truncated(at as usize))
    } else if b[at] < 128 {
        Ok((b[at] as int, at + 1))
    } else if at + 1 >= b.len() {
        Err(ViewError::Truncated((at + 1) as usize))
    } else if b[at + 1] == 0 {
        Err(ViewError::BadShortVec(at as usize))
    } else if b[at + 1] < 128 {
        Ok((b[at] - 128 + 128 * b[at + 1], at + 2))
    } else if at + 2 >= b.len() {
        Err(ViewError::Truncated((at + 2) as usize))
    } else if 0 < b[at + 2] <= 3 {
        Ok((b[at] - 128 + 128 * (b[at + 1] - 128) + 16384 * b[at + 2], at + 3))
    } else {
        Err(ViewError::BadShortVec(at as usize))
    }
}

/// Where a counted run of items of `width` bytes each ends.
pub open spec fn items(b: Seq<u8>, at: int, width: int) -> Result<int, ViewError> {
    match shortvec(b, at) {
        Ok((n, first)) => span(b, first, n * width),
        Err(error) => Err(error),
    }
}

/// Where an instruction ends: program id index, accounts, data.
pub open spec fn instruction(b: Seq<u8>, at: int) -> Result<int, ViewError> {
    match span(b, at, 1) {
        Ok(accounts) => match items(b, accounts, 1) {
            Ok(data) => items(b, data, 1),
            Err(error) => Err(error),
        },
        Err(error) => Err(error),
    }
}

/// Where `n` instructions end.
pub open spec fn instructions(b: Seq<u8>, at: int, n: nat) -> Result<int, ViewError>
    decreases n,
{
    if n == 0 {
        Ok(at)
    } else {
        match instruction(b, at) {
            Ok(next) => instructions(b, next, (n - 1) as nat),
            Err(error) => Err(error),
        }
    }
}

/// Where an address table lookup ends: table address, writable and readonly
/// indexes.
pub open spec fn lookup(b: Seq<u8>, at: int) -> Result<int, ViewError> {
    match span(b, at, 32) {
        Ok(writable) => match items(b, writable, 1) {
            Ok(readonly) => items(b, readonly, 1),
            Err(error) => Err(error),
        },
        Err(error) => Err(error),
    }
}

/// Where `n` address table lookups end.
pub open spec fn lookups(b: Seq<u8>, at: int, n: nat) -> Result<int, ViewError>
    decreases n,
{
    if n == 0 {
        Ok(at)
    } else {
        match lookup(b, at) {
            Ok(next) => lookups(b, next, (n - 1) as nat),
            Err(error) => Err(error),
        }
    }
}

/// Where what legacy and v0 messages have in common ends: header, keys,
/// blockhash, instructions.
pub open spec fn message(b: Seq<u8>, at: int) -> Result<int, ViewError> {
    match span(b, at, 3) {
        Ok(keys) => match items(b, keys, 32) {
            Ok(blockhash) => match span(b, blockhash, 32) {
                Ok(counted) => match shortvec(b, counted) {
                    Ok((n, first)) => instructions(b, first, n as nat),
                    Err(error) => Err(error),
                },
                Err(error) => Err(error),
            },
            Err(error) => Err(error),
        },
        Err(error) => Err(error),
    }
}

/// Where a message that starts with its version, if it has one, ends, and which
/// version it is.
#[verifier::opaque]
pub open spec fn versioned_message(b: Seq<u8>, at: int) -> Result<(TxVersion, int), ViewError> {
    if at >= b.len() {
        Err(ViewError::Truncated(at as usize))
    } else if b[at] < 128 {
        match message(b, at) {
            Ok(end) => Ok((TxVersion::Legacy, end)),
            Err(error) => Err(error),
        }
    } else if b[at] == 128 {
        match message(b, at + 1) {
            Ok(counted) => match shortvec(b, counted) {
                Ok((n, first)) => match lookups(b, first, n as nat) {
                    Ok(end) => Ok((TxVersion::V0, end)),
                    Err(error) => Err(error),
                },
                Err(error) => Err(error),
            },
            Err(error) => Err(error),
        }
    } else {
        Err(ViewError::UnknownVersion(b[at]))
    }
}

/// What is known of a transaction: its bytes, its version, and where its
/// signatures are.
#[verifier::ext_equal]
pub struct TxModel {
    pub bytes: Seq<u8>,
    pub version: TxVersion,
    pub signatures_offset: int,
    pub num_signatures: u8,
}

impl TxModel {
    /// Whether the signatures lie within the transaction.
    pub open spec fn signatures_within(self) -> bool {
        &&& 0 <= self.signatures_offset
        &&& self.signatures_offset + 64 * self.num_signatures <= self.bytes.len()
    }
}

/// A legacy or v0 transaction at `at`, and where it ends.
pub open spec fn legacy_or_v0(b: Seq<u8>, at: int) -> Result<(TxModel, int), ViewError> {
    match shortvec(b, at) {
        Ok((n, signatures)) => match span(b, signatures, 64 * n) {
            Ok(body) => match versioned_message(b, body) {
                Ok((version, end)) => Ok(
                    (
                        TxModel {
                            bytes: b.subrange(at, end),
                            version,
                            signatures_offset: signatures - at,
                            num_signatures: n as u8,
                        },
                        end,
                    ),
                ),
                Err(error) => Err(error),
            },
            Err(error) => Err(error),
        },
        Err(error) => Err(error),
    }
}

/// Whether a v1 config mask has unknown bits, or one of the two bits of the
/// priority fee without the other.
pub open spec fn bad_mask(mask: int) -> bool {
    mask >= 32 || mask % 4 == 1 || mask % 4 == 2
}

/// How long the config values are that a mask announces: eight bytes for the
/// priority fee, four for each of the others.
pub open spec fn config_len(mask: int) -> int {
    (if mask % 4 != 0 {
        8int
    } else {
        0
    }) + 4 * (mask / 4 % 2) + 4 * (mask / 8 % 2) + 4 * (mask / 16 % 2)
}

/// How long the accounts and data are that `n` v1 instruction headers announce.
pub open spec fn payloads_len(headers: Seq<u8>, n: nat) -> int
    decreases n,
{
    if n == 0 {
        0
    } else {
        payloads_len(headers, (n - 1) as nat) + headers[4 * (n - 1) + 1] + le16(
            headers,
            4 * (n - 1) + 2,
        )
    }
}

/// A v1 transaction at `at`, and where it ends: fixed-width counts, inline
/// config, signatures at the tail without a length prefix.
pub open spec fn v1(b: Seq<u8>, at: int) -> Result<(TxModel, int), ViewError> {
    if b.len() < at + 2 {
        Err(ViewError::Truncated((at + 1) as usize))
    } else if b.len() < at + 4 {
        Err(ViewError::Truncated((at + 2) as usize))
    } else if b.len() < at + 8 {
        Err(ViewError::Truncated((at + 4) as usize))
    } else if bad_mask(le32(b, at + 4)) {
        Err(ViewError::BadConfigMask)
    } else if b.len() < at + 40 {
        Err(ViewError::Truncated((at + 8) as usize))
    } else if b.len() < at + 41 {
        Err(ViewError::Truncated((at + 40) as usize))
    } else if b.len() < at + 42 {
        Err(ViewError::Truncated((at + 41) as usize))
    } else {
        let num_instructions = b[at + 40];
        match span(b, at + 42, 32 * b[at + 41]) {
            Ok(config) => match span(b, config, config_len(le32(b, at + 4))) {
                Ok(headers) => match span(b, headers, 4 * num_instructions) {
                    Ok(payloads) => match span(
                        b,
                        payloads,
                        payloads_len(b.subrange(headers, payloads), num_instructions as nat),
                    ) {
                        Ok(signatures) => match span(b, signatures, 64 * b[at + 1]) {
                            Ok(end) => Ok(
                                (
                                    TxModel {
                                        bytes: b.subrange(at, end),
                                        version: TxVersion::V1,
                                        signatures_offset: signatures - at,
                                        num_signatures: b[at + 1],
                                    },
                                    end,
                                ),
                            ),
                            Err(error) => Err(error),
                        },
                        Err(error) => Err(error),
                    },
                    Err(error) => Err(error),
                },
                Err(error) => Err(error),
            },
            Err(error) => Err(error),
        }
    }
}

/// The transaction at `at`, and where it ends. Legacy and v0 start with the
/// signature count, which is below 0x80; v1 starts with its 0x81 version byte.
#[verifier::opaque]
pub open spec fn transaction(b: Seq<u8>, at: int) -> Result<(TxModel, int), ViewError> {
    if at >= b.len() {
        Err(ViewError::Truncated(at as usize))
    } else if b[at] < 128 {
        legacy_or_v0(b, at)
    } else if b[at] == 129 {
        v1(b, at)
    } else {
        Err(ViewError::UnknownVersion(b[at]))
    }
}

/// Where `n` transactions, back to back, end.
pub open spec fn transactions(b: Seq<u8>, at: int, n: nat) -> Result<int, ViewError>
    decreases n,
{
    if n == 0 {
        Ok(at)
    } else {
        match transaction(b, at) {
            Ok((_, next)) => transactions(b, next, (n - 1) as nat),
            Err(error) => Err(error),
        }
    }
}

/// What is known of an entry: its header, and the bytes of its transactions.
#[verifier::ext_equal]
pub struct EntryModel {
    pub num_hashes: u64,
    pub hash: Seq<u8>,
    pub num_transactions: u64,
    pub transactions: Seq<u8>,
}

/// The entry at `at`, and where it ends.
#[verifier::opaque]
pub open spec fn entry(b: Seq<u8>, at: int) -> Result<(EntryModel, int), ViewError> {
    if b.len() < at + 8 {
        Err(ViewError::Truncated(at as usize))
    } else if b.len() < at + 40 {
        Err(ViewError::Truncated((at + 8) as usize))
    } else if b.len() < at + 48 {
        Err(ViewError::Truncated((at + 40) as usize))
    } else {
        let num_transactions = le64(b, at + 40) as u64;
        match transactions(b, at + 48, num_transactions as nat) {
            Ok(end) => Ok(
                (
                    EntryModel {
                        num_hashes: le64(b, at) as u64,
                        hash: b.subrange(at + 8, at + 40),
                        num_transactions,
                        transactions: b.subrange(at + 48, end),
                    },
                    end,
                ),
            ),
            Err(error) => Err(error),
        }
    }
}

/// A counted run ends after it starts and within the bytes.
pub proof fn lemma_items_range(b: Seq<u8>, at: int, width: int)
    requires
        0 <= at <= b.len(),
        0 <= width,
    ensures
        items(b, at, width) matches Ok(end) ==> at < end <= b.len(),
{
    if let Ok((n, first)) = shortvec(b, at) {
        assert(0 <= n * width) by (nonlinear_arith)
            requires
                0 <= n,
                0 <= width,
        ;
    }
}

/// Instructions end after they start and within the bytes.
pub proof fn lemma_instructions_range(b: Seq<u8>, at: int, n: nat)
    requires
        0 <= at <= b.len(),
    ensures
        instructions(b, at, n) matches Ok(end) ==> at <= end <= b.len(),
    decreases n,
{
    if n > 0 {
        if at + 1 <= b.len() {
            lemma_items_range(b, at + 1, 1);
            if let Ok(data) = items(b, at + 1, 1) {
                lemma_items_range(b, data, 1);
            }
        }
        if let Ok(next) = instruction(b, at) {
            lemma_instructions_range(b, next, (n - 1) as nat);
        }
    }
}

/// Lookups end after they start and within the bytes.
pub proof fn lemma_lookups_range(b: Seq<u8>, at: int, n: nat)
    requires
        0 <= at <= b.len(),
    ensures
        lookups(b, at, n) matches Ok(end) ==> at <= end <= b.len(),
    decreases n,
{
    if n > 0 {
        if at + 32 <= b.len() {
            lemma_items_range(b, at + 32, 1);
            if let Ok(readonly) = items(b, at + 32, 1) {
                lemma_items_range(b, readonly, 1);
            }
        }
        if let Ok(next) = lookup(b, at) {
            lemma_lookups_range(b, next, (n - 1) as nat);
        }
    }
}

/// A message ends after it starts and within the bytes.
pub proof fn lemma_message_range(b: Seq<u8>, at: int)
    requires
        0 <= at <= b.len(),
    ensures
        message(b, at) matches Ok(end) ==> at < end <= b.len(),
{
    if let Ok(keys) = span(b, at, 3) {
        lemma_items_range(b, keys, 32);
        if let Ok(blockhash) = items(b, keys, 32) {
            if let Ok(counted) = span(b, blockhash, 32) {
                if let Ok((n, first)) = shortvec(b, counted) {
                    lemma_instructions_range(b, first, n as nat);
                }
            }
        }
    }
}

/// A versioned message ends after it starts and within the bytes.
pub proof fn lemma_versioned_message_range(b: Seq<u8>, at: int)
    requires
        0 <= at <= b.len(),
    ensures
        versioned_message(b, at) matches Ok((_, end)) ==> at < end <= b.len(),
{
    reveal(versioned_message);
    if at < b.len() {
        lemma_message_range(b, at);
        lemma_message_range(b, at + 1);
        if let Ok(counted) = message(b, at + 1) {
            if let Ok((n, first)) = shortvec(b, counted) {
                lemma_lookups_range(b, first, n as nat);
            }
        }
    }
}

/// A length reads the same in a part of the bytes that holds it.
proof fn lemma_shortvec_part(b: Seq<u8>, at: int, from: int, to: int)
    requires
        0 <= from <= at,
        to <= b.len(),
        shortvec(b, at) matches Ok((_, end)) && end <= to,
    ensures
        shortvec(b, at) matches Ok((n, end)) && shortvec(b.subrange(from, to), at - from) == Ok::<
            (int, int),
            ViewError,
        >((n, end - from)),
{
}

/// A counted run ends at the same place in a part of the bytes that holds it.
proof fn lemma_items_part(b: Seq<u8>, at: int, width: int, from: int, to: int)
    requires
        0 <= from <= at <= b.len(),
        0 <= width,
        to <= b.len(),
        items(b, at, width) matches Ok(end) && end <= to,
    ensures
        items(b, at, width) matches Ok(end) && items(b.subrange(from, to), at - from, width)
            == Ok::<int, ViewError>(end - from),
{
    lemma_items_range(b, at, width);
    let (n, first) = shortvec(b, at)->Ok_0;
    assert(0 <= n * width) by (nonlinear_arith)
        requires
            0 <= n,
            0 <= width,
    ;
    lemma_shortvec_part(b, at, from, to);
}

/// Instructions end at the same place in a part of the bytes that holds them.
proof fn lemma_instructions_part(b: Seq<u8>, at: int, n: nat, from: int, to: int)
    requires
        0 <= from <= at <= b.len(),
        to <= b.len(),
        instructions(b, at, n) matches Ok(end) && end <= to,
    ensures
        instructions(b, at, n) matches Ok(end) && instructions(b.subrange(from, to), at - from, n)
            == Ok::<int, ViewError>(end - from),
    decreases n,
{
    if n > 0 {
        let next = instruction(b, at)->Ok_0;
        let data = items(b, at + 1, 1)->Ok_0;
        lemma_items_range(b, at + 1, 1);
        lemma_items_range(b, data, 1);
        lemma_instructions_range(b, next, (n - 1) as nat);
        lemma_items_part(b, at + 1, 1, from, to);
        lemma_items_part(b, data, 1, from, to);
        lemma_instructions_part(b, next, (n - 1) as nat, from, to);
        assert(instruction(b.subrange(from, to), at - from) == Ok::<int, ViewError>(next - from));
    }
}

/// Lookups end at the same place in a part of the bytes that holds them.
proof fn lemma_lookups_part(b: Seq<u8>, at: int, n: nat, from: int, to: int)
    requires
        0 <= from <= at <= b.len(),
        to <= b.len(),
        lookups(b, at, n) matches Ok(end) && end <= to,
    ensures
        lookups(b, at, n) matches Ok(end) && lookups(b.subrange(from, to), at - from, n) == Ok::<
            int,
            ViewError,
        >(end - from),
    decreases n,
{
    if n > 0 {
        let next = lookup(b, at)->Ok_0;
        let readonly = items(b, at + 32, 1)->Ok_0;
        lemma_items_range(b, at + 32, 1);
        lemma_items_range(b, readonly, 1);
        lemma_lookups_range(b, next, (n - 1) as nat);
        lemma_items_part(b, at + 32, 1, from, to);
        lemma_items_part(b, readonly, 1, from, to);
        lemma_lookups_part(b, next, (n - 1) as nat, from, to);
        assert(lookup(b.subrange(from, to), at - from) == Ok::<int, ViewError>(next - from));
    }
}

/// A message ends at the same place in a part of the bytes that holds it.
proof fn lemma_message_part(b: Seq<u8>, at: int, from: int, to: int)
    requires
        0 <= from <= at <= b.len(),
        to <= b.len(),
        message(b, at) matches Ok(end) && end <= to,
    ensures
        message(b, at) matches Ok(end) && message(b.subrange(from, to), at - from) == Ok::<
            int,
            ViewError,
        >(end - from),
{
    let blockhash = items(b, at + 3, 32)->Ok_0;
    let (n, first) = shortvec(b, blockhash + 32)->Ok_0;
    lemma_items_range(b, at + 3, 32);
    lemma_instructions_range(b, first, n as nat);
    lemma_items_part(b, at + 3, 32, from, to);
    lemma_shortvec_part(b, blockhash + 32, from, to);
    lemma_instructions_part(b, first, n as nat, from, to);
}

/// A versioned message ends at the same place in a part of the bytes that holds
/// it.
proof fn lemma_versioned_message_part(b: Seq<u8>, at: int, from: int, to: int)
    requires
        0 <= from <= at <= b.len(),
        to <= b.len(),
        versioned_message(b, at) matches Ok((_, end)) && end <= to,
    ensures
        versioned_message(b, at) matches Ok((version, end)) && versioned_message(
            b.subrange(from, to),
            at - from,
        ) == Ok::<(TxVersion, int), ViewError>((version, end - from)),
{
    reveal(versioned_message);
    lemma_versioned_message_range(b, at);
    if b[at] < 128 {
        lemma_message_part(b, at, from, to);
    } else {
        let counted = message(b, at + 1)->Ok_0;
        let (n, first) = shortvec(b, counted)->Ok_0;
        lemma_message_range(b, at + 1);
        lemma_lookups_range(b, first, n as nat);
        lemma_message_part(b, at + 1, from, to);
        lemma_shortvec_part(b, counted, from, to);
        lemma_lookups_part(b, first, n as nat, from, to);
    }
}

/// A legacy or v0 transaction is the same in a part of the bytes that holds it.
proof fn lemma_legacy_or_v0_part(b: Seq<u8>, at: int, from: int, to: int)
    requires
        0 <= from <= at < b.len(),
        to <= b.len(),
        b[at] < 128,
        legacy_or_v0(b, at) matches Ok((_, end)) && end <= to,
    ensures
        legacy_or_v0(b, at) matches Ok((tx, end)) && at < end && legacy_or_v0(
            b.subrange(from, to),
            at - from,
        ) == Ok::<(TxModel, int), ViewError>((tx, end - from)) && 0 <= tx.signatures_offset
            && tx.signatures_offset + 64 * tx.num_signatures <= tx.bytes.len(),
{
    let n = b[at] as int;
    let body = at + 1 + 64 * n;
    let (version, end) = versioned_message(b, body)->Ok_0;
    let part = b.subrange(from, to);
    assert(shortvec(b, at) == Ok::<(int, int), ViewError>((n, at + 1)));
    assert(body <= b.len());
    lemma_versioned_message_range(b, body);
    lemma_versioned_message_part(b, body, from, to);
    assert(shortvec(part, at - from) == Ok::<(int, int), ViewError>((n, at + 1 - from)));
    assert(part.subrange(at - from, end - from) =~= b.subrange(at, end));
}

/// What instruction headers announce is not negative.
pub proof fn lemma_payloads_len(headers: Seq<u8>, n: nat)
    ensures
        payloads_len(headers, n) >= 0,
    decreases n,
{
    if n > 0 {
        lemma_payloads_len(headers, (n - 1) as nat);
    }
}

/// A v1 transaction is the same in a part of the bytes that holds it.
proof fn lemma_v1_part(b: Seq<u8>, at: int, from: int, to: int)
    requires
        0 <= from <= at <= b.len(),
        to <= b.len(),
        v1(b, at) matches Ok((_, end)) && end <= to,
    ensures
        v1(b, at) matches Ok((tx, end)) && at < end && v1(b.subrange(from, to), at - from) == Ok::<
            (TxModel, int),
            ViewError,
        >((tx, end - from)) && 0 <= tx.signatures_offset && tx.signatures_offset + 64
            * tx.num_signatures <= tx.bytes.len(),
{
    let part = b.subrange(from, to);
    let (tx, end) = v1(b, at)->Ok_0;
    let config = at + 42 + 32 * b[at + 41];
    let headers = config + config_len(le32(b, at + 4));
    let payloads = headers + 4 * b[at + 40];
    lemma_payloads_len(b.subrange(headers, payloads), b[at + 40] as nat);
    assert(b.len() >= at + 42);
    assert(end >= payloads >= headers >= config >= at + 42);
    assert(le32(part, at - from + 4) == le32(b, at + 4));
    assert(part.subrange(headers - from, payloads - from) =~= b.subrange(headers, payloads));
    assert(part.subrange(at - from, end - from) =~= b.subrange(at, end));
}

/// A transaction is the same in a part of the bytes that holds it: its boundaries
/// do not depend on what is around it. Its signatures are within it.
pub proof fn law_transaction_stands_alone(b: Seq<u8>, at: int, from: int, to: int)
    requires
        0 <= from <= at,
        to <= b.len(),
        transaction(b, at) matches Ok((_, end)) && end <= to,
    ensures
        transaction(b, at) matches Ok((tx, end)) && at < end && tx.bytes == b.subrange(at, end)
            && transaction(b.subrange(from, to), at - from) == Ok::<(TxModel, int), ViewError>(
            (tx, end - from),
        ) && 0 <= tx.signatures_offset && tx.signatures_offset + 64 * tx.num_signatures
            <= tx.bytes.len(),
{
    reveal(transaction);
    if b[at] < 128 {
        lemma_legacy_or_v0_part(b, at, from, to);
    } else {
        lemma_v1_part(b, at, from, to);
    }
}

/// Transactions end after they start, within the bytes, and at the same place in
/// a part of the bytes that holds them.
pub proof fn law_transactions_stand_alone(b: Seq<u8>, at: int, n: nat, from: int, to: int)
    requires
        0 <= from <= at <= b.len(),
        to <= b.len(),
        transactions(b, at, n) matches Ok(end) && end <= to,
    ensures
        transactions(b, at, n) matches Ok(end) && at <= end && transactions(
            b.subrange(from, to),
            at - from,
            n,
        ) == Ok::<int, ViewError>(end - from),
    decreases n,
{
    if n > 0 {
        let (tx, next) = transaction(b, at)->Ok_0;
        lemma_transaction_range(b, at);
        lemma_transactions_range(b, next, (n - 1) as nat);
        law_transaction_stands_alone(b, at, from, to);
        law_transactions_stand_alone(b, next, (n - 1) as nat, from, to);
    }
}

/// A transaction ends within the bytes.
proof fn lemma_transaction_range(b: Seq<u8>, at: int)
    requires
        0 <= at,
    ensures
        transaction(b, at) matches Ok((_, end)) ==> at < end <= b.len(),
{
    reveal(transaction);
    if let Ok((_, end)) = transaction(b, at) {
        if b[at] < 128 {
            let (n, signatures) = shortvec(b, at)->Ok_0;
            lemma_versioned_message_range(b, signatures + 64 * n);
        } else {
            let headers = at + 42 + 32 * b[at + 41] + config_len(le32(b, at + 4));
            let payloads = headers + 4 * b[at + 40];
            lemma_payloads_len(b.subrange(headers, payloads), b[at + 40] as nat);
        }
    }
}

/// Transactions end within the bytes.
proof fn lemma_transactions_range(b: Seq<u8>, at: int, n: nat)
    requires
        0 <= at <= b.len(),
    ensures
        transactions(b, at, n) matches Ok(end) ==> at <= end <= b.len(),
    decreases n,
{
    if n > 0 {
        lemma_transaction_range(b, at);
        if let Ok((_, next)) = transaction(b, at) {
            lemma_transactions_range(b, next, (n - 1) as nat);
        }
    }
}

impl EntryModel {
    /// The bytes are as many transactions as the entry says, back to back.
    pub open spec fn valid(self) -> bool {
        transactions(self.transactions, 0, self.num_transactions as nat) == Ok::<int, ViewError>(
            self.transactions.len() as int,
        )
    }
}

/// The transactions of an entry can be scanned again without its segment.
pub proof fn law_entry_holds_its_transactions(b: Seq<u8>, at: int)
    requires
        0 <= at,
        entry(b, at) is Ok,
    ensures
        entry(b, at) matches Ok((found, end)) && found.valid() && at + 48 <= end <= b.len(),
{
    reveal(entry);
    let n = le64(b, at + 40) as u64 as nat;
    let end = transactions(b, at + 48, n)->Ok_0;
    lemma_transactions_range(b, at + 48, n);
    law_transactions_stand_alone(b, at + 48, n, at + 48, end);
}

/// The transactions, `n` at most, that are scanned one after the other from `at` on.
pub open spec fn tx_list(b: Seq<u8>, at: int, n: nat) -> Seq<TxModel>
    decreases n,
{
    if n == 0 {
        Seq::empty()
    } else {
        match transaction(b, at) {
            Ok((tx, next)) => seq![tx] + tx_list(b, next, (n - 1) as nat),
            Err(_) => Seq::empty(),
        }
    }
}

/// The bytes of transactions, one after the other.
pub open spec fn txs_joined(txs: Seq<TxModel>) -> Seq<u8>
    decreases txs.len(),
{
    if txs.len() == 0 {
        Seq::empty()
    } else {
        txs[0].bytes + txs_joined(txs.drop_first())
    }
}

/// The entries, `n` at most, that are scanned one after the other from `at` on.
pub open spec fn entry_list(b: Seq<u8>, at: int, n: nat) -> Seq<EntryModel>
    decreases n,
{
    if n == 0 {
        Seq::empty()
    } else {
        match entry(b, at) {
            Ok((found, next)) => seq![found] + entry_list(b, next, (n - 1) as nat),
            Err(_) => Seq::empty(),
        }
    }
}

/// Where `n` entries, back to back, end.
pub open spec fn entries_end(b: Seq<u8>, at: int, n: nat) -> Result<int, ViewError>
    decreases n,
{
    if n == 0 {
        Ok(at)
    } else {
        match entry(b, at) {
            Ok((_, next)) => entries_end(b, next, (n - 1) as nat),
            Err(error) => Err(error),
        }
    }
}

/// The bytes of an entry.
pub open spec fn entry_bytes(found: EntryModel) -> Seq<u8> {
    le64_bytes(found.num_hashes) + found.hash + le64_bytes(found.num_transactions)
        + found.transactions
}

/// The bytes of entries, one after the other.
pub open spec fn entries_joined(found: Seq<EntryModel>) -> Seq<u8>
    decreases found.len(),
{
    if found.len() == 0 {
        Seq::empty()
    } else {
        entry_bytes(found[0]) + entries_joined(found.drop_first())
    }
}

impl EntryModel {
    /// The transactions of the entry.
    pub open spec fn txs(self) -> Seq<TxModel> {
        tx_list(self.transactions, 0, self.num_transactions as nat)
    }

    /// The transactions are as many as the entry says, back to back.
    pub open spec fn back_to_back(self) -> bool {
        &&& self.txs().len() == self.num_transactions
        &&& txs_joined(self.txs()) == self.transactions
    }
}

/// How many entries a segment says it has.
pub open spec fn entry_count(segment: Seq<u8>) -> nat {
    le64(segment, 0) as nat
}

/// Whether all entries of a segment can be scanned.
pub open spec fn scans(segment: Seq<u8>) -> bool {
    segment.len() >= 8 && entries_end(segment, 8, entry_count(segment)) is Ok
}

/// The entries of a segment.
pub open spec fn entries_of(segment: Seq<u8>) -> Seq<EntryModel> {
    entry_list(segment, 8, entry_count(segment))
}

/// Transactions that are scanned are back to back: nothing is skipped and nothing is
/// shared.
pub proof fn law_transactions_back_to_back(b: Seq<u8>, at: int, n: nat)
    requires
        0 <= at <= b.len(),
        transactions(b, at, n) is Ok,
    ensures
        tx_list(b, at, n).len() == n,
        transactions(b, at, n) matches Ok(end) && at <= end <= b.len() && txs_joined(
            tx_list(b, at, n),
        ) == b.subrange(at, end),
    decreases n,
{
    if n == 0 {
        assert(b.subrange(at, at) =~= Seq::empty());
    } else {
        let (tx, next) = transaction(b, at)->Ok_0;
        lemma_transaction_range(b, at);
        law_transaction_stands_alone(b, at, at, next);
        law_transactions_back_to_back(b, next, (n - 1) as nat);
        let rest = tx_list(b, next, (n - 1) as nat);
        let end = transactions(b, at, n)->Ok_0;
        let all = tx_list(b, at, n);
        assert(all.drop_first() =~= rest);
        assert(tx.bytes == b.subrange(at, next));
        assert(b.subrange(at, next) + b.subrange(next, end) =~= b.subrange(at, end));
    }
}

/// The parts of an entry, put together again.
proof fn lemma_entry_rejoined(b: Seq<u8>, at: int, end: int, head: Seq<u8>, count: Seq<u8>)
    requires
        0 <= at,
        at + 48 <= end <= b.len(),
        head == b.subrange(at, at + 8),
        count == b.subrange(at + 40, at + 48),
    ensures
        head + b.subrange(at + 8, at + 40) + count + b.subrange(at + 48, end) == b.subrange(
            at,
            end,
        ),
{
    assert(head + b.subrange(at + 8, at + 40) + count + b.subrange(at + 48, end) =~= b.subrange(
        at,
        end,
    ));
}

/// An entry that is scanned has the bytes that it was scanned from, and these hold its
/// transactions back to back.
#[verifier::spinoff_prover]
pub proof fn law_entry_back_to_back(b: Seq<u8>, at: int)
    requires
        0 <= at,
        entry(b, at) is Ok,
    ensures
        entry(b, at) matches Ok((found, end)) && at + 48 <= end <= b.len() && entry_bytes(found)
            == b.subrange(at, end) && found.back_to_back(),
{
    reveal(entry);
    law_entry_holds_its_transactions(b, at);
    let (found, end) = entry(b, at)->Ok_0;
    lemma_le64_spelled(b, at);
    lemma_le64_spelled(b, at + 40);
    lemma_entry_rejoined(
        b,
        at,
        end,
        le64_bytes(found.num_hashes),
        le64_bytes(found.num_transactions),
    );
    law_transactions_back_to_back(found.transactions, 0, found.num_transactions as nat);
    assert(found.transactions.subrange(0, found.transactions.len() as int)
        =~= found.transactions);
}

/// Entries that are scanned are back to back.
proof fn lemma_entries_back_to_back(b: Seq<u8>, at: int, n: nat)
    requires
        0 <= at <= b.len(),
        entries_end(b, at, n) is Ok,
    ensures
        entry_list(b, at, n).len() == n,
        entries_end(b, at, n) matches Ok(end) && at <= end <= b.len() && entries_joined(
            entry_list(b, at, n),
        ) == b.subrange(at, end),
        forall|i: int| 0 <= i < n ==> (#[trigger] entry_list(b, at, n)[i]).back_to_back(),
    decreases n,
{
    if n == 0 {
        assert(b.subrange(at, at) =~= Seq::empty());
    } else {
        let (found, next) = entry(b, at)->Ok_0;
        law_entry_back_to_back(b, at);
        lemma_entries_back_to_back(b, next, (n - 1) as nat);
        let rest = entry_list(b, next, (n - 1) as nat);
        let end = entries_end(b, at, n)->Ok_0;
        let all = entry_list(b, at, n);
        assert(all.drop_first() =~= rest);
        assert(b.subrange(at, next) + b.subrange(next, end) =~= b.subrange(at, end));
        assert forall|i: int| 0 <= i < n implies (#[trigger] all[i]).back_to_back() by {
            if i > 0 {
                assert(all[i] == rest[i - 1]);
            }
        }
    }
}

/// The entries of a segment, and the transactions of each of them, are back to back
/// and make up its front: there are as many as it says, nothing is skipped and nothing
/// is shared.
pub proof fn law_segment_back_to_back(segment: Seq<u8>)
    requires
        scans(segment),
    ensures
        entries_of(segment).len() == entry_count(segment),
        entries_end(segment, 8, entry_count(segment)) matches Ok(end) && 8 <= end <= segment.len()
            && le64_bytes(entry_count(segment) as u64) + entries_joined(entries_of(segment))
            == segment.take(end),
        forall|i: int|
            0 <= i < entries_of(segment).len() ==> (#[trigger] entries_of(
                segment,
            )[i]).back_to_back(),
{
    let n = entry_count(segment);
    lemma_le64_spelled(segment, 0);
    lemma_entries_back_to_back(segment, 8, n);
    let end = entries_end(segment, 8, n)->Ok_0;
    assert(segment.subrange(0, 8) + segment.subrange(8, end) =~= segment.take(end));
}

/// How far an iteration has come: where in the bytes, and how many items are left.
#[verifier::ext_equal]
pub struct ScanModel {
    pub bytes: Seq<u8>,
    pub offset: int,
    pub remaining: u64,
}

impl ScanModel {
    /// What is left is as many transactions as there are left to come.
    pub open spec fn holds_transactions(self) -> bool {
        transactions(self.bytes, self.offset, self.remaining as nat) == Ok::<int, ViewError>(
            self.bytes.len() as int,
        )
    }

    /// All entries that are left to come can be scanned.
    pub open spec fn holds_entries(self) -> bool {
        entries_end(self.bytes, self.offset, self.remaining as nat) is Ok
    }

    /// The transactions that are left to come.
    pub open spec fn txs(self) -> Seq<TxModel> {
        tx_list(self.bytes, self.offset, self.remaining as nat)
    }

    /// The entries that are left to come.
    pub open spec fn entries(self) -> Seq<EntryModel> {
        entry_list(self.bytes, self.offset, self.remaining as nat)
    }
}

/// A place in the bytes being scanned.
struct Cursor<'a> {
    bytes: &'a [u8],
    offset: usize,
}

impl<'a> Cursor<'a> {
    spec fn wf(&self) -> bool {
        self.offset <= self.bytes.len()
    }

    fn take(&mut self, n: usize) -> (taken: Result<&'a [u8], ViewError>)
        requires
            old(self).wf(),
        ensures
            final(self).wf(),
            final(self).bytes == old(self).bytes,
            match taken {
                Ok(slice) => {
                    &&& span(old(self).bytes@, old(self).offset as int, n as int) == Ok::<
                        int,
                        ViewError,
                    >(final(self).offset as int)
                    &&& slice@ == old(self).bytes@.subrange(
                        old(self).offset as int,
                        final(self).offset as int,
                    )
                },
                Err(error) => span(old(self).bytes@, old(self).offset as int, n as int) == Err::<
                    int,
                    ViewError,
                >(error),
            },
    {
        if n > self.bytes.len() - self.offset {
            return Err(ViewError::Truncated(self.offset));
        }
        let bytes: &'a [u8] = self.bytes;
        let taken: &'a [u8] = &bytes[self.offset..self.offset + n];
        self.offset = self.offset + n;
        Ok(taken)
    }

    fn u8(&mut self) -> (byte: Result<u8, ViewError>)
        requires
            old(self).wf(),
        ensures
            final(self).wf(),
            final(self).bytes == old(self).bytes,
            match byte {
                Ok(byte) => {
                    &&& old(self).offset < old(self).bytes@.len()
                    &&& final(self).offset == old(self).offset + 1
                    &&& byte == old(self).bytes@[old(self).offset as int]
                },
                Err(error) => {
                    &&& old(self).offset == old(self).bytes@.len()
                    &&& error == ViewError::Truncated(old(self).offset)
                },
            },
    {
        match self.take(1) {
            Ok(taken) => Ok(taken[0]),
            Err(error) => Err(error),
        }
    }

    fn u64(&mut self) -> (number: Result<u64, ViewError>)
        requires
            old(self).wf(),
        ensures
            final(self).wf(),
            final(self).bytes == old(self).bytes,
            match number {
                Ok(number) => {
                    &&& old(self).offset + 8 <= old(self).bytes@.len()
                    &&& final(self).offset == old(self).offset + 8
                    &&& number == le64(old(self).bytes@, old(self).offset as int)
                },
                Err(error) => {
                    &&& old(self).offset + 8 > old(self).bytes@.len()
                    &&& error == ViewError::Truncated(old(self).offset)
                },
            },
    {
        let at: usize = self.offset;
        match self.take(8) {
            Ok(_) => Ok(u64_at(self.bytes, at)),
            Err(error) => Err(error),
        }
    }

    /// Solana's compact-u16: 7 bits per byte, at most 3 bytes, and no more than it
    /// takes.
    fn shortvec_len(&mut self) -> (len: Result<usize, ViewError>)
        requires
            old(self).wf(),
        ensures
            final(self).wf(),
            final(self).bytes == old(self).bytes,
            match len {
                Ok(len) => {
                    &&& shortvec(old(self).bytes@, old(self).offset as int) == Ok::<
                        (int, int),
                        ViewError,
                    >((len as int, final(self).offset as int))
                    &&& len <= 0xffff
                },
                Err(error) => shortvec(old(self).bytes@, old(self).offset as int) == Err::<
                    (int, int),
                    ViewError,
                >(error),
            },
    {
        let at: usize = self.offset;
        let first: u8 = self.u8()?;
        if first < 0x80 {
            return Ok(first as usize);
        }
        let second: u8 = self.u8()?;
        let low: usize = first as usize - 0x80;
        if second == 0 {
            return Err(ViewError::BadShortVec(at));
        }
        if second < 0x80 {
            return Ok(low + 0x80 * second as usize);
        }
        let third: u8 = self.u8()?;
        if 0 < third && third <= 3 {
            return Ok(low + 0x80 * (second as usize - 0x80) + 0x4000 * third as usize);
        }
        Err(ViewError::BadShortVec(at))
    }

    /// Pass over a counted run of items of `width` bytes each.
    fn skip_items(&mut self, width: usize) -> (skipped: Result<(), ViewError>)
        requires
            old(self).wf(),
            width <= 64,
        ensures
            final(self).wf(),
            final(self).bytes == old(self).bytes,
            match skipped {
                Ok(_) => items(old(self).bytes@, old(self).offset as int, width as int) == Ok::<
                    int,
                    ViewError,
                >(final(self).offset as int),
                Err(error) => items(old(self).bytes@, old(self).offset as int, width as int)
                    == Err::<int, ViewError>(error),
            },
    {
        let n: usize = self.shortvec_len()?;
        assert(n * width <= 0x1_0000 * 64) by (nonlinear_arith)
            requires
                n <= 0xffff,
                width <= 64,
        ;
        self.take(n * width)?;
        Ok(())
    }

    /// Pass over an instruction.
    fn skip_instruction(&mut self) -> (skipped: Result<(), ViewError>)
        requires
            old(self).wf(),
        ensures
            final(self).wf(),
            final(self).bytes == old(self).bytes,
            match skipped {
                Ok(_) => instruction(old(self).bytes@, old(self).offset as int) == Ok::<
                    int,
                    ViewError,
                >(final(self).offset as int),
                Err(error) => instruction(old(self).bytes@, old(self).offset as int) == Err::<
                    int,
                    ViewError,
                >(error),
            },
    {
        self.u8()?;  // program id index
        self.skip_items(1)?;  // accounts
        self.skip_items(1)?;  // data
        Ok(())
    }

    /// Pass over `n` instructions.
    fn skip_instructions(&mut self, n: usize) -> (skipped: Result<(), ViewError>)
        requires
            old(self).wf(),
        ensures
            final(self).wf(),
            final(self).bytes == old(self).bytes,
            match skipped {
                Ok(_) => instructions(old(self).bytes@, old(self).offset as int, n as nat) == Ok::<
                    int,
                    ViewError,
                >(final(self).offset as int),
                Err(error) => instructions(old(self).bytes@, old(self).offset as int, n as nat)
                    == Err::<int, ViewError>(error),
            },
    {
        let mut left: usize = n;
        while left > 0
            invariant
                self.wf(),
                self.bytes == old(self).bytes,
                instructions(self.bytes@, self.offset as int, left as nat) == instructions(
                    old(self).bytes@,
                    old(self).offset as int,
                    n as nat,
                ),
            decreases left,
        {
            self.skip_instruction()?;
            left = left - 1;
        }
        Ok(())
    }

    /// Pass over an address table lookup.
    fn skip_lookup(&mut self) -> (skipped: Result<(), ViewError>)
        requires
            old(self).wf(),
        ensures
            final(self).wf(),
            final(self).bytes == old(self).bytes,
            match skipped {
                Ok(_) => lookup(old(self).bytes@, old(self).offset as int) == Ok::<int, ViewError>(
                    final(self).offset as int,
                ),
                Err(error) => lookup(old(self).bytes@, old(self).offset as int) == Err::<
                    int,
                    ViewError,
                >(error),
            },
    {
        self.take(32)?;  // table address
        self.skip_items(1)?;  // writable
        self.skip_items(1)?;  // readonly
        Ok(())
    }

    /// Pass over `n` address table lookups.
    fn skip_lookups(&mut self, n: usize) -> (skipped: Result<(), ViewError>)
        requires
            old(self).wf(),
        ensures
            final(self).wf(),
            final(self).bytes == old(self).bytes,
            match skipped {
                Ok(_) => lookups(old(self).bytes@, old(self).offset as int, n as nat) == Ok::<
                    int,
                    ViewError,
                >(final(self).offset as int),
                Err(error) => lookups(old(self).bytes@, old(self).offset as int, n as nat)
                    == Err::<int, ViewError>(error),
            },
    {
        let mut left: usize = n;
        while left > 0
            invariant
                self.wf(),
                self.bytes == old(self).bytes,
                lookups(self.bytes@, self.offset as int, left as nat) == lookups(
                    old(self).bytes@,
                    old(self).offset as int,
                    n as nat,
                ),
            decreases left,
        {
            self.skip_lookup()?;
            left = left - 1;
        }
        Ok(())
    }
}

/// One transaction, borrowed from the segment.
#[derive(Debug, Clone, Copy)]
pub struct TxView<'a> {
    bytes: &'a [u8],
    version: TxVersion,
    /// Where the signatures start (legacy/v0 after the count byte, v1 at the
    /// tail of the transaction).
    signatures_offset: usize,
    num_signatures: u8,
}

impl<'a> View for TxView<'a> {
    type V = TxModel;

    closed spec fn view(&self) -> TxModel {
        TxModel {
            bytes: self.bytes@,
            version: self.version,
            signatures_offset: self.signatures_offset as int,
            num_signatures: self.num_signatures,
        }
    }
}

/// Calls `slice::first_chunk`: the first `N` bytes as an array, or `None` where
/// there are fewer.
#[verifier::external_body]
fn first_chunk<const N: usize>(bytes: &[u8]) -> (chunk: Option<&[u8; N]>)
    ensures
        match chunk {
            Some(chunk) => N <= bytes@.len() && chunk@ == bytes@.take(N as int),
            None => bytes@.len() < N,
        },
{
    bytes.first_chunk::<N>()
}

impl<'a> TxView<'a> {
    /// The exact serialized transaction.
    pub fn bytes(&self) -> (bytes: &'a [u8])
        ensures
            bytes@ == self@.bytes,
    {
        self.bytes
    }

    pub fn version(&self) -> (version: TxVersion)
        ensures
            version == self@.version,
    {
        self.version
    }

    pub fn num_signatures(&self) -> (count: u8)
        ensures
            count == self@.num_signatures,
    {
        self.num_signatures
    }

    /// The transaction id: its first signature.
    pub fn signature(&self) -> (signature: &'a [u8; 64])
        requires
            0 <= self@.signatures_offset,
            self@.signatures_offset + 64 <= self@.bytes.len(),
        ensures
            signature@ == self@.bytes.subrange(
                self@.signatures_offset,
                self@.signatures_offset + 64,
            ),
    {
        let bytes: &'a [u8] = self.bytes;
        let rest: &'a [u8] = &bytes[self.signatures_offset..bytes.len()];
        let signature: &'a [u8; 64] = first_chunk::<64>(rest).unwrap();
        assert(signature@ =~= self@.bytes.subrange(
            self@.signatures_offset,
            self@.signatures_offset + 64,
        ));
        signature
    }
}

/// Scan a message that starts with its version, if it has one.
fn scan_message<'a>(cursor: &mut Cursor<'a>) -> (scanned: Result<TxVersion, ViewError>)
    requires
        old(cursor).wf(),
    ensures
        final(cursor).wf(),
        final(cursor).bytes == old(cursor).bytes,
        match scanned {
            Ok(version) => versioned_message(old(cursor).bytes@, old(cursor).offset as int)
                == Ok::<(TxVersion, int), ViewError>((version, final(cursor).offset as int)),
            Err(error) => versioned_message(old(cursor).bytes@, old(cursor).offset as int)
                == Err::<(TxVersion, int), ViewError>(error),
        },
{
    reveal(versioned_message);
    if cursor.offset >= cursor.bytes.len() {
        return Err(ViewError::Truncated(cursor.offset));
    }
    let first: u8 = cursor.bytes[cursor.offset];
    let version: TxVersion = if first < 0x80 {
        TxVersion::Legacy
    } else if first == 0x80 {
        cursor.u8()?;
        TxVersion::V0
    } else {
        return Err(ViewError::UnknownVersion(first));
    };
    cursor.take(3)?;  // header
    cursor.skip_items(32)?;  // keys
    cursor.take(32)?;  // blockhash
    let num_instructions: usize = cursor.shortvec_len()?;
    cursor.skip_instructions(num_instructions)?;
    if version == TxVersion::V0 {
        let num_lookups: usize = cursor.shortvec_len()?;
        cursor.skip_lookups(num_lookups)?;
    }
    Ok(version)
}

fn scan_legacy_or_v0<'a>(cursor: &mut Cursor<'a>) -> (scanned: Result<TxView<'a>, ViewError>)
    requires
        old(cursor).wf(),
        old(cursor).offset < old(cursor).bytes@.len(),
        old(cursor).bytes@[old(cursor).offset as int] < 128,
    ensures
        final(cursor).wf(),
        final(cursor).bytes == old(cursor).bytes,
        match scanned {
            Ok(tx) => legacy_or_v0(old(cursor).bytes@, old(cursor).offset as int) == Ok::<
                (TxModel, int),
                ViewError,
            >((tx@, final(cursor).offset as int)),
            Err(error) => legacy_or_v0(old(cursor).bytes@, old(cursor).offset as int) == Err::<
                (TxModel, int),
                ViewError,
            >(error),
        },
{
    let start: usize = cursor.offset;
    let num_signatures: usize = cursor.shortvec_len()?;
    let signatures: usize = cursor.offset;
    cursor.take(num_signatures * 64)?;
    let ghost body = cursor.offset as int;
    let version: TxVersion = scan_message(cursor)?;
    proof {
        lemma_versioned_message_range(cursor.bytes@, body);
    }
    let bytes: &'a [u8] = cursor.bytes;
    Ok(
        TxView {
            bytes: &bytes[start..cursor.offset],
            version,
            signatures_offset: signatures - start,
            num_signatures: num_signatures as u8,
        },
    )
}

/// How long the accounts and data are that v1 instruction headers announce.
fn announced_payloads(headers: &[u8]) -> (len: usize)
    requires
        headers@.len() % 4 == 0,
        headers@.len() <= 4 * 255,
    ensures
        len == payloads_len(headers@, (headers@.len() / 4) as nat),
        len <= 255 * 0x1_0100,
{
    let n: usize = headers.len() / 4;
    let mut len: usize = 0;
    let mut i: usize = 0;
    while i < n
        invariant
            i <= n <= 255,
            n == headers@.len() / 4,
            headers@.len() % 4 == 0,
            len == payloads_len(headers@, i as nat),
            len <= i * 0x1_0100,
        decreases n - i,
    {
        len = len + headers[4 * i + 1] as usize + u16_at(headers, 4 * i + 2) as usize;
        i = i + 1;
    }
    len
}

/// Fixed-width counts, inline config, signatures at the tail without a length
/// prefix.
fn scan_v1<'a>(cursor: &mut Cursor<'a>) -> (scanned: Result<TxView<'a>, ViewError>)
    requires
        old(cursor).wf(),
        old(cursor).offset < old(cursor).bytes@.len(),
    ensures
        final(cursor).wf(),
        final(cursor).bytes == old(cursor).bytes,
        match scanned {
            Ok(tx) => v1(old(cursor).bytes@, old(cursor).offset as int) == Ok::<
                (TxModel, int),
                ViewError,
            >((tx@, final(cursor).offset as int)),
            Err(error) => v1(old(cursor).bytes@, old(cursor).offset as int) == Err::<
                (TxModel, int),
                ViewError,
            >(error),
        },
{
    let start: usize = cursor.offset;
    cursor.u8()?;  // 0x81
    let num_signatures: u8 = cursor.u8()?;  // number of required signatures
    cursor.take(2)?;  // rest of the header
    let mask_at: usize = cursor.offset;
    cursor.take(4)?;
    let mask: u32 = u32_at(cursor.bytes, mask_at);
    if mask >= 32 || mask % 4 == 1 || mask % 4 == 2 {
        // Unknown bits would not survive re-serialization, and the priority fee
        // occupies both of its bits or none.
        return Err(ViewError::BadConfigMask);
    }
    cursor.take(32)?;  // lifetime specifier
    let num_instructions: usize = cursor.u8()? as usize;
    let num_keys: usize = cursor.u8()? as usize;
    cursor.take(num_keys * 32)?;
    let fee: u32 = if mask % 4 != 0 {
        8
    } else {
        0
    };
    let config_len: u32 = fee + 4 * (mask / 4 % 2) + 4 * (mask / 8 % 2) + 4 * (mask / 16 % 2);
    cursor.take(config_len as usize)?;
    let headers: &[u8] = cursor.take(num_instructions * 4)?;
    let payloads: usize = announced_payloads(headers);
    cursor.take(payloads)?;
    let signatures: usize = cursor.offset;
    cursor.take(num_signatures as usize * 64)?;
    let bytes: &'a [u8] = cursor.bytes;
    Ok(
        TxView {
            bytes: &bytes[start..cursor.offset],
            version: TxVersion::V1,
            signatures_offset: signatures - start,
            num_signatures,
        },
    )
}

fn scan_transaction<'a>(cursor: &mut Cursor<'a>) -> (scanned: Result<TxView<'a>, ViewError>)
    requires
        old(cursor).wf(),
    ensures
        final(cursor).wf(),
        final(cursor).bytes == old(cursor).bytes,
        match scanned {
            Ok(tx) => transaction(old(cursor).bytes@, old(cursor).offset as int) == Ok::<
                (TxModel, int),
                ViewError,
            >((tx@, final(cursor).offset as int)),
            Err(error) => transaction(old(cursor).bytes@, old(cursor).offset as int) == Err::<
                (TxModel, int),
                ViewError,
            >(error),
        },
{
    reveal(transaction);
    let start: usize = cursor.offset;
    if start >= cursor.bytes.len() {
        return Err(ViewError::Truncated(start));
    }
    let first: u8 = cursor.bytes[start];
    if first < 0x80 {
        scan_legacy_or_v0(cursor)
    } else if first == 0x81 {
        scan_v1(cursor)
    } else {
        Err(ViewError::UnknownVersion(first))
    }
}

/// One entry, transactions still serialized.
#[derive(Debug, Clone, Copy)]
pub struct EntryView<'a> {
    pub num_hashes: u64,
    pub hash: &'a [u8; 32],
    num_transactions: u64,
    /// The entry's transactions, back to back.
    transactions: &'a [u8],
}

impl<'a> View for EntryView<'a> {
    type V = EntryModel;

    closed spec fn view(&self) -> EntryModel {
        EntryModel {
            num_hashes: self.num_hashes,
            hash: self.hash@,
            num_transactions: self.num_transactions,
            transactions: self.transactions@,
        }
    }
}

impl<'a> EntryView<'a> {
    pub fn num_transactions(&self) -> (count: u64)
        ensures
            count == self@.num_transactions,
    {
        self.num_transactions
    }

    /// Iterate the transactions of the entry.
    pub fn transactions(&self) -> (iter: TxIter<'a>)
        ensures
            iter.wf(),
            iter@ == (ScanModel {
                bytes: self@.transactions,
                offset: 0,
                remaining: self@.num_transactions,
            }),
    {
        TxIter {
            cursor: Cursor { bytes: self.transactions, offset: 0 },
            remaining: self.num_transactions,
        }
    }
}

/// The transactions of an entry, one after the other.
pub struct TxIter<'a> {
    cursor: Cursor<'a>,
    remaining: u64,
}

impl<'a> View for TxIter<'a> {
    type V = ScanModel;

    closed spec fn view(&self) -> ScanModel {
        ScanModel {
            bytes: self.cursor.bytes@,
            offset: self.cursor.offset as int,
            remaining: self.remaining,
        }
    }
}

impl<'a> TxIter<'a> {
    /// The iteration is at a place within the bytes.
    pub closed spec fn wf(&self) -> bool {
        self.cursor.wf()
    }

    /// The next transaction. An error ends the iteration. The transactions of an
    /// entry that was scanned come without errors.
    pub fn next(&mut self) -> (item: Option<Result<TxView<'a>, ViewError>>)
        requires
            old(self).wf(),
        ensures
            final(self).wf(),
            final(self)@.bytes == old(self)@.bytes,
            0 <= old(self)@.offset <= old(self)@.bytes.len(),
            0 <= final(self)@.offset <= final(self)@.bytes.len(),
            match item {
                None => old(self)@.remaining == 0 && final(self)@ == old(self)@,
                Some(Ok(tx)) => {
                    &&& tx@.signatures_within()
                    &&& old(self)@.txs() == seq![tx@] + final(self)@.txs()
                    &&& old(self)@.remaining > 0
                    &&& final(self)@.remaining == old(self)@.remaining - 1
                    &&& transaction(old(self)@.bytes, old(self)@.offset) == Ok::<
                        (TxModel, int),
                        ViewError,
                    >((tx@, final(self)@.offset))
                },
                Some(Err(error)) => {
                    &&& old(self)@.remaining > 0
                    &&& final(self)@.remaining == 0
                    &&& transaction(old(self)@.bytes, old(self)@.offset) == Err::<
                        (TxModel, int),
                        ViewError,
                    >(error)
                },
            },
            old(self)@.holds_transactions() ==> final(self)@.holds_transactions() && !(
            item matches Some(Err(_))),
    {
        if self.remaining == 0 {
            return None;
        }
        self.remaining = self.remaining - 1;
        let ghost at = self.cursor.offset as int;
        match scan_transaction(&mut self.cursor) {
            Ok(tx) => {
                proof {
                    law_transaction_stands_alone(
                        self.cursor.bytes@,
                        at,
                        at,
                        self.cursor.bytes@.len() as int,
                    );
                }
                Some(Ok(tx))
            },
            Err(error) => {
                self.remaining = 0;
                Some(Err(error))
            },
        }
    }
}

/// Iterate a segment without allocating. The scan is done lazily; an error
/// mid-segment ends the iteration with that error.
pub fn entries(segment: &[u8]) -> (iter: Result<EntryIter<'_>, ViewError>)
    ensures
        match iter {
            Ok(iter) => {
                &&& segment@.len() >= 8
                &&& iter.wf()
                &&& iter@ == (ScanModel {
                    bytes: segment@,
                    offset: 8,
                    remaining: le64(segment@, 0) as u64,
                })
                &&& iter@.holds_entries() == scans(segment@)
                &&& iter@.entries() == entries_of(segment@)
            },
            Err(error) => segment@.len() < 8 && error == ViewError::Truncated(0),
        },
{
    let mut cursor = Cursor { bytes: segment, offset: 0 };
    let remaining: u64 = cursor.u64()?;
    Ok(EntryIter { cursor, remaining })
}

/// The entries of a segment, one after the other.
pub struct EntryIter<'a> {
    cursor: Cursor<'a>,
    remaining: u64,
}

impl<'a> View for EntryIter<'a> {
    type V = ScanModel;

    closed spec fn view(&self) -> ScanModel {
        ScanModel {
            bytes: self.cursor.bytes@,
            offset: self.cursor.offset as int,
            remaining: self.remaining,
        }
    }
}

impl<'a> EntryIter<'a> {
    /// The iteration is at a place within the bytes.
    pub closed spec fn wf(&self) -> bool {
        self.cursor.wf()
    }

    /// The next entry. An error ends the iteration.
    pub fn next(&mut self) -> (item: Option<Result<EntryView<'a>, ViewError>>)
        requires
            old(self).wf(),
        ensures
            final(self).wf(),
            final(self)@.bytes == old(self)@.bytes,
            0 <= old(self)@.offset <= old(self)@.bytes.len(),
            0 <= final(self)@.offset <= final(self)@.bytes.len(),
            match item {
                None => old(self)@.remaining == 0 && final(self)@ == old(self)@,
                Some(Ok(found)) => {
                    &&& old(self)@.entries() == seq![found@] + final(self)@.entries()
                    &&& old(self)@.remaining > 0
                    &&& final(self)@.remaining == old(self)@.remaining - 1
                    &&& entry(old(self)@.bytes, old(self)@.offset) == Ok::<
                        (EntryModel, int),
                        ViewError,
                    >((found@, final(self)@.offset))
                    &&& found@.valid()
                },
                Some(Err(error)) => {
                    &&& old(self)@.remaining > 0
                    &&& final(self)@.remaining == 0
                    &&& entry(old(self)@.bytes, old(self)@.offset) == Err::<
                        (EntryModel, int),
                        ViewError,
                    >(error)
                },
            },
            old(self)@.holds_entries() ==> final(self)@.holds_entries() && !(
            item matches Some(Err(_))),
    {
        if self.remaining == 0 {
            return None;
        }
        self.remaining = self.remaining - 1;
        let ghost at = self.cursor.offset as int;
        match scan_entry(&mut self.cursor) {
            Ok(found) => {
                proof {
                    law_entry_holds_its_transactions(self.cursor.bytes@, at);
                }
                Some(Ok(found))
            },
            Err(error) => {
                self.remaining = 0;
                Some(Err(error))
            },
        }
    }
}

fn scan_entry<'a>(cursor: &mut Cursor<'a>) -> (scanned: Result<EntryView<'a>, ViewError>)
    requires
        old(cursor).wf(),
    ensures
        final(cursor).wf(),
        final(cursor).bytes == old(cursor).bytes,
        match scanned {
            Ok(found) => entry(old(cursor).bytes@, old(cursor).offset as int) == Ok::<
                (EntryModel, int),
                ViewError,
            >((found@, final(cursor).offset as int)),
            Err(error) => entry(old(cursor).bytes@, old(cursor).offset as int) == Err::<
                (EntryModel, int),
                ViewError,
            >(error),
        },
{
    reveal(entry);
    let bytes: &'a [u8] = cursor.bytes;
    let num_hashes: u64 = cursor.u64()?;
    let hash_bytes: &'a [u8] = cursor.take(32)?;
    let hash: &'a [u8; 32] = first_chunk::<32>(hash_bytes).unwrap();
    assert(hash@ =~= hash_bytes@);
    let num_transactions: u64 = cursor.u64()?;
    let start: usize = cursor.offset;
    let mut left: u64 = num_transactions;
    while left > 0
        invariant
            cursor.wf(),
            cursor.bytes == bytes,
            bytes == old(cursor).bytes,
            start <= cursor.offset,
            start == old(cursor).offset + 48,
            start <= bytes@.len(),
            num_transactions == le64(bytes@, old(cursor).offset + 40),
            transactions(bytes@, cursor.offset as int, left as nat) == transactions(
                bytes@,
                start as int,
                num_transactions as nat,
            ),
        decreases left,
    {
        proof {
            reveal(entry);
            lemma_transaction_range(bytes@, cursor.offset as int);
        }
        scan_transaction(cursor)?;
        left = left - 1;
    }
    Ok(
        EntryView {
            num_hashes,
            hash,
            num_transactions,
            transactions: &bytes[start..cursor.offset],
        },
    )
}

} // verus!

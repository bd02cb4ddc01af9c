//! Transactions by their parts: what is laid out one part after the other is what the
//! scanner of [`crate::view`] finds, and it accepts nothing else.

use crate::le::{
    le16, le16_bytes, le32, le32_bytes, le64, le64_bytes, lemma_le16_round_trip,
    lemma_le16_spelled, lemma_le32_round_trip, lemma_le32_spelled, lemma_le64_round_trip,
    lemma_le64_spelled, lemma_le_same_bytes,
};
use crate::view::{
    bad_mask, config_len, entries_end, entries_of, entry, entry_count, entry_list, instruction,
    instructions, items, legacy_or_v0, lemma_instructions_range, lemma_items_range,
    lemma_lookups_range, lemma_message_range, lemma_payloads_len, lookup, lookups, message,
    payloads_len, scans, shortvec, span, transaction, transactions, tx_list, v1, versioned_message,
    EntryModel, TxModel, TxVersion, ViewError,
};
use vstd::prelude::*;

verus! {

/// Whether `x` stands in `b` at `at`.
pub open spec fn stands(b: Seq<u8>, at: int, x: Seq<u8>) -> bool {
    &&& 0 <= at
    &&& at + x.len() <= b.len()
    &&& b.subrange(at, at + x.len()) == x
}

/// Where two parts stand one after the other, each stands in its place.
proof fn lemma_stand_apart(b: Seq<u8>, at: int, x: Seq<u8>, y: Seq<u8>)
    ensures
        stands(b, at, x + y) <==> stands(b, at, x) && stands(b, at + x.len(), y),
{
    let all = x + y;
    if stands(b, at, all) {
        assert forall|i: int| 0 <= i < all.len() implies b[at + i] == all[i] by {
            assert(b.subrange(at, at + all.len())[i] == all[i]);
        }
        assert forall|i: int| 0 <= i < x.len() implies #[trigger] b.subrange(
            at,
            at + x.len(),
        )[i] == x[i] by {
            assert(b[at + i] == all[i]);
        }
        assert(b.subrange(at, at + x.len()) =~= x);
        assert forall|i: int| 0 <= i < y.len() implies #[trigger] b.subrange(
            at + x.len(),
            at + x.len() + y.len(),
        )[i] == y[i] by {
            assert(b[at + (x.len() + i)] == all[x.len() + i]);
        }
        assert(b.subrange(at + x.len(), at + x.len() + y.len()) =~= y);
    }
    if stands(b, at, x) && stands(b, at + x.len(), y) {
        assert forall|i: int| 0 <= i < all.len() implies b[at + i] == all[i] by {
            if i < x.len() {
                assert(b.subrange(at, at + x.len())[i] == x[i]);
            } else {
                assert(b.subrange(at + x.len(), at + x.len() + y.len())[i - x.len()] == y[i
                    - x.len()]);
            }
        }
        assert(b.subrange(at, at + all.len()) =~= all);
    }
}

/// A byte that stands in its place.
proof fn lemma_byte_stands(b: Seq<u8>, at: int, x: u8)
    ensures
        stands(b, at, seq![x]) <==> 0 <= at < b.len() && b[at] == x,
{
    if 0 <= at < b.len() {
        assert(b.subrange(at, at + 1)[0] == b[at]);
        if b[at] == x {
            assert(b.subrange(at, at + 1) =~= seq![x]);
        }
    }
}

/// A length in compact form: seven bits at a time from the lowest on, with the top bit
/// set where more follow.
pub open spec fn compact(n: nat) -> Seq<u8>
    decreases n,
{
    if n < 0x80 {
        seq![n as u8]
    } else {
        seq![(0x80 + n % 0x80) as u8] + compact(n / 0x80)
    }
}

/// The three sizes of a length.
proof fn lemma_compact_sizes(n: nat)
    requires
        n <= 0xffff,
    ensures
        n < 0x80 ==> compact(n) == seq![n as u8],
        0x80 <= n < 0x4000 ==> compact(n) == seq![(0x80 + n % 0x80) as u8, (n / 0x80) as u8],
        0x4000 <= n ==> compact(n) == seq![
            (0x80 + n % 0x80) as u8,
            (0x80 + n / 0x80 % 0x80) as u8,
            (n / 0x4000) as u8,
        ],
        n < 0x80 ==> compact(n).len() == 1,
        compact(n).len() >= 1,
{
    reveal_with_fuel(compact, 3);
    if 0x80 <= n < 0x4000 {
        assert(compact(n) =~= seq![(0x80 + n % 0x80) as u8, (n / 0x80) as u8]);
    } else if 0x4000 <= n {
        assert(n / 0x80 / 0x80 == n / 0x4000);
        assert(compact(n) =~= seq![
            (0x80 + n % 0x80) as u8,
            (0x80 + n / 0x80 % 0x80) as u8,
            (n / 0x4000) as u8,
        ]);
    }
}

/// A length reads back from its compact form, up to the largest `u16`, and is read from
/// nothing else: not from a form with more bytes than it takes, nor from that of a larger
/// number.
pub proof fn law_lengths(b: Seq<u8>, at: int, n: nat)
    requires
        0 <= at <= b.len(),
    ensures
        n <= 0xffff && stands(b, at, compact(n)) ==> shortvec(b, at) == Ok::<(int, int), ViewError>(
            (n as int, at + compact(n).len()),
        ),
        shortvec(b, at) matches Ok((m, end)) ==> 0 <= m <= 0xffff && stands(
            b,
            at,
            compact(m as nat),
        ) && end == at + compact(m as nat).len(),
{
    if n <= 0xffff && stands(b, at, compact(n)) {
        lemma_compact_sizes(n);
        let form = compact(n);
        assert forall|i: int| 0 <= i < form.len() implies b[at + i] == form[i] by {
            assert(b.subrange(at, at + form.len())[i] == form[i]);
        }
        assert(b[at] == form[0]);
        if n >= 0x80 {
            assert(b[at + 1] == form[1]);
            if n >= 0x4000 {
                assert(b[at + 2] == form[2]);
            }
        }
    }
    if let Ok((m, end)) = shortvec(b, at) {
        lemma_compact_sizes(m as nat);
        if end == at + 1 {
            assert(b.subrange(at, end) =~= compact(m as nat));
        } else if end == at + 2 {
            assert(m % 0x80 == b[at] - 128 && m / 0x80 == b[at + 1]);
            assert(b.subrange(at, end) =~= compact(m as nat));
        } else {
            assert(m % 0x80 == b[at] - 128);
            assert(m / 0x80 % 0x80 == b[at + 1] - 128);
            assert(m / 0x4000 == b[at + 2]);
            assert(b.subrange(at, end) =~= compact(m as nat));
        }
    }
}

/// Bytes with their number in front.
pub open spec fn counted(x: Seq<u8>) -> Seq<u8> {
    compact(x.len()) + x
}

/// A counted run of items ends where its last item does, and is one that was counted.
proof fn lemma_items(b: Seq<u8>, at: int, n: nat, width: nat, x: Seq<u8>)
    requires
        n <= 0xffff,
        x.len() == n * width,
        stands(b, at, compact(n) + x),
    ensures
        items(b, at, width as int) == Ok::<int, ViewError>(at + compact(n).len() + x.len()),
{
    lemma_stand_apart(b, at, compact(n), x);
    law_lengths(b, at, n);
}

/// An instruction of a legacy or v0 message.
pub struct InstructionParts {
    pub program: u8,
    pub accounts: Seq<u8>,
    pub data: Seq<u8>,
}

impl InstructionParts {
    pub open spec fn bytes(self) -> Seq<u8> {
        seq![self.program] + (counted(self.accounts) + counted(self.data))
    }

    pub open spec fn sized(self) -> bool {
        self.accounts.len() <= 0xffff && self.data.len() <= 0xffff
    }
}

/// Instructions, one after the other.
pub open spec fn instructions_bytes(list: Seq<InstructionParts>) -> Seq<u8>
    decreases list.len(),
{
    if list.len() == 0 {
        Seq::empty()
    } else {
        list[0].bytes() + instructions_bytes(list.drop_first())
    }
}

pub open spec fn instructions_sized(list: Seq<InstructionParts>) -> bool {
    list.len() <= 0xffff && forall|i: int| 0 <= i < list.len() ==> (#[trigger] list[i]).sized()
}

/// An address table lookup of a v0 message.
pub struct LookupParts {
    pub table: Seq<u8>,
    pub writable: Seq<u8>,
    pub readonly: Seq<u8>,
}

impl LookupParts {
    pub open spec fn bytes(self) -> Seq<u8> {
        self.table + (counted(self.writable) + counted(self.readonly))
    }

    pub open spec fn sized(self) -> bool {
        self.table.len() == 32 && self.writable.len() <= 0xffff && self.readonly.len() <= 0xffff
    }
}

/// Lookups, one after the other.
pub open spec fn lookups_bytes(list: Seq<LookupParts>) -> Seq<u8>
    decreases list.len(),
{
    if list.len() == 0 {
        Seq::empty()
    } else {
        list[0].bytes() + lookups_bytes(list.drop_first())
    }
}

pub open spec fn lookups_sized(list: Seq<LookupParts>) -> bool {
    list.len() <= 0xffff && forall|i: int| 0 <= i < list.len() ==> (#[trigger] list[i]).sized()
}

/// Two counted lists behind something of a fixed size end where they end.
proof fn lemma_two_lists(b: Seq<u8>, at: int, first: Seq<u8>, x: Seq<u8>, y: Seq<u8>)
    requires
        x.len() <= 0xffff,
        y.len() <= 0xffff,
        stands(b, at, first + (counted(x) + counted(y))),
    ensures
        span(b, at, first.len() as int) == Ok::<int, ViewError>(at + first.len()),
        items(b, at + first.len(), 1) == Ok::<int, ViewError>(at + first.len() + counted(x).len()),
        items(b, at + first.len() + counted(x).len(), 1) == Ok::<int, ViewError>(
            at + first.len() + counted(x).len() + counted(y).len(),
        ),
{
    lemma_stand_apart(b, at, first, counted(x) + counted(y));
    lemma_stand_apart(b, at + first.len(), counted(x), counted(y));
    lemma_items(b, at + first.len(), x.len(), 1, x);
    lemma_items(b, at + first.len() + counted(x).len(), y.len(), 1, y);
}

/// Instructions that stand somewhere end where the last of them does.
proof fn lemma_instructions(b: Seq<u8>, at: int, list: Seq<InstructionParts>)
    requires
        instructions_sized(list),
        stands(b, at, instructions_bytes(list)),
    ensures
        instructions(b, at, list.len()) == Ok::<int, ViewError>(
            at + instructions_bytes(list).len(),
        ),
    decreases list.len(),
{
    if list.len() > 0 {
        let one = list[0];
        let rest = list.drop_first();
        assert(one.sized());
        assert forall|i: int| 0 <= i < rest.len() implies (#[trigger] rest[i]).sized() by {
            assert(rest[i] == list[i + 1]);
        }
        lemma_stand_apart(b, at, one.bytes(), instructions_bytes(rest));
        lemma_two_lists(b, at, seq![one.program], one.accounts, one.data);
        lemma_instructions(b, at + one.bytes().len(), rest);
    }
}

/// Lookups that stand somewhere end where the last of them does.
proof fn lemma_lookups(b: Seq<u8>, at: int, list: Seq<LookupParts>)
    requires
        lookups_sized(list),
        stands(b, at, lookups_bytes(list)),
    ensures
        lookups(b, at, list.len()) == Ok::<int, ViewError>(at + lookups_bytes(list).len()),
    decreases list.len(),
{
    if list.len() > 0 {
        let one = list[0];
        let rest = list.drop_first();
        assert(one.sized());
        assert forall|i: int| 0 <= i < rest.len() implies (#[trigger] rest[i]).sized() by {
            assert(rest[i] == list[i + 1]);
        }
        lemma_stand_apart(b, at, one.bytes(), lookups_bytes(rest));
        lemma_two_lists(b, at, one.table, one.writable, one.readonly);
        lemma_lookups(b, at + one.bytes().len(), rest);
    }
}

/// What legacy and v0 messages have in common.
pub struct MessageParts {
    pub header: Seq<u8>,
    pub num_keys: nat,
    pub keys: Seq<u8>,
    pub blockhash: Seq<u8>,
    pub instructions: Seq<InstructionParts>,
}

impl MessageParts {
    pub open spec fn bytes(self) -> Seq<u8> {
        self.header + ((compact(self.num_keys) + self.keys) + (self.blockhash + (compact(
            self.instructions.len(),
        ) + instructions_bytes(self.instructions))))
    }

    pub open spec fn sized(self) -> bool {
        &&& self.header.len() == 3
        &&& self.num_keys <= 0xffff
        &&& self.keys.len() == self.num_keys * 32
        &&& self.blockhash.len() == 32
        &&& instructions_sized(self.instructions)
    }
}

/// A message that stands somewhere ends where its last instruction does.
proof fn lemma_message(b: Seq<u8>, at: int, m: MessageParts)
    requires
        m.sized(),
        stands(b, at, m.bytes()),
    ensures
        message(b, at) == Ok::<int, ViewError>(at + m.bytes().len()),
{
    let keys = compact(m.num_keys) + m.keys;
    let counted_ix = compact(m.instructions.len()) + instructions_bytes(m.instructions);
    lemma_stand_apart(b, at, m.header, keys + (m.blockhash + counted_ix));
    lemma_stand_apart(b, at + 3, keys, m.blockhash + counted_ix);
    let after_keys = at + 3 + keys.len();
    lemma_stand_apart(b, after_keys, m.blockhash, counted_ix);
    lemma_stand_apart(
        b,
        after_keys + 32,
        compact(m.instructions.len()),
        instructions_bytes(m.instructions),
    );
    lemma_items(b, at + 3, m.num_keys, 32, m.keys);
    law_lengths(b, after_keys + 32, m.instructions.len());
    lemma_instructions(
        b,
        after_keys + 32 + compact(m.instructions.len()).len(),
        m.instructions,
    );
}

/// Equal parts, one after the other.
pub open spec fn joined(parts: Seq<Seq<u8>>) -> Seq<u8>
    decreases parts.len(),
{
    if parts.len() == 0 {
        Seq::empty()
    } else {
        joined(parts.drop_last()) + parts.last()
    }
}

pub open spec fn signatures_sized(signatures: Seq<Seq<u8>>) -> bool {
    forall|s: int| 0 <= s < signatures.len() ==> (#[trigger] signatures[s]).len() == 64
}

/// Where each of the signatures is.
proof fn lemma_signatures(signatures: Seq<Seq<u8>>)
    requires
        signatures_sized(signatures),
    ensures
        joined(signatures).len() == 64 * signatures.len(),
        forall|s: int|
            0 <= s < signatures.len() ==> #[trigger] signatures[s] == joined(signatures).subrange(
                64 * s,
                64 * s + 64,
            ),
    decreases signatures.len(),
{
    if signatures.len() > 0 {
        let front = signatures.drop_last();
        assert forall|s: int| 0 <= s < front.len() implies (#[trigger] front[s]).len() == 64 by {
            assert(front[s] == signatures[s]);
        }
        lemma_signatures(front);
        let all = joined(signatures);
        assert forall|s: int| 0 <= s < signatures.len() implies #[trigger] signatures[s]
            == all.subrange(64 * s, 64 * s + 64) by {
            if s < front.len() {
                assert(front[s] == signatures[s]);
                assert(joined(front).subrange(64 * s, 64 * s + 64) =~= all.subrange(
                    64 * s,
                    64 * s + 64,
                ));
            } else {
                assert(signatures[s] =~= all.subrange(64 * s, 64 * s + 64));
            }
        }
    }
}

/// An instruction of a v1 message.
pub open spec fn v1_header(one: InstructionParts) -> Seq<u8> {
    seq![one.program, one.accounts.len() as u8] + le16_bytes(one.data.len() as u16)
}

/// The headers of v1 instructions, one after the other.
pub open spec fn v1_headers(list: Seq<InstructionParts>) -> Seq<u8>
    decreases list.len(),
{
    if list.len() == 0 {
        Seq::empty()
    } else {
        v1_headers(list.drop_last()) + v1_header(list.last())
    }
}

/// The accounts and data of v1 instructions, one after the other.
pub open spec fn v1_payloads(list: Seq<InstructionParts>) -> Seq<u8>
    decreases list.len(),
{
    if list.len() == 0 {
        Seq::empty()
    } else {
        v1_payloads(list.drop_last()) + (list.last().accounts + list.last().data)
    }
}

pub open spec fn v1_sized(list: Seq<InstructionParts>) -> bool {
    &&& list.len() <= 0xff
    &&& forall|i: int|
        0 <= i < list.len() ==> (#[trigger] list[i]).accounts.len() <= 0xff && list[i].data.len()
            <= 0xffff
}

/// Four bytes of a number, where there is one.
pub open spec fn optional(x: Option<u32>) -> Seq<u8> {
    match x {
        Some(x) => le32_bytes(x),
        None => Seq::empty(),
    }
}

/// A bit of the mask for a value that may be there.
pub open spec fn bit(there: bool, value: u32) -> u32 {
    if there {
        value
    } else {
        0
    }
}

/// What a v1 transaction is made of, but for its signatures.
pub struct V1Parts {
    pub rest_of_header: Seq<u8>,
    pub priority_fee: Option<u64>,
    pub compute_unit_limit: Option<u32>,
    pub loaded_accounts_limit: Option<u32>,
    pub heap_size: Option<u32>,
    pub lifetime: Seq<u8>,
    pub num_keys: nat,
    pub keys: Seq<u8>,
    pub instructions: Seq<InstructionParts>,
}

impl V1Parts {
    /// Two bits for the priority fee, one for each of the other values.
    pub open spec fn mask(self) -> u32 {
        (bit(self.priority_fee is Some, 3) + bit(self.compute_unit_limit is Some, 4) + bit(
            self.loaded_accounts_limit is Some,
            8,
        ) + bit(self.heap_size is Some, 16)) as u32
    }

    /// The values that are there, in this order.
    pub open spec fn config(self) -> Seq<u8> {
        (match self.priority_fee {
            Some(fee) => le64_bytes(fee),
            None => Seq::empty(),
        }) + optional(self.compute_unit_limit) + optional(self.loaded_accounts_limit) + optional(
            self.heap_size,
        )
    }

    /// Everything in front of the signatures.
    pub open spec fn bytes(self, num_signatures: u8) -> Seq<u8> {
        self.front(num_signatures) + (self.keys + (self.config() + (v1_headers(self.instructions)
            + v1_payloads(self.instructions))))
    }

    /// The part of fixed size.
    pub open spec fn front(self, num_signatures: u8) -> Seq<u8> {
        seq![0x81u8, num_signatures] + self.rest_of_header + le32_bytes(self.mask()) + self.lifetime
            + seq![self.instructions.len() as u8, self.num_keys as u8]
    }

    pub open spec fn sized(self) -> bool {
        &&& self.rest_of_header.len() == 2
        &&& self.lifetime.len() == 32
        &&& self.num_keys <= 0xff
        &&& self.keys.len() == 32 * self.num_keys
        &&& v1_sized(self.instructions)
    }
}

/// A transaction.
pub enum TxParts {
    Legacy { signatures: Seq<Seq<u8>>, message: MessageParts },
    V0 { signatures: Seq<Seq<u8>>, message: MessageParts, lookups: Seq<LookupParts> },
    V1 { body: V1Parts, signatures: Seq<Seq<u8>> },
}

impl TxParts {
    pub open spec fn signatures(self) -> Seq<Seq<u8>> {
        match self {
            TxParts::Legacy { signatures, .. } => signatures,
            TxParts::V0 { signatures, .. } => signatures,
            TxParts::V1 { signatures, .. } => signatures,
        }
    }

    pub open spec fn version(self) -> TxVersion {
        match self {
            TxParts::Legacy { .. } => TxVersion::Legacy,
            TxParts::V0 { .. } => TxVersion::V0,
            TxParts::V1 { .. } => TxVersion::V1,
        }
    }

    pub open spec fn bytes(self) -> Seq<u8> {
        match self {
            TxParts::Legacy { signatures, message } => seq![signatures.len() as u8] + (joined(
                signatures,
            ) + message.bytes()),
            TxParts::V0 { signatures, message, lookups } => seq![signatures.len() as u8] + (joined(
                signatures,
            ) + (seq![0x80u8] + (message.bytes() + (compact(lookups.len()) + lookups_bytes(
                lookups,
            ))))),
            TxParts::V1 { body, signatures } => body.bytes(signatures.len() as u8) + joined(
                signatures,
            ),
        }
    }

    /// Every part has its size, every list fits its count, and a legacy message does not
    /// start like a versioned one.
    pub open spec fn sized(self) -> bool {
        &&& signatures_sized(self.signatures())
        &&& match self {
            TxParts::Legacy { signatures, message } => {
                &&& signatures.len() < 0x80
                &&& message.sized()
                &&& message.header[0] < 0x80
            },
            TxParts::V0 { signatures, message, lookups } => {
                &&& signatures.len() < 0x80
                &&& message.sized()
                &&& lookups_sized(lookups)
            },
            TxParts::V1 { body, signatures } => {
                &&& signatures.len() <= 0xff
                &&& body.sized()
            },
        }
    }
}

/// The first byte of a message is that of its header.
proof fn lemma_message_first(m: MessageParts)
    requires
        m.sized(),
    ensures
        m.bytes().len() >= 36,
        m.bytes()[0] == m.header[0],
{
}

/// A message that stands somewhere, with its version if it has one, ends where its last
/// part does.
proof fn lemma_versioned(b: Seq<u8>, at: int, m: MessageParts, lookups_of: Option<Seq<LookupParts>>)
    requires
        m.sized(),
        match lookups_of {
            None => m.header[0] < 0x80 && stands(b, at, m.bytes()),
            Some(list) => lookups_sized(list) && stands(
                b,
                at,
                seq![0x80u8] + (m.bytes() + (compact(list.len()) + lookups_bytes(list))),
            ),
        },
    ensures
        versioned_message(b, at) == Ok::<(TxVersion, int), ViewError>(
            match lookups_of {
                None => (TxVersion::Legacy, at + m.bytes().len()),
                Some(list) => (
                    TxVersion::V0,
                    at + 1 + m.bytes().len() + compact(list.len()).len() + lookups_bytes(list).len(),
                ),
            },
        ),
{
    reveal(versioned_message);
    lemma_message_first(m);
    match lookups_of {
        None => {
            lemma_message(b, at, m);
            assert(b[at] == b.subrange(at, at + m.bytes().len())[0]);
        },
        Some(list) => {
            let tail = compact(list.len()) + lookups_bytes(list);
            lemma_stand_apart(b, at, seq![0x80u8], m.bytes() + tail);
            lemma_byte_stands(b, at, 0x80);
            lemma_stand_apart(b, at + 1, m.bytes(), tail);
            let end = at + 1 + m.bytes().len();
            lemma_stand_apart(b, end, compact(list.len()), lookups_bytes(list));
            lemma_message(b, at + 1, m);
            law_lengths(b, end, list.len());
            lemma_lookups(b, end + compact(list.len()).len(), list);
        },
    }
}

/// Whether a scanned transaction is the one that was laid out: the same bytes, version
/// and signatures.
pub open spec fn found_as(found: TxModel, tx: TxParts) -> bool {
    &&& found.bytes == tx.bytes()
    &&& found.version == tx.version()
    &&& found.num_signatures == tx.signatures().len()
    &&& forall|s: int|
        0 <= s < tx.signatures().len() ==> #[trigger] tx.signatures()[s] == found.bytes.subrange(
            found.signatures_offset + 64 * s,
            found.signatures_offset + 64 * s + 64,
        )
}

/// A legacy or v0 transaction that stands somewhere is found there.
proof fn lemma_legacy_or_v0(b: Seq<u8>, at: int, tx: TxParts)
    requires
        tx.sized(),
        tx.version() != TxVersion::V1,
        stands(b, at, tx.bytes()),
    ensures
        b[at] < 128,
        legacy_or_v0(b, at) matches Ok((found, end)) && end == at + tx.bytes().len() && found_as(
            found,
            tx,
        ),
{
    let signatures = tx.signatures();
    let n = signatures.len();
    let (m, list) = match tx {
        TxParts::Legacy { message, .. } => (message, None),
        TxParts::V0 { message, lookups, .. } => (message, Some(lookups)),
        TxParts::V1 { .. } => (arbitrary(), None),
    };
    let body = match list {
        None => m.bytes(),
        Some(list) => seq![0x80u8] + (m.bytes() + (compact(list.len()) + lookups_bytes(list))),
    };
    lemma_signatures(signatures);
    assert(tx.bytes() == seq![n as u8] + (joined(signatures) + body));
    lemma_stand_apart(b, at, seq![n as u8], joined(signatures) + body);
    lemma_byte_stands(b, at, n as u8);
    lemma_stand_apart(b, at + 1, joined(signatures), body);
    lemma_versioned(b, at + 1 + 64 * n, m, list);
    let (found, end) = legacy_or_v0(b, at)->Ok_0;
    assert(found.signatures_offset == 1);
    lemma_signatures_found(b, at, found, tx, 1);
}

/// Signatures are where they stand.
proof fn lemma_signatures_found(b: Seq<u8>, at: int, found: TxModel, tx: TxParts, offset: int)
    requires
        signatures_sized(tx.signatures()),
        found.bytes == tx.bytes(),
        0 <= offset,
        offset + joined(tx.signatures()).len() <= tx.bytes().len(),
        stands(b, at, tx.bytes()),
        stands(b, at + offset, joined(tx.signatures())),
    ensures
        forall|s: int|
            0 <= s < tx.signatures().len() ==> #[trigger] tx.signatures()[s]
                == found.bytes.subrange(offset + 64 * s, offset + 64 * s + 64),
{
    let signatures = tx.signatures();
    let all = joined(signatures);
    lemma_signatures(signatures);
    assert forall|s: int| 0 <= s < signatures.len() implies #[trigger] signatures[s]
        == found.bytes.subrange(offset + 64 * s, offset + 64 * s + 64) by {
        assert(signatures[s] == all.subrange(64 * s, 64 * s + 64));
        assert forall|i: int| 0 <= i < 64 implies #[trigger] all.subrange(64 * s, 64 * s + 64)[i]
            == found.bytes.subrange(offset + 64 * s, offset + 64 * s + 64)[i] by {
            assert(all[64 * s + i] == b.subrange(at + offset, at + offset + all.len())[64 * s + i]);
            assert(tx.bytes()[offset + (64 * s + i)] == b.subrange(at, at + tx.bytes().len())[offset
                + (64 * s + i)]);
        }
        assert(all.subrange(64 * s, 64 * s + 64) =~= found.bytes.subrange(
            offset + 64 * s,
            offset + 64 * s + 64,
        ));
    }
}

/// What v1 instruction headers announce is what their payloads take up.
proof fn lemma_v1_payloads(list: Seq<InstructionParts>, headers: Seq<u8>)
    requires
        v1_sized(list),
        headers.len() >= 4 * list.len(),
        headers.take(4 * list.len() as int) == v1_headers(list),
    ensures
        v1_headers(list).len() == 4 * list.len(),
        payloads_len(headers, list.len()) == v1_payloads(list).len(),
    decreases list.len(),
{
    if list.len() > 0 {
        let front = list.drop_last();
        let one = list.last();
        let k = list.len() - 1;
        assert forall|i: int| 0 <= i < front.len() implies (#[trigger] front[i]).accounts.len()
            <= 0xff && front[i].data.len() <= 0xffff by {
            assert(front[i] == list[i]);
        }
        lemma_v1_headers_len(front);
        let all = v1_headers(list);
        assert(headers.take(4 * k) =~= v1_headers(front)) by {
            assert forall|i: int| 0 <= i < 4 * k implies headers[i] == v1_headers(front)[i] by {
                assert(headers.take(4 * list.len() as int)[i] == all[i]);
            }
        }
        lemma_v1_payloads(front, headers);
        assert(list[k].accounts.len() <= 0xff && list[k].data.len() <= 0xffff);
        let size = one.data.len() as u16;
        assert(headers[4 * k + 1] == all[4 * k + 1]) by {
            assert(headers.take(4 * list.len() as int)[4 * k + 1] == all[4 * k + 1]);
        }
        assert(headers.subrange(4 * k + 2, 4 * k + 4) =~= le16_bytes(size)) by {
            assert(headers.take(4 * list.len() as int)[4 * k + 2] == all[4 * k + 2]);
            assert(headers.take(4 * list.len() as int)[4 * k + 3] == all[4 * k + 3]);
        }
        assert(le16_bytes(size).subrange(0, 2) =~= le16_bytes(size));
        lemma_le_same_bytes(headers, 4 * k + 2, le16_bytes(size), 0, 2);
        lemma_le16_round_trip(size);
    }
}

/// Four bytes for each header.
proof fn lemma_v1_headers_len(list: Seq<InstructionParts>)
    ensures
        v1_headers(list).len() == 4 * list.len(),
    decreases list.len(),
{
    if list.len() > 0 {
        lemma_v1_headers_len(list.drop_last());
    }
}

/// The mask announces the values that are there.
proof fn lemma_mask(m: V1Parts)
    ensures
        !bad_mask(m.mask() as int),
        config_len(m.mask() as int) == m.config().len(),
{
}

/// The part of fixed size of a v1 transaction.
proof fn lemma_v1_front(b: Seq<u8>, at: int, m: V1Parts, n: u8)
    requires
        m.sized(),
        stands(b, at, m.front(n)),
    ensures
        m.front(n).len() == 42,
        b[at] == 0x81,
        b[at + 1] == n,
        le32(b, at + 4) == m.mask(),
        b[at + 40] == m.instructions.len(),
        b[at + 41] == m.num_keys,
{
    let front = m.front(n);
    let mask = le32_bytes(m.mask());
    assert(front.len() == 42);
    assert forall|i: int| 0 <= i < 42 implies b[at + i] == front[i] by {
        assert(b.subrange(at, at + 42)[i] == front[i]);
    }
    assert(b[at + 0] == front[0]);
    assert(b[at + 1] == front[1]);
    assert(b[at + 40] == front[40]);
    assert(b[at + 41] == front[41]);
    assert(b.subrange(at + 4, at + 8) =~= mask) by {
        assert forall|i: int| 0 <= i < 4 implies #[trigger] b.subrange(at + 4, at + 8)[i]
            == mask[i] by {
            assert(b[at + (4 + i)] == front[4 + i]);
        }
    }
    assert(mask.subrange(0, 4) =~= mask);
    lemma_le_same_bytes(b, at + 4, mask, 0, 4);
    lemma_le32_round_trip(m.mask());
}

/// A v1 transaction that stands somewhere is found there.
proof fn lemma_v1(b: Seq<u8>, at: int, tx: TxParts)
    requires
        tx.sized(),
        tx is V1,
        stands(b, at, tx.bytes()),
    ensures
        b[at] == 0x81,
        v1(b, at) matches Ok((found, end)) && end == at + tx.bytes().len() && found_as(found, tx),
{
    let m = tx->body;
    let signatures = tx.signatures();
    let n = signatures.len() as u8;
    let headers = v1_headers(m.instructions);
    let payloads = v1_payloads(m.instructions);
    lemma_stand_apart(b, at, m.bytes(n), joined(signatures));
    lemma_stand_apart(b, at, m.front(n), m.keys + (m.config() + (headers + payloads)));
    lemma_v1_front(b, at, m, n);
    let keys_at = at + 42;
    lemma_stand_apart(b, keys_at, m.keys, m.config() + (headers + payloads));
    let config_at = keys_at + m.keys.len();
    lemma_stand_apart(b, config_at, m.config(), headers + payloads);
    let headers_at = config_at + m.config().len();
    lemma_stand_apart(b, headers_at, headers, payloads);
    lemma_mask(m);
    lemma_v1_headers_len(m.instructions);
    assert(headers.take(4 * m.instructions.len() as int) =~= headers);
    lemma_v1_payloads(m.instructions, headers);
    lemma_signatures(signatures);
    let (found, end) = v1(b, at)->Ok_0;
    lemma_signatures_found(b, at, found, tx, m.bytes(n).len() as int);
}

/// A transaction that is laid out is found whole, whatever is around it: it ends where
/// its last part does, and has the version and the signatures that it was made with,
/// however many signatures, keys, instructions and lookups there are.
pub proof fn law_laid_out_is_found(before: Seq<u8>, tx: TxParts, after: Seq<u8>)
    requires
        tx.sized(),
    ensures
        transaction(before + tx.bytes() + after, before.len() as int) matches Ok((found, end))
            && end == before.len() + tx.bytes().len() && found_as(found, tx),
{
    let b = before + tx.bytes() + after;
    let at = before.len() as int;
    assert(b.subrange(at, at + tx.bytes().len()) =~= tx.bytes());
    lemma_found_where_it_stands(b, at, tx);
}

/// A transaction that stands somewhere is found there.
proof fn lemma_found_where_it_stands(b: Seq<u8>, at: int, tx: TxParts)
    requires
        tx.sized(),
        stands(b, at, tx.bytes()),
    ensures
        transaction(b, at) matches Ok((found, end)) && end == at + tx.bytes().len() && found_as(
            found,
            tx,
        ),
{
    reveal(transaction);
    if tx is V1 {
        lemma_v1(b, at, tx);
    } else {
        lemma_legacy_or_v0(b, at, tx);
    }
}

/// The bytes of a counted list that is found.
proof fn find_counted(b: Seq<u8>, at: int) -> (x: Seq<u8>)
    requires
        0 <= at <= b.len(),
        items(b, at, 1) is Ok,
    ensures
        x.len() <= 0xffff,
        stands(b, at, counted(x)),
        items(b, at, 1) == Ok::<int, ViewError>(at + counted(x).len()),
{
    let (m, first) = shortvec(b, at)->Ok_0;
    let end = items(b, at, 1)->Ok_0;
    let n = m as nat;
    law_lengths(b, at, n);
    let x = b.subrange(first, end);
    assert(stands(b, first, x));
    lemma_stand_apart(b, at, compact(n), x);
    x
}

/// The instructions that are found.
proof fn find_instructions(b: Seq<u8>, at: int, n: nat) -> (list: Seq<InstructionParts>)
    requires
        0 <= at <= b.len(),
        n <= 0xffff,
        instructions(b, at, n) is Ok,
    ensures
        list.len() == n,
        instructions_sized(list),
        stands(b, at, instructions_bytes(list)),
        instructions(b, at, n) == Ok::<int, ViewError>(at + instructions_bytes(list).len()),
    decreases n,
{
    if n == 0 {
        assert(b.subrange(at, at) =~= Seq::empty());
        Seq::empty()
    } else {
        let next = instruction(b, at)->Ok_0;
        let accounts = find_counted(b, at + 1);
        let data_at = at + 1 + counted(accounts).len();
        let data = find_counted(b, data_at);
        let one = InstructionParts { program: b[at], accounts, data };
        lemma_byte_stands(b, at, b[at]);
        lemma_stand_apart(b, at + 1, counted(accounts), counted(data));
        lemma_stand_apart(b, at, seq![b[at]], counted(accounts) + counted(data));
        let rest = find_instructions(b, next, (n - 1) as nat);
        let list = seq![one] + rest;
        assert(list.drop_first() =~= rest);
        assert forall|i: int| 0 <= i < list.len() implies (#[trigger] list[i]).sized() by {
            if i > 0 {
                assert(list[i] == rest[i - 1]);
            }
        }
        lemma_stand_apart(b, at, one.bytes(), instructions_bytes(rest));
        list
    }
}

/// The lookups that are found.
proof fn find_lookups(b: Seq<u8>, at: int, n: nat) -> (list: Seq<LookupParts>)
    requires
        0 <= at <= b.len(),
        n <= 0xffff,
        lookups(b, at, n) is Ok,
    ensures
        list.len() == n,
        lookups_sized(list),
        stands(b, at, lookups_bytes(list)),
        lookups(b, at, n) == Ok::<int, ViewError>(at + lookups_bytes(list).len()),
    decreases n,
{
    if n == 0 {
        assert(b.subrange(at, at) =~= Seq::empty());
        Seq::empty()
    } else {
        let next = lookup(b, at)->Ok_0;
        let writable = find_counted(b, at + 32);
        let readonly_at = at + 32 + counted(writable).len();
        let readonly = find_counted(b, readonly_at);
        let one = LookupParts { table: b.subrange(at, at + 32), writable, readonly };
        lemma_stand_apart(b, at + 32, counted(writable), counted(readonly));
        lemma_stand_apart(b, at, one.table, counted(writable) + counted(readonly));
        let rest = find_lookups(b, next, (n - 1) as nat);
        let list = seq![one] + rest;
        assert(list.drop_first() =~= rest);
        assert forall|i: int| 0 <= i < list.len() implies (#[trigger] list[i]).sized() by {
            if i > 0 {
                assert(list[i] == rest[i - 1]);
            }
        }
        lemma_stand_apart(b, at, one.bytes(), lookups_bytes(rest));
        list
    }
}

/// The message that is found.
proof fn find_message(b: Seq<u8>, at: int) -> (m: MessageParts)
    requires
        0 <= at <= b.len(),
        message(b, at) is Ok,
    ensures
        m.sized(),
        stands(b, at, m.bytes()),
        m.header[0] == b[at],
        message(b, at) == Ok::<int, ViewError>(at + m.bytes().len()),
{
    let (num_keys, keys_at) = shortvec(b, at + 3)->Ok_0;
    law_lengths(b, at + 3, num_keys as nat);
    let blockhash_at = items(b, at + 3, 32)->Ok_0;
    let keys = b.subrange(keys_at, blockhash_at);
    let (n, first) = shortvec(b, blockhash_at + 32)->Ok_0;
    law_lengths(b, blockhash_at + 32, n as nat);
    let list = find_instructions(b, first, n as nat);
    let m = MessageParts {
        header: b.subrange(at, at + 3),
        num_keys: num_keys as nat,
        keys,
        blockhash: b.subrange(blockhash_at, blockhash_at + 32),
        instructions: list,
    };
    let tail = compact(n as nat) + instructions_bytes(list);
    assert(stands(b, at, m.header));
    assert(stands(b, keys_at, keys));
    assert(stands(b, blockhash_at, m.blockhash));
    lemma_stand_apart(b, blockhash_at + 32, compact(n as nat), instructions_bytes(list));
    lemma_stand_apart(b, blockhash_at, m.blockhash, tail);
    lemma_stand_apart(b, at + 3, compact(m.num_keys), keys);
    lemma_stand_apart(b, at + 3, compact(m.num_keys) + keys, m.blockhash + tail);
    lemma_stand_apart(b, at, m.header, (compact(m.num_keys) + keys) + (m.blockhash + tail));
    m
}

/// Signatures from their bytes.
proof fn find_signatures(x: Seq<u8>, n: nat) -> (signatures: Seq<Seq<u8>>)
    requires
        x.len() == 64 * n,
    ensures
        signatures.len() == n,
        signatures_sized(signatures),
        joined(signatures) == x,
    decreases n,
{
    if n == 0 {
        assert(x =~= Seq::empty());
        Seq::empty()
    } else {
        let last = x.subrange(64 * (n - 1), 64 * n as int);
        let front = find_signatures(x.take(64 * (n - 1)), (n - 1) as nat);
        let all = front.push(last);
        assert(all.drop_last() =~= front);
        assert(x.take(64 * (n - 1)) + last =~= x);
        assert forall|s: int| 0 <= s < all.len() implies (#[trigger] all[s]).len() == 64 by {
            if s < n - 1 {
                assert(all[s] == front[s]);
            }
        }
        all
    }
}

/// Only the headers of the instructions matter for what they announce.
proof fn lemma_payloads_front(headers: Seq<u8>, n: nat, m: int)
    requires
        4 * n <= m <= headers.len(),
    ensures
        payloads_len(headers, n) == payloads_len(headers.take(m), n),
        payloads_len(headers, n) >= 0,
    decreases n,
{
    if n > 0 {
        lemma_payloads_front(headers, (n - 1) as nat, m);
    }
}

/// The v1 instructions that headers and payloads hold.
proof fn find_v1_instructions(headers: Seq<u8>, payloads: Seq<u8>, n: nat) -> (list: Seq<
    InstructionParts,
>)
    requires
        n <= 0xff,
        headers.len() == 4 * n,
        payloads.len() == payloads_len(headers, n),
    ensures
        list.len() == n,
        v1_sized(list),
        v1_headers(list) == headers,
        v1_payloads(list) == payloads,
    decreases n,
{
    if n == 0 {
        assert(headers =~= Seq::empty());
        assert(payloads =~= Seq::empty());
        Seq::empty()
    } else {
        let k: int = n - 1;
        let num_accounts = headers[4 * k + 1];
        let data_len = le16(headers, 4 * k + 2);
        lemma_payloads_front(headers, k as nat, 4 * k);
        let before = payloads_len(headers, k as nat);
        let accounts = payloads.subrange(before, before + num_accounts);
        let data = payloads.subrange(before + num_accounts, payloads.len() as int);
        let one = InstructionParts { program: headers[4 * k], accounts, data };
        let front = find_v1_instructions(headers.take(4 * k), payloads.take(before), k as nat);
        let list = front.push(one);
        assert(list.drop_last() =~= front);
        lemma_le16_spelled(headers, 4 * k + 2);
        assert(headers.take(4 * k) + v1_header(one) =~= headers) by {
            assert(le16_bytes(data.len() as u16) == headers.subrange(4 * k + 2, 4 * k + 4));
            assert(headers.subrange(4 * k + 2, 4 * k + 4)[0] == headers[4 * k + 2]);
            assert(headers.subrange(4 * k + 2, 4 * k + 4)[1] == headers[4 * k + 3]);
        }
        assert(payloads.take(before) + (accounts + data) =~= payloads);
        assert forall|i: int| 0 <= i < list.len() implies (#[trigger] list[i]).accounts.len()
            <= 0xff && list[i].data.len() <= 0xffff by {
            if i < k {
                assert(list[i] == front[i]);
            }
        }
        list
    }
}

/// Four bytes as a number that is there.
proof fn find_optional(x: Seq<u8>, there: bool) -> (value: Option<u32>)
    requires
        x.len() == (if there {
            4nat
        } else {
            0
        }),
    ensures
        value is Some == there,
        optional(value) == x,
{
    if there {
        lemma_le32_spelled(x, 0);
        assert(x.subrange(0, 4) =~= x);
        Some(le32(x, 0) as u32)
    } else {
        assert(x =~= Seq::empty());
        None
    }
}

/// Eight bytes as a number that is there.
proof fn find_fee(x: Seq<u8>, there: bool) -> (value: Option<u64>)
    requires
        x.len() == (if there {
            8nat
        } else {
            0
        }),
    ensures
        value is Some == there,
        x == (match value {
            Some(fee) => le64_bytes(fee),
            None => Seq::empty(),
        }),
{
    if there {
        lemma_le64_spelled(x, 0);
        assert(x.subrange(0, 8) =~= x);
        Some(le64(x, 0) as u64)
    } else {
        assert(x =~= Seq::empty());
        None
    }
}

/// The bits of a mask that is not a bad one.
proof fn lemma_mask_bits(mask: u32)
    requires
        !bad_mask(mask as int),
    ensures
        mask == bit(mask % 4 != 0, 3) + bit(mask / 4 % 2 == 1, 4) + bit(mask / 8 % 2 == 1, 8) + bit(
            mask / 16 % 2 == 1,
            16,
        ),
{
}

/// The v1 transaction that is found, but for its signatures.
proof fn find_v1(b: Seq<u8>, at: int) -> (m: V1Parts)
    requires
        0 <= at < b.len(),
        b[at] == 0x81,
        v1(b, at) is Ok,
    ensures
        m.sized(),
        stands(b, at, m.bytes(b[at + 1])),
        v1(b, at) matches Ok((_, end)) && end == at + m.bytes(b[at + 1]).len() + 64 * b[at + 1]
            && end <= b.len(),
{
    let num_keys = b[at + 41] as nat;
    let n = b[at + 40] as nat;
    let config_at = at + 42 + 32 * num_keys;
    let mask = le32(b, at + 4) as u32;
    lemma_le32_spelled(b, at + 4);
    let headers_at = config_at + config_len(mask as int);
    let payloads_at = headers_at + 4 * n;
    let headers = b.subrange(headers_at, payloads_at);
    lemma_payloads_front(headers, n, headers.len() as int);
    let signatures_at = payloads_at + payloads_len(headers, n);
    let payloads = b.subrange(payloads_at, signatures_at);
    let list = find_v1_instructions(headers, payloads, n);
    lemma_mask_bits(mask);
    let fee_end = config_at + (if mask % 4 != 0 {
        8int
    } else {
        0
    });
    let limit_end = fee_end + 4 * (mask / 4 % 2);
    let loaded_end = limit_end + 4 * (mask / 8 % 2);
    let fee = find_fee(b.subrange(config_at, fee_end), mask % 4 != 0);
    let limit = find_optional(b.subrange(fee_end, limit_end), mask / 4 % 2 == 1);
    let loaded = find_optional(b.subrange(limit_end, loaded_end), mask / 8 % 2 == 1);
    let heap = find_optional(b.subrange(loaded_end, headers_at), mask / 16 % 2 == 1);
    let m = V1Parts {
        rest_of_header: b.subrange(at + 2, at + 4),
        priority_fee: fee,
        compute_unit_limit: limit,
        loaded_accounts_limit: loaded,
        heap_size: heap,
        lifetime: b.subrange(at + 8, at + 40),
        num_keys,
        keys: b.subrange(at + 42, config_at),
        instructions: list,
    };
    assert(m.mask() == mask);
    assert(m.config() =~= b.subrange(config_at, headers_at));
    lemma_front_found(b, at, m);
    assert(stands(b, at + 42, m.keys));
    assert(stands(b, config_at, m.config()));
    assert(stands(b, headers_at, v1_headers(list)));
    assert(stands(b, payloads_at, v1_payloads(list)));
    let last = v1_headers(list) + v1_payloads(list);
    lemma_stand_apart(b, headers_at, v1_headers(list), v1_payloads(list));
    lemma_stand_apart(b, config_at, m.config(), last);
    lemma_stand_apart(b, at + 42, m.keys, m.config() + last);
    lemma_stand_apart(b, at, m.front(b[at + 1]), m.keys + (m.config() + last));
    m
}

/// The part of fixed size stands where it was found.
proof fn lemma_front_found(b: Seq<u8>, at: int, m: V1Parts)
    requires
        0 <= at,
        at + 42 <= b.len(),
        b[at] == 0x81,
        m.rest_of_header == b.subrange(at + 2, at + 4),
        le32_bytes(m.mask()) == b.subrange(at + 4, at + 8),
        m.lifetime == b.subrange(at + 8, at + 40),
        m.instructions.len() == b[at + 40],
        m.num_keys == b[at + 41],
    ensures
        m.front(b[at + 1]).len() == 42,
        stands(b, at, m.front(b[at + 1])),
{
    let front = m.front(b[at + 1]);
    let mask = le32_bytes(m.mask());
    assert(front =~= seq![b[at], b[at + 1]] + b.subrange(at + 2, at + 4) + b.subrange(
        at + 4,
        at + 8,
    ) + b.subrange(at + 8, at + 40) + seq![b[at + 40], b[at + 41]]);
    assert(b.subrange(at, at + 42) =~= front);
}

/// Every transaction that is found was laid out: there are parts that it is made of, and
/// nothing that is not made of them is taken for a transaction.
pub proof fn law_found_was_laid_out(b: Seq<u8>, at: int) -> (tx: TxParts)
    requires
        0 <= at,
        transaction(b, at) is Ok,
    ensures
        tx.sized(),
        stands(b, at, tx.bytes()),
        transaction(b, at) matches Ok((found, end)) && end == at + tx.bytes().len() && found_as(
            found,
            tx,
        ),
{
    reveal(transaction);
    let tx = if b[at] < 128 {
        let n = b[at] as nat;
        let body = at + 1 + 64 * n;
        let signatures = find_signatures(b.subrange(at + 1, body), n);
        lemma_byte_stands(b, at, n as u8);
        assert(stands(b, at + 1, joined(signatures)));
        reveal(versioned_message);
        if b[body] < 128 {
            let m = find_message(b, body);
            lemma_stand_apart(b, at + 1, joined(signatures), m.bytes());
            lemma_stand_apart(b, at, seq![n as u8], joined(signatures) + m.bytes());
            TxParts::Legacy { signatures, message: m }
        } else {
            let m = find_message(b, body + 1);
            let counted_at = body + 1 + m.bytes().len();
            let (k, first) = shortvec(b, counted_at)->Ok_0;
            law_lengths(b, counted_at, k as nat);
            let list = find_lookups(b, first, k as nat);
            let tail = compact(k as nat) + lookups_bytes(list);
            lemma_byte_stands(b, body, 0x80);
            lemma_stand_apart(b, counted_at, compact(k as nat), lookups_bytes(list));
            lemma_stand_apart(b, body + 1, m.bytes(), tail);
            lemma_stand_apart(b, body, seq![0x80u8], m.bytes() + tail);
            let whole = seq![0x80u8] + (m.bytes() + tail);
            lemma_stand_apart(b, at + 1, joined(signatures), whole);
            lemma_stand_apart(b, at, seq![n as u8], joined(signatures) + whole);
            TxParts::V0 { signatures, message: m, lookups: list }
        }
    } else {
        let m = find_v1(b, at);
        let n = b[at + 1] as nat;
        let signatures_at = at + m.bytes(n as u8).len();
        let signatures = find_signatures(b.subrange(signatures_at, signatures_at + 64 * n), n);
        assert(stands(b, signatures_at, joined(signatures)));
        lemma_stand_apart(b, at, m.bytes(n as u8), joined(signatures));
        TxParts::V1 { body: m, signatures }
    };
    lemma_found_where_it_stands(b, at, tx);
    tx
}

/// Transactions, one after the other.
pub open spec fn txs_bytes(txs: Seq<TxParts>) -> Seq<u8>
    decreases txs.len(),
{
    if txs.len() == 0 {
        Seq::empty()
    } else {
        txs[0].bytes() + txs_bytes(txs.drop_first())
    }
}

/// What an entry is made of.
pub struct EntryParts {
    pub num_hashes: u64,
    pub hash: Seq<u8>,
    pub txs: Seq<TxParts>,
}

impl EntryParts {
    pub open spec fn bytes(self) -> Seq<u8> {
        le64_bytes(self.num_hashes) + (self.hash + (le64_bytes(self.txs.len() as u64) + txs_bytes(
            self.txs,
        )))
    }

    pub open spec fn sized(self) -> bool {
        &&& self.hash.len() == 32
        &&& self.txs.len() <= u64::MAX
        &&& forall|i: int| 0 <= i < self.txs.len() ==> (#[trigger] self.txs[i]).sized()
    }
}

/// Entries, one after the other.
pub open spec fn entries_bytes(entries: Seq<EntryParts>) -> Seq<u8>
    decreases entries.len(),
{
    if entries.len() == 0 {
        Seq::empty()
    } else {
        entries[0].bytes() + entries_bytes(entries.drop_first())
    }
}

/// A segment: the number of its entries, then the entries.
pub open spec fn segment_bytes(entries: Seq<EntryParts>) -> Seq<u8> {
    le64_bytes(entries.len() as u64) + entries_bytes(entries)
}

/// Whether scanned transactions are those that were laid out, in their order.
pub open spec fn all_found_as(found: Seq<TxModel>, txs: Seq<TxParts>) -> bool {
    found.len() == txs.len() && forall|i: int|
        0 <= i < txs.len() ==> found_as(#[trigger] found[i], txs[i])
}

/// Whether a scanned entry is the one that was laid out.
pub open spec fn entry_found_as(found: EntryModel, parts: EntryParts) -> bool {
    &&& found.num_hashes == parts.num_hashes
    &&& found.hash == parts.hash
    &&& found.num_transactions == parts.txs.len()
    &&& found.transactions == txs_bytes(parts.txs)
    &&& all_found_as(found.txs(), parts.txs)
}

/// Transactions that stand somewhere are found there.
proof fn lemma_txs(b: Seq<u8>, at: int, txs: Seq<TxParts>)
    requires
        forall|i: int| 0 <= i < txs.len() ==> (#[trigger] txs[i]).sized(),
        stands(b, at, txs_bytes(txs)),
    ensures
        transactions(b, at, txs.len()) == Ok::<int, ViewError>(at + txs_bytes(txs).len()),
        all_found_as(tx_list(b, at, txs.len()), txs),
    decreases txs.len(),
{
    if txs.len() > 0 {
        let one = txs[0];
        let rest = txs.drop_first();
        assert forall|i: int| 0 <= i < rest.len() implies (#[trigger] rest[i]).sized() by {
            assert(rest[i] == txs[i + 1]);
        }
        assert(one.sized());
        lemma_stand_apart(b, at, one.bytes(), txs_bytes(rest));
        lemma_found_where_it_stands(b, at, one);
        let next = at + one.bytes().len();
        lemma_txs(b, next, rest);
        let (found, _) = transaction(b, at)->Ok_0;
        let others = tx_list(b, next, rest.len());
        let all = tx_list(b, at, txs.len());
        assert(all == seq![found] + others);
        assert forall|i: int| 0 <= i < txs.len() implies found_as(#[trigger] all[i], txs[i]) by {
            if i > 0 {
                assert(all[i] == others[i - 1]);
                assert(rest[i - 1] == txs[i]);
            }
        }
    }
}

/// Eight bytes of a number read back where they stand.
proof fn lemma_le64_stands(b: Seq<u8>, at: int, x: u64)
    requires
        stands(b, at, le64_bytes(x)),
    ensures
        le64_bytes(x).len() == 8,
        le64(b, at) == x,
{
    assert(le64_bytes(x).subrange(0, 8) =~= le64_bytes(x));
    lemma_le_same_bytes(b, at, le64_bytes(x), 0, 8);
    lemma_le64_round_trip(x);
}

/// An entry that stands somewhere is found there.
proof fn lemma_entry(b: Seq<u8>, at: int, parts: EntryParts)
    requires
        parts.sized(),
        stands(b, at, parts.bytes()),
    ensures
        entry(b, at) matches Ok((found, end)) && end == at + parts.bytes().len()
            && entry_found_as(found, parts),
{
    reveal(entry);
    let count = le64_bytes(parts.txs.len() as u64);
    let inner = txs_bytes(parts.txs);
    lemma_stand_apart(b, at, le64_bytes(parts.num_hashes), parts.hash + (count + inner));
    lemma_le64_stands(b, at, parts.num_hashes);
    lemma_stand_apart(b, at + 8, parts.hash, count + inner);
    lemma_stand_apart(b, at + 40, count, inner);
    lemma_le64_stands(b, at + 40, parts.txs.len() as u64);
    lemma_txs(b, at + 48, parts.txs);
    assert(inner.subrange(0, inner.len() as int) =~= inner);
    lemma_txs(inner, 0, parts.txs);
}

/// Whether scanned entries are those that were laid out, in their order.
pub open spec fn entries_found_as(found: Seq<EntryModel>, entries: Seq<EntryParts>) -> bool {
    found.len() == entries.len() && forall|i: int|
        0 <= i < entries.len() ==> entry_found_as(#[trigger] found[i], entries[i])
}

/// Entries that stand somewhere are found there.
proof fn lemma_entries(b: Seq<u8>, at: int, entries: Seq<EntryParts>)
    requires
        forall|i: int| 0 <= i < entries.len() ==> (#[trigger] entries[i]).sized(),
        stands(b, at, entries_bytes(entries)),
    ensures
        entries_end(b, at, entries.len()) == Ok::<int, ViewError>(
            at + entries_bytes(entries).len(),
        ),
        entries_found_as(entry_list(b, at, entries.len()), entries),
    decreases entries.len(),
{
    if entries.len() > 0 {
        let one = entries[0];
        let rest = entries.drop_first();
        assert forall|i: int| 0 <= i < rest.len() implies (#[trigger] rest[i]).sized() by {
            assert(rest[i] == entries[i + 1]);
        }
        assert(one.sized());
        lemma_stand_apart(b, at, one.bytes(), entries_bytes(rest));
        lemma_entry(b, at, one);
        let next = at + one.bytes().len();
        lemma_entries(b, next, rest);
        let (found, _) = entry(b, at)->Ok_0;
        let others = entry_list(b, next, rest.len());
        let all = entry_list(b, at, entries.len());
        assert(all == seq![found] + others);
        assert forall|i: int| 0 <= i < entries.len() implies entry_found_as(
            #[trigger] all[i],
            entries[i],
        ) by {
            if i > 0 {
                assert(all[i] == others[i - 1]);
                assert(rest[i - 1] == entries[i]);
            }
        }
    }
}

/// A segment that is laid out is found whole: as many entries as were put in, with their
/// hashes and transactions, each where it was put, and it ends where the last of them
/// does. What follows, such as padding, is left alone.
pub proof fn law_laid_out_segment_is_found(entries: Seq<EntryParts>, after: Seq<u8>)
    requires
        entries.len() <= u64::MAX,
        forall|i: int| 0 <= i < entries.len() ==> (#[trigger] entries[i]).sized(),
    ensures
        scans(segment_bytes(entries) + after),
        entry_count(segment_bytes(entries) + after) == entries.len(),
        entries_found_as(entries_of(segment_bytes(entries) + after), entries),
        entries_end(segment_bytes(entries) + after, 8, entries.len()) == Ok::<int, ViewError>(
            segment_bytes(entries).len() as int,
        ),
{
    let segment = segment_bytes(entries);
    let b = segment + after;
    assert(b.subrange(0, segment.len() as int) =~= segment);
    lemma_stand_apart(b, 0, le64_bytes(entries.len() as u64), entries_bytes(entries));
    lemma_le64_stands(b, 0, entries.len() as u64);
    lemma_entries(b, 8, entries);
}

/// Whether what is found in fewer bytes is what is found in more: it is the same, but
/// where the fewer bytes ran out, and then at a place within them.
pub open spec fn same_unless_cut<T>(
    fewer: Result<T, ViewError>,
    more: Result<T, ViewError>,
    at: int,
    to: int,
) -> bool {
    match fewer {
        Err(ViewError::Truncated(k)) => at <= k <= to,
        _ => more == fewer,
    }
}

/// A length in fewer bytes.
proof fn lemma_shortvec_cut(b: Seq<u8>, at: int, to: int)
    requires
        0 <= at <= to <= b.len() <= usize::MAX,
    ensures
        same_unless_cut(shortvec(b.take(to), at), shortvec(b, at), at, to),
{
}

/// A counted run in fewer bytes.
proof fn lemma_items_cut(b: Seq<u8>, at: int, width: int, to: int)
    requires
        0 <= at <= to <= b.len() <= usize::MAX,
        0 <= width,
    ensures
        same_unless_cut(items(b.take(to), at, width), items(b, at, width), at, to),
        items(b.take(to), at, width) matches Ok(end) ==> at < end <= to,
{
    lemma_shortvec_cut(b, at, to);
    lemma_items_range(b.take(to), at, width);
    if let Ok((n, first)) = shortvec(b.take(to), at) {
        assert(0 <= n * width) by (nonlinear_arith)
            requires
                0 <= n,
                0 <= width,
        ;
    }
}

/// Instructions in fewer bytes.
proof fn lemma_instructions_cut(b: Seq<u8>, at: int, n: nat, to: int)
    requires
        0 <= at <= to <= b.len() <= usize::MAX,
    ensures
        same_unless_cut(instructions(b.take(to), at, n), instructions(b, at, n), at, to),
        instructions(b.take(to), at, n) matches Ok(end) ==> at <= end <= to,
    decreases n,
{
    let c = b.take(to);
    if n > 0 && at + 1 <= to {
        lemma_items_cut(b, at + 1, 1, to);
        if let Ok(data) = items(c, at + 1, 1) {
            lemma_items_cut(b, data, 1, to);
            if let Ok(next) = items(c, data, 1) {
                lemma_instructions_cut(b, next, (n - 1) as nat, to);
            }
        }
    }
}

/// Lookups in fewer bytes.
proof fn lemma_lookups_cut(b: Seq<u8>, at: int, n: nat, to: int)
    requires
        0 <= at <= to <= b.len() <= usize::MAX,
    ensures
        same_unless_cut(lookups(b.take(to), at, n), lookups(b, at, n), at, to),
        lookups(b.take(to), at, n) matches Ok(end) ==> at <= end <= to,
    decreases n,
{
    let c = b.take(to);
    if n > 0 && at + 32 <= to {
        lemma_items_cut(b, at + 32, 1, to);
        if let Ok(readonly) = items(c, at + 32, 1) {
            lemma_items_cut(b, readonly, 1, to);
            if let Ok(next) = items(c, readonly, 1) {
                lemma_lookups_cut(b, next, (n - 1) as nat, to);
            }
        }
    }
}

/// A message in fewer bytes.
proof fn lemma_message_cut(b: Seq<u8>, at: int, to: int)
    requires
        0 <= at <= to <= b.len() <= usize::MAX,
    ensures
        same_unless_cut(message(b.take(to), at), message(b, at), at, to),
        message(b.take(to), at) matches Ok(end) ==> at < end <= to,
{
    let c = b.take(to);
    if at + 3 <= to {
        lemma_items_cut(b, at + 3, 32, to);
        if let Ok(blockhash) = items(c, at + 3, 32) {
            if blockhash + 32 <= to {
                lemma_shortvec_cut(b, blockhash + 32, to);
                if let Ok((n, first)) = shortvec(c, blockhash + 32) {
                    lemma_instructions_cut(b, first, n as nat, to);
                }
            }
        }
    }
}

/// A versioned message in fewer bytes.
proof fn lemma_versioned_cut(b: Seq<u8>, at: int, to: int)
    requires
        0 <= at <= to <= b.len() <= usize::MAX,
    ensures
        same_unless_cut(versioned_message(b.take(to), at), versioned_message(b, at), at, to),
        versioned_message(b.take(to), at) matches Ok((_, end)) ==> at < end <= to,
{
    reveal(versioned_message);
    let c = b.take(to);
    if at < to {
        assert(c[at] == b[at]);
        if b[at] < 128 {
            lemma_message_cut(b, at, to);
        } else if b[at] == 128 {
            lemma_message_cut(b, at + 1, to);
            if let Ok(counted_at) = message(c, at + 1) {
                lemma_shortvec_cut(b, counted_at, to);
                if let Ok((n, first)) = shortvec(c, counted_at) {
                    lemma_lookups_cut(b, first, n as nat, to);
                }
            }
        }
    }
}

/// A v1 transaction in fewer bytes.
proof fn lemma_v1_cut(b: Seq<u8>, at: int, to: int)
    requires
        0 <= at < to <= b.len() <= usize::MAX,
    ensures
        same_unless_cut(v1(b.take(to), at), v1(b, at), at, to),
{
    let c = b.take(to);
    if at + 8 <= to {
        assert(le32(c, at + 4) == le32(b, at + 4));
        if at + 42 <= to {
            let config = at + 42 + 32 * b[at + 41];
            let headers = config + config_len(le32(b, at + 4));
            let payloads = headers + 4 * b[at + 40];
            if payloads <= to {
                assert(c.subrange(headers, payloads) =~= b.subrange(headers, payloads));
                lemma_payloads_len(b.subrange(headers, payloads), b[at + 40] as nat);
                if let Ok((tx, end)) = v1(c, at) {
                    assert(c.subrange(at, end) =~= b.subrange(at, end));
                }
            }
        }
    }
}

/// Where bytes are cut off, what is found of a transaction is what is found with them, or
/// that more was needed, at a place within what is left. So a transaction that is cut off
/// anywhere is not taken for another one.
pub proof fn law_cut_off_is_truncated(b: Seq<u8>, at: int, to: int)
    requires
        0 <= at <= to <= b.len() <= usize::MAX,
    ensures
        same_unless_cut(transaction(b.take(to), at), transaction(b, at), at, to),
        transaction(b, at) matches Ok((_, end)) && to < end ==> transaction(
            b.take(to),
            at,
        ) matches Err(ViewError::Truncated(_)),
{
    reveal(transaction);
    let c = b.take(to);
    if at < to {
        assert(c[at] == b[at]);
        if b[at] < 128 {
            let n = b[at] as int;
            let body = at + 1 + 64 * n;
            if body <= to {
                lemma_versioned_cut(b, body, to);
                if let Ok((_, end)) = versioned_message(c, body) {
                    assert(c.subrange(at, end) =~= b.subrange(at, end));
                }
            }
        } else if b[at] == 129 {
            lemma_v1_cut(b, at, to);
        }
    }
    if let Ok((_, end)) = transaction(c, at) {
        let tx = law_found_was_laid_out(c, at);
        assert(end <= to);
    }
}

/// What is neither cut off nor laid out is refused for what it is: a first byte that no
/// transaction starts with, a first byte that no message starts with, a length that is
/// not in its shortest form or too large, or a mask with a bit that means nothing.
pub proof fn law_refusals(b: Seq<u8>, at: int)
    requires
        0 <= at < b.len() <= usize::MAX,
    ensures
        0x80 <= b[at] && b[at] != 0x81 ==> transaction(b, at) == Err::<(TxModel, int), ViewError>(
            ViewError::UnknownVersion(b[at]),
        ),
        transaction(b, at) matches Err(ViewError::UnknownVersion(v)) ==> v >= 0x80 && (v == b[at]
            && v != 0x81 || b[at] < 0x80 && at + 1 + 64 * b[at] < b.len() && v == b[at + 1 + 64
            * b[at]] && v != 0x80),
        transaction(b, at) matches Err(ViewError::BadConfigMask) ==> b[at] == 0x81 && at + 8
            <= b.len() && forall|m: V1Parts| b.subrange(at + 4, at + 8) != #[trigger] le32_bytes(
            m.mask(),
        ),
{
    reveal(transaction);
    reveal(versioned_message);
    if b[at] < 128 {
        let body = at + 1 + 64 * b[at];
        if body < b.len() {
            lemma_only_known_reasons(b, body);
            lemma_only_known_reasons(b, body + 1);
            if let Ok(counted_at) = message(b, body + 1) {
                lemma_message_range(b, body + 1);
                if let Ok((n, first)) = shortvec(b, counted_at) {
                    lemma_lookups_reasons(b, first, n as nat);
                }
            }
        }
    } else if b[at] == 129 {
        if let Err(ViewError::BadConfigMask) = v1(b, at) {
            assert forall|m: V1Parts| b.subrange(at + 4, at + 8) != #[trigger] le32_bytes(
                m.mask(),
            ) by {
                lemma_mask(m);
                if b.subrange(at + 4, at + 8) == le32_bytes(m.mask()) {
                    assert(le32_bytes(m.mask()).subrange(0, 4) =~= le32_bytes(m.mask()));
                    lemma_le_same_bytes(b, at + 4, le32_bytes(m.mask()), 0, 4);
                    lemma_le32_round_trip(m.mask());
                }
            }
        }
    }
}

/// Where the bytes run out in the middle of a length, the first byte that is missing is
/// named; where no length is written there in its shortest form, its first byte is.
pub proof fn law_lengths_refused(b: Seq<u8>, at: int, n: nat)
    requires
        0 <= at <= b.len() <= usize::MAX,
    ensures
        shortvec(b, at) matches Err(ViewError::Truncated(k)) ==> k == b.len(),
        shortvec(b, at) matches Err(ViewError::BadShortVec(k)) ==> k == at && !(n <= 0xffff
            && stands(b, at, compact(n))),
        !(shortvec(b, at) matches Err(ViewError::UnknownVersion(_))),
        !(shortvec(b, at) matches Err(ViewError::BadConfigMask)),
{
    law_lengths(b, at, n);
}

/// A counted run that does not fit is refused where its length is, or where its first
/// item should be.
pub proof fn law_items_refused(b: Seq<u8>, at: int, n: nat, width: nat)
    requires
        0 <= at <= b.len() <= usize::MAX,
        n <= 0xffff,
        stands(b, at, compact(n)),
        at + compact(n).len() + n * width > b.len(),
    ensures
        items(b, at, width as int) == Err::<int, ViewError>(
            ViewError::Truncated((at + compact(n).len()) as usize),
        ),
{
    law_lengths(b, at, n);
}

/// Where a transaction runs out of bytes, the start of the field that does not fit is
/// named. There are no bytes at all, or the signatures or the message that a first byte
/// below 0x80 announces are cut off, or a field in the fixed part of a v1 transaction.
pub proof fn law_where_a_transaction_runs_out(b: Seq<u8>, at: int)
    requires
        0 <= at <= b.len() <= usize::MAX,
    ensures
        ({
            let found = transaction(b, at);
            let left = b.len() - at;
            let cut = |n: int|
                Err::<(TxModel, int), ViewError>(ViewError::Truncated((at + n) as usize));
            let bad_mask = found == Err::<(TxModel, int), ViewError>(ViewError::BadConfigMask);
            &&& left == 0 ==> found == cut(0)
            &&& left > 0 && b[at] < 0x80 ==> {
                &&& left < 1 + 64 * b[at] ==> found == cut(1)
                &&& left == 1 + 64 * b[at] ==> found == cut(1 + 64 * b[at])
            }
            &&& left > 0 && b[at] == 0x81 ==> {
                &&& left == 1 ==> found == cut(1)
                &&& 2 <= left < 4 ==> found == cut(2)
                &&& 4 <= left < 8 ==> found == cut(4)
                &&& 8 <= left < 40 ==> found == cut(8) || bad_mask
                &&& left == 40 ==> found == cut(40) || bad_mask
                &&& left == 41 ==> found == cut(41) || bad_mask
            }
        }),
{
    reveal(transaction);
    reveal(versioned_message);
}

/// Where a message runs out of bytes before its instructions, the start of the field
/// that does not fit is named: the header, the number of its keys, the keys, the
/// blockhash, or the number of instructions.
pub proof fn law_where_a_message_runs_out(b: Seq<u8>, at: int, keys: nat)
    requires
        0 <= at <= b.len() <= usize::MAX,
    ensures
        ({
            let cut = |n: int| Err::<int, ViewError>(ViewError::Truncated((at + n) as usize));
            let first = 3 + compact(keys).len() as int;
            let blockhash = first + 32 * keys;
            let left = b.len() - at;
            &&& left < 3 ==> message(b, at) == cut(0)
            &&& left == 3 ==> message(b, at) == cut(3)
            &&& keys <= 0xffff && stands(b, at + 3, compact(keys)) ==> {
                &&& left < blockhash ==> message(b, at) == cut(first)
                &&& blockhash <= left < blockhash + 32 ==> message(b, at) == cut(blockhash)
                &&& left == blockhash + 32 ==> message(b, at) == cut(blockhash + 32)
            }
        }),
{
    if at + 3 <= b.len() {
        law_lengths(b, at + 3, keys);
    }
}

/// Instructions and lookups fail as the first of them does that fails, and each names
/// the start of the field that does not fit.
pub proof fn law_first_failure_in_a_message(b: Seq<u8>, at: int, n: nat, j: nat, next: int)
    requires
        0 <= at <= b.len() <= usize::MAX,
        j < n,
    ensures
        instructions(b, at, j) == Ok::<int, ViewError>(next) && instruction(b, next) is Err
            ==> instructions(b, at, n) == Err::<int, ViewError>(instruction(b, next)->Err_0),
        lookups(b, at, j) == Ok::<int, ViewError>(next) && lookup(b, next) is Err ==> lookups(
            b,
            at,
            n,
        ) == Err::<int, ViewError>(lookup(b, next)->Err_0),
        at == b.len() ==> instruction(b, at) == Err::<int, ViewError>(
            ViewError::Truncated(at as usize),
        ),
        at + 1 == b.len() ==> instruction(b, at) == Err::<int, ViewError>(
            ViewError::Truncated((at + 1) as usize),
        ),
        b.len() < at + 32 ==> lookup(b, at) == Err::<int, ViewError>(
            ViewError::Truncated(at as usize),
        ),
        b.len() == at + 32 ==> lookup(b, at) == Err::<int, ViewError>(
            ViewError::Truncated((at + 32) as usize),
        ),
    decreases j,
{
    if j > 0 {
        if let Ok(second) = instruction(b, at) {
            lemma_instructions_range(b, at, 1);
            assert(instructions(b, at, 1) == instructions(b, second, 0));
            law_first_failure_in_a_message(b, second, (n - 1) as nat, (j - 1) as nat, next);
        }
        if let Ok(second) = lookup(b, at) {
            lemma_lookups_range(b, at, 1);
            assert(lookups(b, at, 1) == lookups(b, second, 0));
            law_first_failure_in_a_message(b, second, (n - 1) as nat, (j - 1) as nat, next);
        }
    }
}

/// Where an entry runs out of bytes in its header, the start of the field that does not
/// fit is named: the number of hashes, the hash, or the number of transactions.
pub proof fn law_where_an_entry_runs_out(b: Seq<u8>, at: int)
    requires
        0 <= at <= b.len() <= usize::MAX,
        b.len() < at + 48,
    ensures
        entry(b, at) == Err::<(EntryModel, int), ViewError>(
            ViewError::Truncated(
                (at + (if b.len() < at + 8 {
                    0int
                } else if b.len() < at + 40 {
                    8
                } else {
                    40
                })) as usize,
            ),
        ),
{
    reveal(entry);
}

/// Transactions fail as the first of them does that fails.
pub proof fn law_first_failure_is_told(b: Seq<u8>, at: int, n: nat, j: nat, next: int)
    requires
        j < n,
        transactions(b, at, j) == Ok::<int, ViewError>(next),
        transaction(b, next) is Err,
    ensures
        transactions(b, at, n) == Err::<int, ViewError>(transaction(b, next)->Err_0),
    decreases j,
{
    if j > 0 {
        let (_, second) = transaction(b, at)->Ok_0;
        law_first_failure_is_told(b, second, (n - 1) as nat, (j - 1) as nat, next);
    }
}

/// Whether a reason is one that lengths and ends can give.
pub open spec fn of_lengths<T>(found: Result<T, ViewError>) -> bool {
    match found {
        Ok(_) => true,
        Err(ViewError::Truncated(_)) => true,
        Err(ViewError::BadShortVec(_)) => true,
        Err(_) => false,
    }
}

/// Instructions are refused for lengths and ends only.
proof fn lemma_instructions_reasons(b: Seq<u8>, at: int, n: nat)
    ensures
        of_lengths(instructions(b, at, n)),
    decreases n,
{
    if n > 0 {
        if let Ok(next) = instruction(b, at) {
            lemma_instructions_reasons(b, next, (n - 1) as nat);
        }
    }
}

/// Lookups are refused for lengths and ends only.
proof fn lemma_lookups_reasons(b: Seq<u8>, at: int, n: nat)
    ensures
        of_lengths(lookups(b, at, n)),
    decreases n,
{
    if n > 0 {
        if let Ok(next) = lookup(b, at) {
            lemma_lookups_reasons(b, next, (n - 1) as nat);
        }
    }
}

/// A message is refused for lengths and ends only.
proof fn lemma_only_known_reasons(b: Seq<u8>, at: int)
    ensures
        of_lengths(message(b, at)),
{
    if let Ok(keys) = span(b, at, 3) {
        if let Ok(blockhash) = items(b, keys, 32) {
            if let Ok(counted_at) = span(b, blockhash, 32) {
                if let Ok((n, first)) = shortvec(b, counted_at) {
                    lemma_instructions_reasons(b, first, n as nat);
                }
            }
        }
    }
}

} // verus!

//! Recorded datagrams, and replaying them through a [`Deshredder`]. Fixtures
//! captured from a live port make tests independent of having a
//! shred feed at hand.
//!
//! Layout: an 8-byte magic, then records of
//! `u64 LE unix nanoseconds | u16 LE length | bytes`.

use crate::buffer;
use crate::deshredder::{batch_models, BatchModel, Deshredder, DeshredderModel, EntryBatch};
use crate::le::{
    le16, le16_bytes, le64, le64_bytes, lemma_le16_round_trip, lemma_le64_round_trip,
    lemma_le_same_bytes, push_u16, push_u64, u16_at, u64_at,
};
use crate::merkle::ascii;
use crate::sink::{
    handed, law_handed_in_steps, lemma_handed_none, lemma_handed_one, EntrySink,
};
use vstd::prelude::*;

verus! {

#[derive(Debug, Clone, Copy, PartialEq, Eq, Structural)]
pub enum FixtureError {
    /// There are fewer bytes than the magic has.
    TooShort,
    /// The bytes do not start with the magic.
    NotAFixture,
    /// A packet is longer than a record can hold.
    PacketTooLong,
    /// The bytes end inside a packet.
    Truncated,
}

/// What a fixture starts with: `SHREDS`, a zero and a one.
pub open spec fn magic() -> Seq<u8> {
    seq![83, 72, 82, 69, 68, 83, 0, 1]
}

/// A recorded datagram.
#[derive(Debug)]
pub struct Record {
    pub unix_nanos: u64,
    pub packet: Vec<u8>,
}

impl View for Record {
    type V = (u64, Seq<u8>);

    open spec fn view(&self) -> (u64, Seq<u8>) {
        (self.unix_nanos, self.packet@)
    }
}

/// The bytes of one record.
pub open spec fn record_bytes(record: (u64, Seq<u8>)) -> Seq<u8> {
    le64_bytes(record.0) + le16_bytes(record.1.len() as u16) + record.1
}

/// The bytes of records, one after the other.
pub open spec fn records_bytes(records: Seq<(u64, Seq<u8>)>) -> Seq<u8>
    decreases records.len(),
{
    if records.len() == 0 {
        Seq::empty()
    } else {
        record_bytes(records[0]) + records_bytes(records.drop_first())
    }
}

/// The record at `at`: `None` where what is left is too short for the time and
/// length of one, an error where it is too short for the packet.
pub open spec fn record_at(b: Seq<u8>, at: int) -> Option<
    Result<(u64, Seq<u8>), FixtureError>,
> {
    if at + 10 > b.len() {
        None
    } else if at + 10 + le16(b, at + 8) > b.len() {
        Some(Err(FixtureError::Truncated))
    } else {
        Some(Ok((le64(b, at) as u64, b.subrange(at + 10, at + 10 + le16(b, at + 8)))))
    }
}

/// The records from `at` on, up to the end or the one that is cut off.
pub open spec fn records_from(b: Seq<u8>, at: int) -> Seq<(u64, Seq<u8>)>
    decreases b.len() - at,
{
    match record_at(b, at) {
        Some(Ok(record)) => seq![record] + records_from(b, at + 10 + le16(b, at + 8)),
        _ => Seq::empty(),
    }
}

/// Whether the last record from `at` on is cut off inside its packet.
pub open spec fn cut_off(b: Seq<u8>, at: int) -> bool
    decreases b.len() - at,
{
    match record_at(b, at) {
        Some(Ok(_)) => cut_off(b, at + 10 + le16(b, at + 8)),
        Some(Err(_)) => true,
        None => false,
    }
}

/// Records that follow the bytes `before` are read back as they were, and none of
/// them is cut off.
pub proof fn law_records_read_back(before: Seq<u8>, records: Seq<(u64, Seq<u8>)>)
    requires
        forall|i: int| 0 <= i < records.len() ==> (#[trigger] records[i]).1.len() <= u16::MAX,
    ensures
        records_from(before + records_bytes(records), before.len() as int) == records,
        !cut_off(before + records_bytes(records), before.len() as int),
    decreases records.len(),
{
    let b = before + records_bytes(records);
    let at = before.len() as int;
    if records.len() > 0 {
        let record = records[0];
        let rest = records.drop_first();
        let head = record_bytes(record);
        let len = record.1.len() as u16;
        assert(b =~= before + head + records_bytes(rest));
        assert(b.subrange(at, at + 8) =~= le64_bytes(record.0).subrange(0, 8));
        lemma_le_same_bytes(b, at, le64_bytes(record.0), 0, 8);
        lemma_le64_round_trip(record.0);
        assert(b.subrange(at + 8, at + 10) =~= le16_bytes(len).subrange(0, 2));
        lemma_le_same_bytes(b, at + 8, le16_bytes(len), 0, 2);
        lemma_le16_round_trip(len);
        assert(b.subrange(at + 10, at + 10 + len) =~= record.1);
        assert(record_at(b, at) == Some(Ok::<(u64, Seq<u8>), FixtureError>(record)));
        assert forall|i: int| 0 <= i < rest.len() implies (#[trigger] rest[i]).1.len()
            <= u16::MAX by {
            assert(rest[i] == records[i + 1]);
        }
        law_records_read_back(before + head, rest);
        assert((before + head).len() == at + 10 + len);
        assert(seq![record] + rest =~= records);
    } else {
        assert(b =~= before);
    }
}

/// A record appended to records makes the records with that one at the end.
pub proof fn law_record_appended(records: Seq<(u64, Seq<u8>)>, record: (u64, Seq<u8>))
    ensures
        records_bytes(records.push(record)) == records_bytes(records) + record_bytes(record),
    decreases records.len(),
{
    let all = records.push(record);
    if records.len() == 0 {
        assert(records_bytes(all.drop_first()) == Seq::<u8>::empty());
        assert(records_bytes(all) == record_bytes(record) + records_bytes(all.drop_first()));
        assert(records_bytes(records) == Seq::<u8>::empty());
        assert(record_bytes(record) + Seq::<u8>::empty() =~= Seq::<u8>::empty() + record_bytes(
            record,
        ));
    } else {
        law_record_appended(records.drop_first(), record);
        assert(all.drop_first() =~= records.drop_first().push(record));
        assert(records_bytes(all) =~= records_bytes(records) + record_bytes(record));
    }
}

/// What a writer has been given, from the beginning, reads back as that.
pub proof fn law_written_reads_back(records: Seq<(u64, Seq<u8>)>)
    requires
        forall|i: int| 0 <= i < records.len() ==> (#[trigger] records[i]).1.len() <= u16::MAX,
    ensures
        records_from(magic() + records_bytes(records), 8) == records,
        !cut_off(magic() + records_bytes(records), 8),
{
    law_records_read_back(magic(), records);
}

/// A fixture starts with the text `SHREDS`, a zero byte and the version, which is one.
pub proof fn law_magic()
    ensures
        magic() == ascii("SHREDS"@) + seq![0u8, 1u8],
{
    reveal_strlit("SHREDS");
    assert(magic() =~= ascii("SHREDS"@) + seq![0u8, 1u8]);
}

/// A record is the time in eight bytes, the length of the packet in two, and the packet.
pub proof fn law_record_layout(record: (u64, Seq<u8>))
    requires
        record.1.len() <= u16::MAX,
    ensures
        ({
            let b = record_bytes(record);
            &&& b.len() == 10 + record.1.len()
            &&& le64(b, 0) == record.0
            &&& le16(b, 8) == record.1.len()
            &&& b.skip(10) == record.1
        }),
{
    let b = record_bytes(record);
    let len = record.1.len() as u16;
    assert(b.subrange(0, 8) =~= le64_bytes(record.0).subrange(0, 8));
    lemma_le_same_bytes(b, 0, le64_bytes(record.0), 0, 8);
    lemma_le64_round_trip(record.0);
    assert(b.subrange(8, 10) =~= le16_bytes(len).subrange(0, 2));
    lemma_le_same_bytes(b, 8, le16_bytes(len), 0, 2);
    lemma_le16_round_trip(len);
    assert(b.skip(10) =~= record.1);
}

/// Records are read one after the other, whatever follows them.
proof fn lemma_records_then(before: Seq<u8>, records: Seq<(u64, Seq<u8>)>, tail: Seq<u8>)
    requires
        forall|i: int| 0 <= i < records.len() ==> (#[trigger] records[i]).1.len() <= u16::MAX,
    ensures
        ({
            let b = before + records_bytes(records) + tail;
            let end = before.len() + records_bytes(records).len();
            &&& records_from(b, before.len() as int) == records + records_from(b, end as int)
            &&& cut_off(b, before.len() as int) == cut_off(b, end as int)
        }),
    decreases records.len(),
{
    let b = before + records_bytes(records) + tail;
    let at = before.len() as int;
    if records.len() > 0 {
        let record = records[0];
        let rest = records.drop_first();
        let head = record_bytes(record);
        law_record_layout(record);
        assert(b =~= (before + head) + records_bytes(rest) + tail);
        let len = record.1.len() as int;
        assert(b.subrange(at, at + 8) =~= head.subrange(0, 8));
        lemma_le_same_bytes(b, at, head, 0, 8);
        assert(b.subrange(at + 8, at + 10) =~= head.subrange(8, 10));
        lemma_le_same_bytes(b, at + 8, head, 8, 2);
        assert(b.subrange(at + 10, at + 10 + len) =~= head.skip(10));
        assert(record_at(b, at) == Some(Ok::<(u64, Seq<u8>), FixtureError>(record)));
        assert forall|i: int| 0 <= i < rest.len() implies (#[trigger] rest[i]).1.len()
            <= u16::MAX by {
            assert(rest[i] == records[i + 1]);
        }
        lemma_records_then(before + head, rest, tail);
        assert((before + head).len() == at + 10 + len);
        let end = before.len() + records_bytes(records).len();
        assert(end == (before + head).len() + records_bytes(rest).len());
        assert(records + records_from(b, end as int) =~= seq![record] + (rest + records_from(
            b,
            end as int,
        )));
    } else {
        assert(records + records_from(b, at) =~= records_from(b, at));
    }
}

/// A fixture that ends early gives all records before. Where it ends in the time or
/// length of one, that one is as if it were not there; where it ends in the packet,
/// it is cut off.
pub proof fn law_fixture_that_ends_early(
    records: Seq<(u64, Seq<u8>)>,
    last: (u64, Seq<u8>),
    n: int,
)
    requires
        forall|i: int| 0 <= i < records.len() ==> (#[trigger] records[i]).1.len() <= u16::MAX,
        last.1.len() <= u16::MAX,
        0 <= n < 10 + last.1.len(),
    ensures
        ({
            let b = magic() + records_bytes(records) + record_bytes(last).take(n);
            &&& records_from(b, 8) == records
            &&& cut_off(b, 8) <==> n >= 10
        }),
{
    let head = record_bytes(last);
    let tail = head.take(n);
    let b = magic() + records_bytes(records) + tail;
    lemma_records_then(magic(), records, tail);
    law_record_layout(last);
    let end = 8 + records_bytes(records).len() as int;
    if n >= 10 {
        assert(b.subrange(end + 8, end + 10) =~= head.subrange(8, 10));
        lemma_le_same_bytes(b, end + 8, head, 8, 2);
    }
    assert(records_from(b, end) =~= Seq::empty());
    assert(records + Seq::<(u64, Seq<u8>)>::empty() =~= records);
}

/// Replaying some records and then others is replaying all of them.
#[verifier::spinoff_prover]
#[verifier::rlimit(50)]
pub proof fn law_replay_in_steps(
    m: DeshredderModel,
    a: Seq<(u64, Seq<u8>)>,
    b: Seq<(u64, Seq<u8>)>,
)
    ensures
        replayed(m, a + b) == replayed(replayed(m, a), b),
        replayed_batches(m, a + b) == replayed_batches(m, a) + replayed_batches(
            replayed(m, a),
            b,
        ),
    decreases b.len(),
{
    if b.len() == 0 {
        assert(a + b =~= a);
        assert(replayed_batches(m, a) + Seq::<BatchModel>::empty() =~= replayed_batches(m, a));
    } else {
        assert((a + b).drop_last() =~= a + b.drop_last());
        law_replay_in_steps(m, a, b.drop_last());
        assert(replayed_batches(m, a + b) =~= replayed_batches(m, a) + replayed_batches(
            replayed(m, a),
            b,
        ));
    }
}

/// Replaying one record is pushing its packet; when it was received does not matter.
pub proof fn law_replay_of_one(m: DeshredderModel, record: (u64, Seq<u8>))
    ensures
        replayed(m, seq![record]) == m.pushed(record.1),
        replayed_batches(m, seq![record]) == m.batches(record.1),
{
    reveal_with_fuel(replayed, 2);
    reveal_with_fuel(replayed_batches, 2);
    assert(seq![record].drop_last() =~= Seq::empty());
    assert(seq![record].last() == record);
    assert(replayed_batches(m, seq![record]) =~= m.batches(record.1));
}

/// Frames datagrams as records, to be written wherever they are kept.
pub struct Writer {
    bytes: Vec<u8>,
}

impl View for Writer {
    type V = Seq<u8>;

    /// The bytes that have not been taken out.
    closed spec fn view(&self) -> Seq<u8> {
        self.bytes@
    }
}

impl Writer {
    /// A writer that holds the magic.
    pub fn new() -> (writer: Self)
        ensures
            writer@ == magic(),
    {
        let bytes: Vec<u8> = vec![83, 72, 82, 69, 68, 83, 0, 1];
        assert(bytes@ =~= magic());
        Writer { bytes }
    }

    /// Append a datagram received at `unix_nanos`.
    pub fn write_at(&mut self, unix_nanos: u64, packet: &[u8]) -> (written: Result<
        (),
        FixtureError,
    >)
        ensures
            match written {
                Ok(_) => packet@.len() <= u16::MAX && final(self)@ == old(self)@ + record_bytes(
                    (unix_nanos, packet@),
                ),
                Err(error) => packet@.len() > u16::MAX && error == FixtureError::PacketTooLong
                    && final(self)@ == old(self)@,
            },
    {
        if packet.len() > 0xFFFF {
            return Err(FixtureError::PacketTooLong);
        }
        push_u64(&mut self.bytes, unix_nanos);
        push_u16(&mut self.bytes, packet.len() as u16);
        buffer::append(&mut self.bytes, packet);
        assert(self@ =~= old(self)@ + record_bytes((unix_nanos, packet@)));
        Ok(())
    }

    /// Take out the bytes that were added since they were last taken out.
    pub fn take_bytes(&mut self) -> (bytes: Vec<u8>)
        ensures
            bytes@ == old(self)@,
            final(self)@ == Seq::<u8>::empty(),
    {
        let mut bytes: Vec<u8> = Vec::new();
        std::mem::swap(&mut bytes, &mut self.bytes);
        bytes
    }
}

/// Reads the records of a fixture.
pub struct Reader<'a> {
    bytes: &'a [u8],
    offset: usize,
}

impl<'a> View for Reader<'a> {
    type V = (Seq<u8>, int);

    /// The bytes of the fixture, and where the next record is.
    closed spec fn view(&self) -> (Seq<u8>, int) {
        (self.bytes@, self.offset as int)
    }
}

impl<'a> Reader<'a> {
    #[verifier::type_invariant]
    spec fn well_formed(&self) -> bool {
        self.offset <= self.bytes.len()
    }

    /// Read from the bytes of a fixture.
    pub fn new(bytes: &'a [u8]) -> (reader: Result<Self, FixtureError>)
        ensures
            match reader {
                Ok(reader) => bytes@.len() >= 8 && bytes@.take(8) == magic() && reader@ == (
                    bytes@,
                    8int,
                ),
                Err(FixtureError::TooShort) => bytes@.len() < 8,
                Err(error) => bytes@.len() >= 8 && bytes@.take(8) != magic() && error
                    == FixtureError::NotAFixture,
            },
    {
        if bytes.len() < 8 {
            return Err(FixtureError::TooShort);
        }
        let wanted: [u8; 8] = [83, 72, 82, 69, 68, 83, 0, 1];
        assert(wanted@ =~= magic());
        if !buffer::same_bytes(&bytes[0..8], &wanted) {
            return Err(FixtureError::NotAFixture);
        }
        Ok(Reader { bytes, offset: 8 })
    }

    /// The next record. `None` at the end, also where the time and length of a
    /// record are cut off; a record that is cut off inside its packet is an error,
    /// after which there is nothing more.
    pub fn next(&mut self) -> (item: Option<Result<Record, FixtureError>>)
        ensures
            final(self)@.0 == old(self)@.0,
            0 <= old(self)@.1 <= old(self)@.0.len(),
            match item {
                None => record_at(old(self)@.0, old(self)@.1) is None && final(self)@.1
                    == old(self)@.0.len(),
                Some(Ok(record)) => record_at(old(self)@.0, old(self)@.1) == Some(
                    Ok::<(u64, Seq<u8>), FixtureError>(record@),
                ) && final(self)@.1 == old(self)@.1 + 10 + record@.1.len(),
                Some(Err(error)) => record_at(old(self)@.0, old(self)@.1) == Some(
                    Err::<(u64, Seq<u8>), FixtureError>(error),
                ) && final(self)@.1 == old(self)@.0.len(),
            },
    {
        proof {
            use_type_invariant(&*self);
        }
        let bytes: &'a [u8] = self.bytes;
        let at: usize = self.offset;
        if bytes.len() - at < 10 {
            self.offset = bytes.len();
            return None;
        }
        let len: usize = u16_at(bytes, at + 8) as usize;
        if bytes.len() - at - 10 < len {
            self.offset = bytes.len();
            return Some(Err(FixtureError::Truncated));
        }
        let unix_nanos: u64 = u64_at(bytes, at);
        let packet: Vec<u8> = vstd::slice::slice_to_vec(&bytes[at + 10..at + 10 + len]);
        self.offset = at + 10 + len;
        Some(Ok(Record { unix_nanos, packet }))
    }
}

/// A deshredder once records have been pushed through it.
pub open spec fn replayed(m: DeshredderModel, records: Seq<(u64, Seq<u8>)>) -> DeshredderModel
    decreases records.len(),
{
    if records.len() == 0 {
        m
    } else {
        replayed(m, records.drop_last()).pushed(records.last().1)
    }
}

/// The batches that come out of pushing records through a deshredder.
pub open spec fn replayed_batches(m: DeshredderModel, records: Seq<(u64, Seq<u8>)>) -> Seq<
    BatchModel,
>
    decreases records.len(),
{
    if records.len() == 0 {
        Seq::empty()
    } else {
        replayed_batches(m, records.drop_last()) + replayed(m, records.drop_last()).batches(
            records.last().1,
        )
    }
}

/// Whether pushing `records` through `m` gives `now`, and hands over what takes the
/// sink `before` to `after`.
#[verifier::opaque]
spec fn is_replay<S: EntrySink>(
    m: DeshredderModel,
    before: S,
    records: Seq<(u64, Seq<u8>)>,
    now: DeshredderModel,
    after: S,
) -> bool {
    &&& now == replayed(m, records)
    &&& handed(before, replayed_batches(m, records), after)
}

/// Nothing pushed yet.
proof fn lemma_replay_start<S: EntrySink>(m: DeshredderModel, before: S)
    ensures
        is_replay(m, before, Seq::empty(), m, before),
{
    reveal(is_replay);
    lemma_handed_none(before);
}

/// Pushing one more record.
proof fn lemma_replay_step<S: EntrySink>(
    m: DeshredderModel,
    before: S,
    records: Seq<(u64, Seq<u8>)>,
    now: DeshredderModel,
    mid: S,
    record: (u64, Seq<u8>),
    after: S,
)
    requires
        is_replay(m, before, records, now, mid),
        handed(mid, now.batches(record.1), after),
    ensures
        is_replay(m, before, records.push(record), now.pushed(record.1), after),
{
    reveal(is_replay);
    assert(records.push(record).drop_last() =~= records);
    law_handed_in_steps(
        before,
        replayed_batches(m, records),
        mid,
        now.batches(record.1),
        after,
    );
}

/// Push every record of a fixture through `deshredder`, handing batches to
/// `sink`. Returns the number of packets replayed, or the error with which the
/// fixture ends; the records before it have been replayed.
pub fn replay<S: EntrySink>(
    reader: Reader<'_>,
    deshredder: &mut Deshredder,
    sink: &mut S,
) -> (count: Result<usize, FixtureError>)
    requires
        old(deshredder).wf(),
    ensures
        final(deshredder).wf(),
        ({
            let records = records_from(reader@.0, reader@.1);
            &&& final(deshredder)@ == replayed(old(deshredder)@, records)
            &&& handed(*old(sink), replayed_batches(old(deshredder)@, records), *final(sink))
            &&& match count {
                Ok(count) => !cut_off(reader@.0, reader@.1) && count == records.len(),
                Err(error) => cut_off(reader@.0, reader@.1) && error == FixtureError::Truncated,
            }
        }),
{
    let count = replay_all(reader, deshredder, sink);
    reveal(is_replay);
    count
}

fn replay_all<S: EntrySink>(
    reader: Reader<'_>,
    deshredder: &mut Deshredder,
    sink: &mut S,
) -> (count: Result<usize, FixtureError>)
    requires
        old(deshredder).wf(),
    ensures
        final(deshredder).wf(),
        is_replay(
            old(deshredder)@,
            *old(sink),
            records_from(reader@.0, reader@.1),
            final(deshredder)@,
            *final(sink),
        ),
        match count {
            Ok(count) => !cut_off(reader@.0, reader@.1) && count == records_from(
                reader@.0,
                reader@.1,
            ).len(),
            Err(error) => cut_off(reader@.0, reader@.1) && error == FixtureError::Truncated,
        },
{
    let ghost start = reader@;
    let mut rest = reader;
    let ghost m = deshredder@;
    let ghost before = *sink;
    let ghost all = records_from(start.0, start.1);
    let ghost mut done: Seq<(u64, Seq<u8>)> = Seq::empty();
    let mut count: usize = 0;
    proof {
        use_type_invariant(&rest);
        lemma_replay_start(m, before);
        assert(done + all =~= all);
    }
    loop
        invariant
            deshredder.wf(),
            start == reader@,
            rest@.0 == start.0,
            all == records_from(start.0, start.1),
            m == old(deshredder)@,
            before == *old(sink),
            is_replay(m, before, done, deshredder@, *sink),
            done + records_from(start.0, rest@.1) == all,
            cut_off(start.0, rest@.1) == cut_off(start.0, start.1),
            count == done.len(),
            0 <= count <= rest@.1,
        decreases start.0.len() - rest@.1,
    {
        let record: Record = match rest.next() {
            None => {
                assert(done + Seq::<(u64, Seq<u8>)>::empty() =~= done);
                return Ok(count);
            },
            Some(Err(error)) => {
                assert(done + Seq::<(u64, Seq<u8>)>::empty() =~= done);
                return Err(error);
            },
            Some(Ok(record)) => record,
        };
        let ghost taken = record@;
        assert(done.push(taken) + records_from(start.0, rest@.1) =~= done + (seq![taken]
            + records_from(start.0, rest@.1)));
        replay_one(record, deshredder, sink, Ghost(m), Ghost(before), Ghost(done));
        proof {
            done = done.push(taken);
        }
        count = count + 1;
    }
}

/// Push a record through `deshredder`, handing batches to `sink`.
fn replay_one<S: EntrySink>(
    record: Record,
    deshredder: &mut Deshredder,
    sink: &mut S,
    Ghost(m): Ghost<DeshredderModel>,
    Ghost(before): Ghost<S>,
    Ghost(done): Ghost<Seq<(u64, Seq<u8>)>>,
)
    requires
        old(deshredder).wf(),
        is_replay(m, before, done, old(deshredder)@, *old(sink)),
    ensures
        final(deshredder).wf(),
        is_replay(m, before, done.push(record@), final(deshredder)@, *final(sink)),
{
    let ghost now = deshredder@;
    let ghost mid = *sink;
    let ghost taken = record@;
    let mut out: Vec<EntryBatch> = Vec::new();
    deshredder.push(buffer::from_vec(record.packet), &mut out);
    assert(batch_models(out@) =~= now.batches(taken.1));
    hand_over(out, sink);
    proof {
        lemma_replay_step(m, before, done, now, mid, taken, *sink);
    }
}

/// Hand batches to a sink, in their order.
fn hand_over<S: EntrySink>(batches: Vec<EntryBatch>, sink: &mut S)
    ensures
        handed(*old(sink), batch_models(batches@), *final(sink)),
{
    let ghost before = *sink;
    let ghost all = batch_models(batches@);
    let ghost listed = batches@;
    assert(all.take(0) =~= Seq::empty());
    proof {
        lemma_handed_none(before);
    }
    for batch in it: batches
        invariant
            it.seq() == listed,
            all == batch_models(listed),
            handed(before, all.take(it.index() as int), *sink),
    {
        let ghost n = it.index() as int;
        let ghost mid = *sink;
        let ghost given = batch@;
        sink.on_batch(batch);
        proof {
            lemma_handed_one(mid, given, *sink);
            law_handed_in_steps(before, all.take(n), mid, seq![given], *sink);
        }
        assert(all.take(n) + seq![given] =~= all.take(n + 1));
    }
    assert(all.take(listed.len() as int) =~= all);
}

} // verus!

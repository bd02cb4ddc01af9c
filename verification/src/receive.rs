//! The receiving side without its socket: what becomes of a filled receive
//! buffer, and what the receiver does next.

use crate::buffer::contents;
use crate::shred::MAX_PACKET_SIZE;
use crate::stats;
use crate::stats::counted;
use bytes::{Bytes, BytesMut};
use vstd::prelude::*;

verus! {

/// Datagrams drained per receive call.
pub const BATCH: usize = 64;

/// The growable buffer of the `bytes` crate.
#[verifier::external_type_specification]
#[verifier::external_body]
pub struct ExBytesMut(bytes::BytesMut);

/// The bytes that a receive buffer holds.
pub uninterp spec fn held(buffer: BytesMut) -> Seq<u8>;

/// Calls `BytesMut::len`: the number of bytes held.
#[verifier::external_body]
fn held_len(buffer: &BytesMut) -> (len: usize)
    ensures
        len == held(*buffer).len(),
{
    buffer.len()
}

/// Calls `BytesMut::split_to`, which panics past the end: the first `at` bytes come
/// off the buffer, the others stay.
#[verifier::external_body]
fn split_to(buffer: &mut BytesMut, at: usize) -> (front: BytesMut)
    requires
        at <= held(*old(buffer)).len(),
    ensures
        held(front) == held(*old(buffer)).take(at as int),
        held(*final(buffer)) == held(*old(buffer)).skip(at as int),
{
    buffer.split_to(at)
}

/// Calls `BytesMut::truncate`: keeps the first `len` bytes, or all of them where
/// there are no more than that.
#[verifier::external_body]
fn shorten(buffer: &mut BytesMut, len: usize)
    ensures
        held(*final(buffer)) == (if len < held(*old(buffer)).len() {
            held(*old(buffer)).take(len as int)
        } else {
            held(*old(buffer))
        }),
{
    buffer.truncate(len)
}

/// Calls `BytesMut::freeze`: the same bytes, no longer to be written to.
#[verifier::external_body]
fn freeze(buffer: BytesMut) -> (frozen: Bytes)
    ensures
        contents(frozen) == held(buffer),
{
    buffer.freeze()
}

/// The `i`th datagram of a receive buffer, `len` bytes long. Each has room for
/// `MAX_PACKET_SIZE` bytes, and is no longer than that.
pub open spec fn datagram(buffer: Seq<u8>, i: int, len: int) -> Seq<u8> {
    buffer.subrange(
        i * MAX_PACKET_SIZE,
        i * MAX_PACKET_SIZE + (if len < MAX_PACKET_SIZE {
            len
        } else {
            MAX_PACKET_SIZE as int
        }),
    )
}

/// A receive buffer, of the room for each datagram one after the other.
pub open spec fn laid_out(rooms: Seq<Seq<u8>>) -> Seq<u8>
    decreases rooms.len(),
{
    if rooms.len() == 0 {
        Seq::empty()
    } else {
        laid_out(rooms.drop_last()) + rooms.last()
    }
}

/// A datagram is the front of its own room of 1232 bytes, as long as it says or as
/// the room is.
pub proof fn law_datagram_is_in_its_room(rooms: Seq<Seq<u8>>, i: int, len: int)
    requires
        forall|j: int| 0 <= j < rooms.len() ==> (#[trigger] rooms[j]).len() == 1232,
        0 <= i < rooms.len(),
        0 <= len,
    ensures
        laid_out(rooms).len() == 1232 * rooms.len(),
        len <= 1232 ==> datagram(laid_out(rooms), i, len) == rooms[i].take(len),
        len > 1232 ==> datagram(laid_out(rooms), i, len) == rooms[i],
    decreases rooms.len(),
{
    let front = rooms.drop_last();
    assert(rooms[rooms.len() - 1].len() == 1232);
    assert forall|j: int| 0 <= j < front.len() implies (#[trigger] front[j]).len() == 1232 by {
        assert(front[j] == rooms[j]);
    }
    if front.len() == 0 {
        assert(laid_out(front) == Seq::<u8>::empty());
        assert(laid_out(rooms) =~= rooms[0]);
    } else {
        law_datagram_is_in_its_room(
            front,
            if i < front.len() {
                i
            } else {
                0
            },
            len,
        );
    }
    let n = if len < 1232 {
        len
    } else {
        1232
    };
    let all = laid_out(rooms);
    assert(all =~= laid_out(front) + rooms.last());
    assert(laid_out(front).len() == 1232 * front.len());
    assert(rooms[i].len() == 1232);
    if i < front.len() {
        assert(front[i] == rooms[i]);
        assert(datagram(all, i, len) =~= datagram(laid_out(front), i, len));
    } else {
        assert(datagram(all, i, len) =~= rooms[i].take(n));
    }
    assert(rooms[i].take(1232) =~= rooms[i]);
}

/// How many datagrams there are in a receive buffer of `size` bytes, where so many
/// lengths are given.
pub open spec fn num_datagrams(size: nat, lens: nat) -> nat {
    if lens < size / (MAX_PACKET_SIZE as nat) {
        lens
    } else {
        size / (MAX_PACKET_SIZE as nat)
    }
}

/// There is a datagram for every length and in every room, as long as there are both.
pub proof fn law_number_of_datagrams(rooms: Seq<Seq<u8>>, lens: nat)
    requires
        forall|j: int| 0 <= j < rooms.len() ==> (#[trigger] rooms[j]).len() == 1232,
    ensures
        lens <= rooms.len() ==> num_datagrams(laid_out(rooms).len(), lens) == lens,
        lens > rooms.len() ==> num_datagrams(laid_out(rooms).len(), lens) == rooms.len(),
{
    if rooms.len() > 0 {
        law_datagram_is_in_its_room(rooms, 0, 0);
    }
}

/// Hand out the datagrams of a receive buffer, as slices of it. There are as many
/// as `lens` gives lengths for, or as the buffer has room for. Returns how many.
pub fn datagrams(buffer: BytesMut, lens: &[usize], out: &mut Vec<Bytes>) -> (received: usize)
    ensures
        received == num_datagrams(held(buffer).len(), lens@.len()),
        received == (if lens@.len() < held(buffer).len() / (MAX_PACKET_SIZE as nat) {
            lens@.len()
        } else {
            held(buffer).len() / (MAX_PACKET_SIZE as nat)
        }),
        final(out)@.len() == old(out)@.len() + received,
        final(out)@.take(old(out)@.len() as int) == old(out)@,
        forall|i: int|
            0 <= i < received ==> contents(#[trigger] final(out)@[old(out)@.len() + i])
                == datagram(held(buffer), i, lens@[i] as int),
{
    let ghost all = held(buffer);
    let mut rest: BytesMut = buffer;
    let mut i: usize = 0;
    assert(all.skip(0) =~= all);
    assert(out@.take(out@.len() as int) =~= out@);
    while i < lens.len() && held_len(&rest) >= MAX_PACKET_SIZE
        invariant
            i <= lens@.len(),
            i * MAX_PACKET_SIZE <= all.len(),
            held(rest) == all.skip(i * MAX_PACKET_SIZE),
            out@.len() == old(out)@.len() + i,
            out@.take(old(out)@.len() as int) == old(out)@,
            forall|k: int|
                0 <= k < i ==> contents(#[trigger] out@[old(out)@.len() + k]) == datagram(
                    all,
                    k,
                    lens@[k] as int,
                ),
        decreases lens@.len() - i,
    {
        let ghost before = out@;
        let mut packet: BytesMut = split_to(&mut rest, MAX_PACKET_SIZE);
        shorten(&mut packet, lens[i]);
        assert(held(packet) =~= datagram(all, i as int, lens@[i as int] as int));
        out.push(freeze(packet));
        assert(out@.take(old(out)@.len() as int) =~= before.take(old(out)@.len() as int));
        assert forall|k: int| 0 <= k < i implies contents(#[trigger] out@[old(out)@.len() + k])
            == datagram(all, k, lens@[k] as int) by {
            assert(out@[old(out)@.len() + k] == before[old(out)@.len() + k]);
        }
        i = i + 1;
        assert(held(rest) =~= all.skip(i * MAX_PACKET_SIZE));
    }
    i
}

/// What the receiver hears back from what it does.
#[derive(Debug, Clone, Copy, PartialEq, Eq, Structural)]
pub enum Event {
    /// Whether a shutdown was requested.
    Polled { stop: bool },
    /// Datagrams were received, or none before the timeout.
    Received { datagrams: usize },
    /// Receiving failed.
    Failed,
    /// A datagram went to the worker.
    Delivered,
    /// The worker cannot keep up: a datagram was dropped.
    Full,
    /// The worker is gone.
    Disconnected,
}

/// What the receiver does next.
#[derive(Debug, Clone, Copy, PartialEq, Eq, Structural)]
pub enum Action {
    /// See whether a shutdown was requested.
    Poll,
    /// Receive a batch of datagrams.
    Receive,
    /// Pass the next datagram of the batch to the worker.
    Send,
    Stop,
}

/// The receiver's state between two actions.
#[derive(Debug, Clone, Copy, PartialEq, Eq, Structural)]
pub struct Intake {
    /// Datagrams of the batch that are yet to be passed on.
    pub pending: usize,
    /// Datagrams dropped because the worker could not keep up.
    pub dropped: u64,
}

/// Whether a datagram of the batch is dealt with.
pub open spec fn passes_on(event: Event) -> bool {
    event is Delivered || event is Full || event is Disconnected
}

impl Intake {
    /// The state after an event.
    pub open spec fn after(self, event: Event) -> Intake {
        Intake {
            pending: match event {
                Event::Received { datagrams } => datagrams,
                _ => if passes_on(event) && self.pending > 0 {
                    (self.pending - 1) as usize
                } else {
                    self.pending
                },
            },
            dropped: if event is Full {
                counted(self.dropped, 1)
            } else {
                self.dropped
            },
        }
    }

    /// What is done about an event: a shutdown takes effect between batches, a batch
    /// is passed on to its end, and only a worker that is gone ends it early.
    pub open spec fn action(self, event: Event) -> Action {
        match event {
            Event::Polled { stop } => if stop {
                Action::Stop
            } else {
                Action::Receive
            },
            Event::Disconnected => Action::Stop,
            Event::Failed => Action::Poll,
            _ => if self.after(event).pending > 0 {
                Action::Send
            } else {
                Action::Poll
            },
        }
    }

    /// The state after some events.
    pub open spec fn after_all(self, events: Seq<Event>) -> Intake
        decreases events.len(),
    {
        if events.len() == 0 {
            self
        } else {
            self.after_all(events.drop_last()).after(events.last())
        }
    }

    /// Nothing received yet.
    pub fn new() -> (intake: Intake)
        ensures
            intake.pending == 0,
            intake.dropped == 0,
    {
        Intake { pending: 0, dropped: 0 }
    }

    /// Take note of an event and decide what to do next.
    pub fn next(&mut self, event: Event) -> (action: Action)
        ensures
            *final(self) == old(self).after(event),
            action == old(self).action(event),
    {
        match event {
            Event::Polled { stop } => {
                if stop {
                    Action::Stop
                } else {
                    Action::Receive
                }
            },
            Event::Failed => Action::Poll,
            Event::Received { datagrams } => {
                self.pending = datagrams;
                self.go_on()
            },
            Event::Delivered => {
                self.passed_on();
                self.go_on()
            },
            Event::Full => {
                self.passed_on();
                stats::count(&mut self.dropped, 1);
                self.go_on()
            },
            Event::Disconnected => {
                self.passed_on();
                Action::Stop
            },
        }
    }

    fn passed_on(&mut self)
        ensures
            final(self).pending == (if old(self).pending > 0 {
                old(self).pending - 1
            } else {
                0
            }),
            final(self).dropped == old(self).dropped,
    {
        if self.pending > 0 {
            self.pending = self.pending - 1;
        }
    }

    fn go_on(&self) -> (action: Action)
        ensures
            action == (if self.pending > 0 {
                Action::Send
            } else {
                Action::Poll
            }),
    {
        if self.pending > 0 {
            Action::Send
        } else {
            Action::Poll
        }
    }

    /// Every datagram of a batch is dealt with once: where a batch is received and as
    /// many datagrams are passed on as it holds, each is delivered or counted as
    /// dropped, the receiver sends until then, and polls after that.
    pub proof fn law_batch_is_passed_on(self, datagrams: usize, outcomes: Seq<bool>)
        requires
            outcomes.len() <= datagrams,
        ensures
            ({
                let events = seq![Event::Received { datagrams }] + outcomes.map_values(
                    |delivered: bool|
                        if delivered {
                            Event::Delivered
                        } else {
                            Event::Full
                        },
                );
                let last = self.after_all(events.drop_last());
                &&& self.after_all(events).pending == datagrams - outcomes.len()
                &&& self.after_all(events).dropped == counted(
                    self.dropped,
                    outcomes.filter(|delivered: bool| !delivered).len(),
                )
                &&& last.action(events.last()) == (if outcomes.len() < datagrams {
                    Action::Send
                } else {
                    Action::Poll
                })
            }),
        decreases outcomes.len(),
    {
        let event = |delivered: bool|
            if delivered {
                Event::Delivered
            } else {
                Event::Full
            };
        let dropped = |delivered: bool| !delivered;
        let first = seq![Event::Received { datagrams }];
        let events = first + outcomes.map_values(event);
        if outcomes.len() == 0 {
            assert(events =~= first);
            assert(events.drop_last() =~= Seq::empty());
            assert(outcomes.filter(dropped).len() == 0) by {
                reveal(Seq::filter);
            }
            assert(self.after_all(events) == self.after(events.last()));
        } else {
            let fewer = outcomes.drop_last();
            self.law_batch_is_passed_on(datagrams, fewer);
            assert(events.drop_last() =~= first + fewer.map_values(event));
            assert(events.last() == event(outcomes.last()));
            assert(outcomes.filter(dropped).len() == fewer.filter(dropped).len() + (
            if outcomes.last() {
                0nat
            } else {
                1nat
            })) by {
                reveal(Seq::filter);
            }
        }
    }
}

impl Intake {
    /// A shutdown that was asked for ends the receiver when it polls, and a worker that
    /// is gone ends it at once; nothing else does. It receives only when it polled, and
    /// sends only while there is something to pass on. Polling and a failure to
    /// receive leave the batch and the count of what was dropped alone.
    pub proof fn law_what_is_next(self, event: Event)
        ensures
            self.action(event) == Action::Stop <==> event is Disconnected || event
                == (Event::Polled { stop: true }),
            self.action(event) == Action::Receive <==> event == (Event::Polled { stop: false }),
            self.action(event) == Action::Send <==> match event {
                Event::Received { datagrams } => datagrams > 0,
                Event::Delivered | Event::Full => self.pending > 1,
                _ => false,
            },
            event is Polled || event is Failed ==> self.after(event) == self,
            event is Disconnected ==> self.after(event).dropped == self.dropped,
    {
    }
}

/// Milliseconds between two looks at the clock.
pub const TICK_MS: u64 = 200;

/// Tells when a stats line is due.
#[derive(Debug, Clone, Copy, PartialEq, Eq, Structural)]
pub struct Ticker {
    /// Milliseconds since the last stats line.
    pub elapsed_ms: u128,
}

impl Ticker {
    /// Whether a line is due once another `TICK_MS` have passed.
    pub open spec fn is_due(self, every_secs: u64) -> bool {
        every_secs > 0 && self.elapsed_ms + TICK_MS >= every_secs * 1000
    }

    /// The ticker once another `TICK_MS` have passed.
    pub open spec fn ticked(self, every_secs: u64) -> Ticker {
        Ticker {
            elapsed_ms: if self.is_due(every_secs) {
                0
            } else if self.elapsed_ms + TICK_MS <= u128::MAX {
                (self.elapsed_ms + TICK_MS) as u128
            } else {
                u128::MAX
            },
        }
    }

    /// The ticker after `n` ticks.
    pub open spec fn after_ticks(self, every_secs: u64, n: nat) -> Ticker
        decreases n,
    {
        if n == 0 {
            self
        } else {
            self.after_ticks(every_secs, (n - 1) as nat).ticked(every_secs)
        }
    }

    /// From one line to the next there are five ticks for every second: none of the
    /// ticks before is due, that one is, and the count starts over. With no seconds
    /// asked for, no tick ever is.
    pub proof fn law_lines_are_due(every_secs: u64, n: nat)
        ensures
            ({
                let start = Ticker { elapsed_ms: 0 };
                &&& n < 5 * every_secs ==> start.after_ticks(every_secs, n).elapsed_ms == 200 * n
                &&& n + 1 < 5 * every_secs ==> !start.after_ticks(every_secs, n).is_due(every_secs)
                &&& n + 1 == 5 * every_secs ==> start.after_ticks(every_secs, n).is_due(every_secs)
                &&& n > 0 && n == 5 * every_secs ==> start.after_ticks(every_secs, n) == start
                &&& !start.after_ticks(0, n).is_due(0)
            }),
        decreases n,
    {
        if n > 0 {
            Self::law_lines_are_due(every_secs, (n - 1) as nat);
        }
    }

    /// Start now.
    pub fn new() -> (ticker: Ticker)
        ensures
            ticker.elapsed_ms == 0,
    {
        Ticker { elapsed_ms: 0 }
    }

    /// Another `TICK_MS` have passed. Whether a line is due, with one every so many
    /// seconds, or none if that is zero.
    pub fn tick(&mut self, every_secs: u64) -> (due: bool)
        ensures
            due == old(self).is_due(every_secs),
            *final(self) == old(self).ticked(every_secs),
            ({
                let elapsed = if old(self).elapsed_ms + TICK_MS <= u128::MAX {
                    old(self).elapsed_ms + TICK_MS
                } else {
                    u128::MAX as int
                };
                &&& due == (every_secs > 0 && elapsed >= every_secs * 1000)
                &&& final(self).elapsed_ms == (if due {
                    0
                } else {
                    elapsed
                })
            }),
    {
        let elapsed: u128 = self.elapsed_ms.saturating_add(TICK_MS as u128);
        let due: bool = every_secs > 0 && elapsed >= every_secs as u128 * 1000;
        self.elapsed_ms = if due {
            0
        } else {
            elapsed
        };
        due
    }
}

} // verus!

//! Shreds in, transactions out.
//!
//! A Solana leader splits each block into shreds: ~1.2 KB UDP datagrams that
//! validators receive over turbine while the block is still being produced.
//! Receiving them directly means seeing transactions at the same time as the
//! validators, without waiting for the block to be confirmed and served
//! through RPC. This crate takes the datagrams and hands back the transactions
//! in them:
//!
//! ```text
//! datagram -> Shred (parse, validate)            shred.rs
//!          -> FecSet (Reed-Solomon recovery)     fec.rs
//!          -> SlotState (complete data runs)     slot.rs
//!          -> Entry batch (wincode decode)       entry.rs
//!          -> EntrySink                          sink.rs
//! ```
//!
//! [`Deshredder`] is the whole of it without sockets or threads, for feeding
//! packets from anywhere (see [`fixture`] for recorded captures). [`view`] reads
//! a deshredded segment in place, [`analysis`] tells from a capture what recovery
//! is worth, and [`receive`] is the receiving side without its socket.
//!
//! What the whole is for is stated in four modules of laws. [`history`] says what comes
//! of adding any shreds to a slot, [`block`] what comes of adding those of a block: its
//! entry batches come out, each once, whichever half of its shreds arrive and in
//! whatever order. [`run`] and [`degraded`] say the same of a deshredder and its packets,
//! and what its counters tell of loss and corruption.
//!
//! Six more say what each step does, in terms of what goes in and what comes out:
//! [`wire`] what a shred is made of, [`gather`] which shreds a FEC set takes and
//! rebuilds, [`assembly`] what becomes of a shred in its slot, [`window`] what becomes of
//! a packet, [`layout`] how a transaction is laid out for [`view`] to find, and
//! [`measure`] what the figures of [`analysis`] mean.
//!
//! What is deliberately not done: leader signature verification (it needs
//! the leader schedule) and PoH verification. Firewall the port to your
//! provider's source addresses.

pub mod analysis;
pub mod assembly;
pub mod bitset;
pub mod block;
pub mod buffer;
pub mod degraded;
pub mod deshredder;
pub mod entry;
pub mod fec;
pub mod fixture;
pub mod gather;
pub mod history;
pub mod layout;
pub mod le;
pub mod measure;
pub mod merkle;
pub mod receive;
pub mod run;
pub mod shred;
pub mod sink;
pub mod slot;
pub mod stats;
pub mod table;
pub mod view;
pub mod window;
pub mod wire;

pub use bytes::Bytes;
pub use deshredder::{Config, Deshredder, EntryBatch};
pub use entry::Entry;
pub use shred::Shred;
pub use sink::EntrySink;
pub use solana_transaction::versioned::VersionedTransaction;
pub use stats::{Snapshot, Stats};

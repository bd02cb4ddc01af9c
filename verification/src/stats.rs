//! Counters that tell what became of the packets.

use vstd::prelude::*;

verus! {

#[derive(Debug, Clone, Copy, PartialEq, Eq, Structural)]
pub struct Stats {
    /// Datagrams handed to the deshredder.
    pub packets: u64,
    /// Datagrams that are not a well formed shred.
    pub invalid: u64,
    /// Shreds with a shred version other than the configured one.
    pub wrong_version: u64,
    /// Shreds for a slot older than the retention window.
    pub stale: u64,
    /// Data shreds already present, because they arrived twice or were
    /// recovered before they arrived.
    pub duplicates: u64,
    /// Code shreds for FEC sets that already had all their data.
    pub unneeded: u64,
    /// Shreds whose Merkle root or signature disagree with their FEC set.
    pub rejected: u64,
    /// Data shreds rebuilt from code shreds.
    pub recovered: u64,
    /// FEC sets where recovery failed.
    pub recovery_failures: u64,
    /// Entry batches emitted.
    pub batches: u64,
    /// Completed payloads that were block markers, not entries.
    pub block_markers: u64,
    /// Completed payloads that did not decode.
    pub decode_errors: u64,
    pub entries: u64,
    pub transactions: u64,
    /// Datagrams dropped because the worker thread could not keep up.
    pub dropped: u64,
}

/// The counters at one moment.
#[derive(Debug, Default, Clone, Copy, PartialEq, Eq, Structural)]
pub struct Snapshot {
    pub packets: u64,
    pub invalid: u64,
    pub wrong_version: u64,
    pub stale: u64,
    pub duplicates: u64,
    pub unneeded: u64,
    pub rejected: u64,
    pub recovered: u64,
    pub recovery_failures: u64,
    pub batches: u64,
    pub block_markers: u64,
    pub decode_errors: u64,
    pub entries: u64,
    pub transactions: u64,
    pub dropped: u64,
}

/// A counter after `n` more, which wraps around at the end of its range.
pub open spec fn counted(counter: u64, n: nat) -> u64 {
    ((counter + n) % 0x1_0000_0000_0000_0000) as u64
}

impl Default for Stats {
    /// Counters that have not counted anything.
    fn default() -> (stats: Self)
        ensures
            stats == Self::zero(),
    {
        Stats {
            packets: 0,
            invalid: 0,
            wrong_version: 0,
            stale: 0,
            duplicates: 0,
            unneeded: 0,
            rejected: 0,
            recovered: 0,
            recovery_failures: 0,
            batches: 0,
            block_markers: 0,
            decode_errors: 0,
            entries: 0,
            transactions: 0,
            dropped: 0,
        }
    }
}

impl Stats {
    /// All counters at zero.
    pub open spec fn zero() -> Stats {
        Stats {
            packets: 0,
            invalid: 0,
            wrong_version: 0,
            stale: 0,
            duplicates: 0,
            unneeded: 0,
            rejected: 0,
            recovered: 0,
            recovery_failures: 0,
            batches: 0,
            block_markers: 0,
            decode_errors: 0,
            entries: 0,
            transactions: 0,
            dropped: 0,
        }
    }

    /// The counters as they are now.
    pub fn snapshot(&self) -> (snapshot: Snapshot)
        ensures
            snapshot == (Snapshot {
                packets: self.packets,
                invalid: self.invalid,
                wrong_version: self.wrong_version,
                stale: self.stale,
                duplicates: self.duplicates,
                unneeded: self.unneeded,
                rejected: self.rejected,
                recovered: self.recovered,
                recovery_failures: self.recovery_failures,
                batches: self.batches,
                block_markers: self.block_markers,
                decode_errors: self.decode_errors,
                entries: self.entries,
                transactions: self.transactions,
                dropped: self.dropped,
            }),
    {
        Snapshot {
            packets: self.packets,
            invalid: self.invalid,
            wrong_version: self.wrong_version,
            stale: self.stale,
            duplicates: self.duplicates,
            unneeded: self.unneeded,
            rejected: self.rejected,
            recovered: self.recovered,
            recovery_failures: self.recovery_failures,
            batches: self.batches,
            block_markers: self.block_markers,
            decode_errors: self.decode_errors,
            entries: self.entries,
            transactions: self.transactions,
            dropped: self.dropped,
        }
    }
}

/// Count `n` more.
pub fn count(counter: &mut u64, n: u64)
    ensures
        *final(counter) == counted(*old(counter), n as nat),
{
    *counter = (*counter).wrapping_add(n);
}

} // verus!

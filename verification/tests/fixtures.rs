//! Captures of three slots, made the way a leader makes them: entries, serialized,
//! spread over data shreds, protected by code shreds, hashed into a Merkle tree. The
//! clean replay is the reference; the same capture degraded by loss, reordering,
//! duplication and corruption has to produce the same entries.

use bytes::Bytes;
use deshred::analysis::{
    batch_times, distribution, skipped, transaction_latency, Arrivals, BatchTime, Outcome, SetState,
};
use deshred::deshredder::deliver;
use deshred::entry::{self, BlockData};
use deshred::fec::{reed_solomon, FecSet, Insert, RecoverError, Reject};
use deshred::fixture::{replay, FixtureError, Reader, Record, Writer};
use deshred::merkle::{leaf, Tree};
use deshred::shred::{DATA_CAPACITY, FLAG_DATA_COMPLETE, FLAG_LAST_IN_SLOT};
use deshred::slot::{Segment, SlotState};
use deshred::table::Table;
use deshred::view::{self, TxVersion, ViewError};
use deshred::{Config, Deshredder, Entry, EntryBatch, EntrySink, Shred, Snapshot, Stats};
use solana_message::compiled_instruction::CompiledInstruction;
use solana_message::{v0, v1, Address, Message, MessageHeader, VersionedMessage};
use solana_signature::Signature;
use solana_transaction::versioned::VersionedTransaction;
use std::collections::{HashMap, HashSet};

const LOOKBACK: u64 = 64;
const VERSION: u16 = 50_093;

// ---------------------------------------------------------------------------
// A leader.

fn address(n: u8) -> Address {
    Address::new_from_array([n; 32])
}

fn transaction(n: u64) -> VersionedTransaction {
    let header = MessageHeader {
        num_required_signatures: 1 + (n % 2) as u8,
        num_readonly_signed_accounts: 0,
        num_readonly_unsigned_accounts: 1,
    };
    let account_keys: Vec<Address> = (0..3 + n % 4).map(|k| address(k as u8 + 1)).collect();
    let blockhash = solana_hash::Hash::new_from_array([n as u8; 32]);
    let instructions: Vec<CompiledInstruction> = (0..n % 3)
        .map(|k| CompiledInstruction {
            program_id_index: 1,
            accounts: vec![0; k as usize],
            data: vec![n as u8; (n % 200) as usize],
        })
        .collect();
    let mut signature = [n as u8; 64];
    signature[..8].copy_from_slice(&n.to_le_bytes());
    let signatures = (0..header.num_required_signatures)
        .map(|k| {
            signature[63] = k;
            Signature::from(signature)
        })
        .collect();
    let message = match n % 3 {
        0 => VersionedMessage::Legacy(Message {
            header,
            account_keys,
            recent_blockhash: blockhash,
            instructions,
        }),
        1 => VersionedMessage::V0(v0::Message {
            header,
            account_keys,
            recent_blockhash: blockhash,
            instructions,
            address_table_lookups: vec![v0::MessageAddressTableLookup {
                account_key: address(9),
                writable_indexes: vec![1, 2],
                readonly_indexes: vec![3],
            }],
        }),
        _ => VersionedMessage::V1(v1::Message {
            header,
            config: v1::TransactionConfig {
                priority_fee: Some(n),
                compute_unit_limit: if n % 2 == 0 { Some(7) } else { None },
                loaded_accounts_data_size_limit: None,
                heap_size: Some(2048),
            },
            lifetime_specifier: blockhash,
            account_keys,
            instructions,
        }),
    };
    VersionedTransaction {
        signatures,
        message,
    }
}

fn entries(seed: u64, count: u64) -> Vec<Entry> {
    (0..count)
        .map(|i| Entry {
            num_hashes: seed + i,
            hash: solana_hash::Hash::new_from_array([(seed + i) as u8; 32]),
            transactions: (0..(seed + i) % 9)
                .map(|k| transaction(100 * seed + 10 * i + k))
                .collect(),
        })
        .collect()
}

/// Data shreds of a slot: what each carries, and its flags.
fn chunks(batches: &[Vec<u8>]) -> Vec<(Vec<u8>, u8)> {
    let mut chunks: Vec<(Vec<u8>, u8)> = Vec::new();
    for batch in batches {
        for part in batch.chunks(DATA_CAPACITY) {
            chunks.push((part.to_vec(), 0));
        }
        chunks.last_mut().unwrap().1 = FLAG_DATA_COMPLETE;
    }
    // The last batch is padded so that the slot ends with its FEC set.
    chunks.last_mut().unwrap().1 = 0;
    while chunks.len() % 32 != 0 {
        chunks.push((vec![], 0));
    }
    chunks.last_mut().unwrap().1 = FLAG_LAST_IN_SLOT;
    chunks
}

/// The 64 shreds of one FEC set.
fn fec_set(slot: u64, fec_set_index: u32, chunks: &[(Vec<u8>, u8)]) -> Vec<Vec<u8>> {
    let mut packets: Vec<Vec<u8>> = Vec::new();
    let chained = [fec_set_index as u8 ^ 0x5a; 32];
    for (i, (data, flags)) in chunks.iter().enumerate() {
        let mut s = vec![0u8; 1203];
        s[64] = 0x96;
        s[65..73].copy_from_slice(&slot.to_le_bytes());
        s[73..77].copy_from_slice(&(fec_set_index + i as u32).to_le_bytes());
        s[77..79].copy_from_slice(&VERSION.to_le_bytes());
        s[79..83].copy_from_slice(&fec_set_index.to_le_bytes());
        s[83..85].copy_from_slice(&1u16.to_le_bytes());
        s[85] = *flags;
        s[86..88].copy_from_slice(&(88 + data.len() as u16).to_le_bytes());
        s[88..88 + data.len()].copy_from_slice(data);
        s[1051..1083].copy_from_slice(&chained);
        packets.push(s);
    }
    let mut shards: Vec<Vec<u8>> = packets.iter().map(|s| s[64..1051].to_vec()).collect();
    shards.extend(vec![vec![0u8; 987]; 32]);
    reed_solomon_erasure::galois_8::ReedSolomon::new(32, 32)
        .unwrap()
        .encode(&mut shards)
        .unwrap();
    for (i, shard) in shards[32..].iter().enumerate() {
        let mut s = vec![0u8; 1228];
        s[64] = 0x66;
        s[65..73].copy_from_slice(&slot.to_le_bytes());
        s[73..77].copy_from_slice(&(fec_set_index + i as u32).to_le_bytes());
        s[77..79].copy_from_slice(&VERSION.to_le_bytes());
        s[79..83].copy_from_slice(&fec_set_index.to_le_bytes());
        s[83..85].copy_from_slice(&32u16.to_le_bytes());
        s[85..87].copy_from_slice(&32u16.to_le_bytes());
        s[87..89].copy_from_slice(&(i as u16).to_le_bytes());
        s[89..1076].copy_from_slice(shard);
        s[1076..1108].copy_from_slice(&chained);
        packets.push(s);
    }
    let leaves = packets
        .iter()
        .map(|s| {
            if s.len() == 1203 {
                leaf(&s[64..1083])
            } else {
                leaf(&s[89..1108])
            }
        })
        .collect();
    let tree = Tree::new(leaves);
    for (i, s) in packets.iter_mut().enumerate() {
        let end = s.len();
        s[end - 120..].copy_from_slice(&tree.proof_of(i).concat());
        s[..32].copy_from_slice(&tree.root());
        s[32..64].copy_from_slice(&tree.root());
    }
    packets
}

/// All shreds of a slot that holds these batches.
fn shreds(slot: u64, batches: &[Vec<u8>]) -> Vec<Vec<u8>> {
    let chunks = chunks(batches);
    let mut packets = Vec::new();
    for (i, set) in chunks.chunks(32).enumerate() {
        packets.extend(fec_set(slot, 32 * i as u32, set));
    }
    packets
}

// ---------------------------------------------------------------------------
// Captures of what it sends.

struct Capture {
    name: String,
    packets: Vec<Vec<u8>>,
    shred_version: u16,
}

fn slot_batches(slot: u64) -> Vec<Vec<u8>> {
    (0..9)
        .map(|i| entry::encode(entries(10 * slot + i, 10)))
        .collect()
}

fn captures() -> Vec<Capture> {
    let mut writer = Writer::new();
    let mut nanos = 1_700_000_000_000_000_000;
    for slot in [400u64, 401, 402] {
        for packet in shreds(slot, &slot_batches(slot)) {
            writer.write_at(nanos, &packet).unwrap();
            nanos += 10_000;
        }
    }
    let bytes = writer.take_bytes();
    let packets: Vec<Vec<u8>> = records(&bytes).into_iter().map(|r| r.packet).collect();
    let shred_version = packets
        .iter()
        .find_map(|p| parse(p).ok())
        .expect("capture holds at least one valid shred")
        .version();
    vec![Capture {
        name: "three slots".to_string(),
        packets,
        shred_version,
    }]
}

fn records(bytes: &[u8]) -> Vec<Record> {
    let mut reader = Reader::new(bytes).unwrap();
    let mut records = Vec::new();
    while let Some(record) = reader.next() {
        records.push(record.unwrap());
    }
    records
}

fn parse(packet: &[u8]) -> Result<Shred, deshred::shred::ShredError> {
    Shred::parse(Bytes::copy_from_slice(packet))
}

fn deshredder(shred_version: u16) -> Deshredder {
    Deshredder::new(Config {
        shred_version: Some(shred_version),
        slot_lookback: LOOKBACK,
    })
}

fn feed(
    deshredder: &mut Deshredder,
    packets: impl IntoIterator<Item = Vec<u8>>,
) -> Vec<EntryBatch> {
    let mut out = Vec::new();
    for packet in packets {
        deshredder.push(Bytes::from(packet), &mut out);
    }
    out
}

/// Entries per slot, in shred order.
fn by_slot(batches: &[EntryBatch]) -> HashMap<u64, Vec<Entry>> {
    let mut sorted: Vec<&EntryBatch> = batches.iter().collect();
    sorted.sort_by_key(|b| (b.slot, *b.shreds.start()));
    let mut out: HashMap<u64, Vec<Entry>> = HashMap::new();
    for b in sorted {
        out.entry(b.slot)
            .or_default()
            .extend(b.entries.iter().cloned());
    }
    out
}

/// Deterministic shuffle without a rand dependency.
fn shuffle<T>(items: &mut [T], mut seed: u64) {
    for i in (1..items.len()).rev() {
        seed ^= seed << 13;
        seed ^= seed >> 7;
        seed ^= seed << 17;
        items.swap(i, (seed % (i as u64 + 1)) as usize);
    }
}

/// Packets grouped by FEC set, in capture order, without the duplicates a
/// live capture contains (the same datagram can arrive on two paths).
fn sets(packets: &[Vec<u8>]) -> Vec<Vec<Vec<u8>>> {
    let mut index: HashMap<(u64, u32), usize> = HashMap::new();
    let mut seen: HashSet<(u64, bool, u32)> = HashSet::new();
    let mut sets: Vec<Vec<Vec<u8>>> = Vec::new();
    for p in packets {
        let Ok(shred) = parse(p) else {
            continue;
        };
        if !seen.insert((shred.slot(), shred.is_data(), shred.index())) {
            continue;
        }
        let key = (shred.slot(), shred.fec_set_index());
        let i = *index.entry(key).or_insert_with(|| {
            sets.push(Vec::new());
            sets.len() - 1
        });
        sets[i].push(p.clone());
    }
    sets
}

fn reference(capture: &Capture) -> (Vec<EntryBatch>, Snapshot) {
    let mut d = deshredder(capture.shred_version);
    let batches = feed(&mut d, capture.packets.clone());
    (batches, d.stats().snapshot())
}

#[test]
fn clean_replay_decodes_everything() {
    for capture in captures() {
        let (batches, s) = reference(&capture);
        println!("{}: {s:?}", capture.name);
        assert!(s.batches > 0, "{}: nothing decoded", capture.name);
        assert!(s.transactions > 0, "{}: no transactions", capture.name);
        assert_eq!(s.invalid, 0, "{}: malformed packets", capture.name);
        assert_eq!(s.rejected, 0, "{}: merkle mismatches", capture.name);
        assert_eq!(s.decode_errors, 0, "{}: undecodable runs", capture.name);
        assert_eq!(s.recovery_failures, 0, "{}", capture.name);
        assert!(
            batches.iter().any(|b| b.last_in_slot),
            "{}: no slot end seen",
            capture.name
        );
        for b in &batches {
            for tx in b.entries.iter().flat_map(|e| &e.transactions) {
                assert!(!tx.signatures.is_empty());
            }
        }
    }
}

#[test]
fn shuffled_replay_matches_reference() {
    for capture in captures() {
        let (batches, _) = reference(&capture);
        let mut packets = capture.packets.clone();
        shuffle(&mut packets, 99);
        let mut d = deshredder(capture.shred_version);
        let shuffled = feed(&mut d, packets);
        assert_eq!(by_slot(&shuffled), by_slot(&batches), "{}", capture.name);
        assert_eq!(d.stats().snapshot().decode_errors, 0);
    }
}

#[test]
fn half_of_each_set_is_enough() {
    for capture in captures() {
        let (batches, _) = reference(&capture);
        // Keep 32 random shreds of every set that has at least that many;
        // sets that were already short in the capture stay as they were.
        let mut kept = Vec::new();
        for (i, mut set) in sets(&capture.packets).into_iter().enumerate() {
            if set.len() > 32 {
                shuffle(&mut set, 1000 + i as u64);
                set.truncate(32);
            }
            kept.extend(set);
        }
        let mut d = deshredder(capture.shred_version);
        let lossy = feed(&mut d, kept);
        let s = d.stats().snapshot();
        assert!(s.recovered > 0, "{}", capture.name);
        assert_eq!(s.recovery_failures, 0, "{}", capture.name);
        assert_eq!(by_slot(&lossy), by_slot(&batches), "{}", capture.name);
    }
}

#[test]
fn corrupted_shreds_are_rejected_and_recovered() {
    for capture in captures() {
        let (batches, _) = reference(&capture);
        // Corrupt one data shred per set that is not the first of its set to
        // arrive (the first one defines the set's Merkle root) and still
        // leaves 32 good shreds behind.
        let mut packets = capture.packets.clone();
        let mut seen: HashMap<(u64, u32), usize> = HashMap::new();
        let sizes: HashMap<(u64, u32), usize> = sets(&capture.packets)
            .iter()
            .filter_map(|set| {
                let s = parse(&set[0]).ok()?;
                Some(((s.slot(), s.fec_set_index()), set.len()))
            })
            .collect();
        let mut corrupted = 0;
        for p in packets.iter_mut() {
            let Ok(shred) = parse(p) else {
                continue;
            };
            let key = (shred.slot(), shred.fec_set_index());
            let n = seen.entry(key).or_insert(0);
            *n += 1;
            if *n == 2 && shred.is_data() && sizes[&key] >= 33 {
                p[200] ^= 0xff;
                corrupted += 1;
            }
        }
        assert!(corrupted > 0, "{}", capture.name);
        let mut d = deshredder(capture.shred_version);
        let result = feed(&mut d, packets);
        let s = d.stats().snapshot();
        assert_eq!(s.rejected, corrupted, "{}", capture.name);
        assert!(s.recovered >= corrupted, "{}", capture.name);
        assert_eq!(by_slot(&result), by_slot(&batches), "{}", capture.name);
    }
}

#[test]
fn duplicates_do_not_double_emit() {
    for capture in captures() {
        let (batches, _) = reference(&capture);
        let mut packets = capture.packets.clone();
        packets.extend(capture.packets.clone());
        let mut d = deshredder(capture.shred_version);
        let doubled = feed(&mut d, packets);
        assert_eq!(doubled.len(), batches.len(), "{}", capture.name);
        assert_eq!(by_slot(&doubled), by_slot(&batches), "{}", capture.name);
        let s = d.stats().snapshot();
        assert!(s.duplicates > 0 && s.unneeded > 0, "{}", capture.name);
    }
}

#[test]
fn wrong_shred_version_is_dropped() {
    for capture in captures() {
        let mut d = deshredder(capture.shred_version.wrapping_add(1));
        assert!(feed(&mut d, capture.packets.clone()).is_empty());
        let s = d.stats().snapshot();
        assert_eq!(s.wrong_version + s.invalid, capture.packets.len() as u64);
    }
}

#[test]
fn garbage_is_counted_not_emitted() {
    let mut d = deshredder(0);
    let junk = vec![vec![0xffu8; 1203], b"hello".to_vec(), vec![0u8; 1228]];
    assert!(feed(&mut d, junk).is_empty());
    assert_eq!(d.stats().snapshot().invalid, 3);
}

#[test]
fn roundtrip() {
    let mut w = Writer::new();
    w.write_at(1, b"abc").unwrap();
    w.write_at(2, &[0u8; 1203]).unwrap();
    let buf = w.take_bytes();
    let records: Vec<Record> = records(&buf);
    assert_eq!(records.len(), 2);
    assert_eq!(records[0].unix_nanos, 1);
    assert_eq!(records[0].packet, b"abc");
    assert_eq!(records[1].packet.len(), 1203);
    assert!(Reader::new(&b"nope"[..]).is_err());
}

/// Every boundary the scanner finds must match what wincode decodes:
/// same entry framing, and per transaction the exact bytes wincode would
/// re-serialize.
#[test]
fn boundaries_match_wincode_on_the_fixture() {
    let mut deshredder = Deshredder::new(Config::default());
    let mut batches: Vec<EntryBatch> = Vec::new();
    for capture in captures() {
        for packet in capture.packets {
            deshredder.push(Bytes::from(packet), &mut batches);
        }
    }
    assert!(!batches.is_empty());

    let mut transactions = 0usize;
    for batch in &batches {
        let segment = entry::encode(batch.entries.clone());
        let mut owned = batch.entries.iter();
        let mut entry_views = view::entries(&segment).unwrap();
        while let Some(entry_view) = entry_views.next() {
            let entry_view = entry_view.unwrap();
            let entry = owned.next().unwrap();
            assert_eq!(entry_view.num_hashes, entry.num_hashes);
            assert_eq!(entry_view.hash, &entry.hash.to_bytes());
            assert_eq!(
                entry_view.num_transactions() as usize,
                entry.transactions.len()
            );
            let mut views = entry_view.transactions();
            for tx in &entry.transactions {
                let view = views.next().unwrap().unwrap();
                let serialized = wincode::serialize(tx).unwrap();
                assert_eq!(view.bytes(), serialized, "boundary mismatch");
                assert_eq!(view.signature(), tx.signatures[0].as_array());
                transactions += 1;
            }
            assert!(views.next().is_none());
        }
        assert!(owned.next().is_none());
    }
    assert!(
        transactions > 1000,
        "fixture yielded {transactions} transactions"
    );
}

#[test]
fn truncated_and_garbage_segments_error() {
    assert!(view::entries(&[]).is_err());
    let segment = entry::encode(vec![]);
    assert!(view::entries(&segment).unwrap().next().is_none());
    // One entry claimed, nothing behind it.
    let mut bad = 1u64.to_le_bytes().to_vec();
    bad.extend_from_slice(&[0; 4]);
    let mut views = view::entries(&bad).unwrap();
    let mut last = None;
    while let Some(view) = views.next() {
        last = Some(view);
    }
    assert!(last.unwrap().is_err());
}

// ---------------------------------------------------------------------------
// Deshredder.

#[test]
fn batches_say_where_they_come_from() {
    let batches = slot_batches(400);
    let mut d = deshredder(VERSION);
    let out = feed(&mut d, shreds(400, &batches));
    assert_eq!(out.len(), batches.len());
    let mut next = 0;
    for (i, batch) in out.iter().enumerate() {
        assert_eq!(batch.slot, 400);
        assert_eq!(*batch.shreds.start(), next);
        next = *batch.shreds.end() + 1;
        assert_eq!(batch.last_in_slot, i == out.len() - 1);
        assert_eq!(batch.entries, entries(4000 + i as u64, 10));
        assert_eq!(
            batch.num_transactions(),
            batch.entries.iter().map(|e| e.transactions.len()).sum::<usize>()
        );
        let copy = batch.clone();
        assert_eq!(copy.shreds, batch.shreds);
        assert_eq!(copy.entries, batch.entries);
    }
    assert_eq!(next % 32, 0);
    let s = d.stats().snapshot();
    assert_eq!(s.batches, 9);
    assert_eq!(s.entries, 90);
    assert_eq!(
        s.transactions,
        out.iter().map(|b| b.num_transactions() as u64).sum::<u64>()
    );
    assert_eq!(s.packets, 2 * next as u64);
    assert_eq!(s.unneeded, next as u64);
}

#[test]
fn block_markers_and_undecodable_runs_are_counted() {
    let good = entry::encode(entries(1, 3));
    let last = good.len().div_ceil(DATA_CAPACITY) as u32;
    let batches = vec![vec![0u8; 40], good, vec![0xffu8; 100]];
    let mut d = deshredder(VERSION);
    let out = feed(&mut d, shreds(7, &batches));
    assert_eq!(out.len(), 1);
    assert_eq!(out[0].entries, entries(1, 3));
    assert_eq!(out[0].shreds, 1..=last);
    let s = d.stats().snapshot();
    assert_eq!(s.block_markers, 1);
    assert_eq!(s.decode_errors, 1);
    assert_eq!(s.batches, 1);
}

#[test]
fn stale_slots_are_dropped_and_the_window_moves_with_complete_runs_only() {
    let batches = vec![entry::encode(entries(2, 2))];
    let mut d = deshredder(VERSION);
    assert_eq!(feed(&mut d, shreds(1000, &batches)).len(), 1);
    // A lone shred of a far slot moves nothing.
    assert!(feed(&mut d, shreds(5000, &batches)[1..2].to_vec()).is_empty());
    assert_eq!(feed(&mut d, shreds(936, &batches)).len(), 1);
    assert_eq!(d.stats().snapshot().stale, 0);
    assert!(feed(&mut d, shreds(935, &batches)).is_empty());
    assert_eq!(d.stats().snapshot().stale, 64);
    assert_eq!(feed(&mut d, shreds(1001, &batches)).len(), 1);
    assert!(feed(&mut d, shreds(936, &batches)).is_empty());
    assert_eq!(d.stats().snapshot().stale, 128);
}

#[test]
fn slots_in_excess_are_freed_from_the_highest_down() {
    let batches = vec![entry::encode(entries(3, 40))];
    let mut d = Deshredder::new(Config {
        shred_version: None,
        slot_lookback: 1,
    });
    let all = |slot: u64| shreds(slot, &batches);
    // Nothing is complete yet, so no slot is stale: four slots are held, and the
    // highest of five is let go each time.
    for slot in [10u64, 14, 11, 13, 12] {
        assert!(feed(&mut d, all(slot)[..1].to_vec()).is_empty());
    }
    assert!(feed(&mut d, all(14)).is_empty());
    // A complete run in slot 13 leaves slots 12 and 13, and room for 14.
    assert_eq!(feed(&mut d, all(13)[1..].to_vec()).len(), 1);
    assert_eq!(feed(&mut d, all(14)).len(), 1);
    assert_eq!(d.stats().snapshot().stale, 0);
    assert!(feed(&mut d, all(12)[..1].to_vec()).is_empty());
    assert_eq!(d.stats().snapshot().stale, 1);
}

#[test]
fn without_recovery_every_data_shred_is_waited_for() {
    let batches = vec![entry::encode(entries(3, 40))];
    let packets = shreds(20, &batches);
    let config = Config::default();
    let mut half = packets[1..].to_vec();
    let mut eager = Deshredder::new(config);
    assert_eq!(feed(&mut eager, half.clone()).len(), 1);
    let mut waiting = Deshredder::without_recovery(config);
    assert!(feed(&mut waiting, half.clone()).is_empty());
    assert_eq!(waiting.stats().snapshot().recovered, 0);
    half = packets[..1].to_vec();
    assert_eq!(feed(&mut waiting, half).len(), 1);
}

#[test]
fn counters_go_on_from_where_they_were() {
    let mut stats = Stats::default();
    stats.packets = u64::MAX;
    stats.invalid = 4;
    let mut d = Deshredder::with_stats(Config::default(), stats);
    assert!(feed(&mut d, vec![vec![1, 2, 3]]).is_empty());
    let s = d.stats().snapshot();
    assert_eq!(s.packets, 0);
    assert_eq!(s.invalid, 5);
    assert_eq!(Stats::default().snapshot(), Snapshot::default());
}

#[test]
fn a_segment_is_delivered_as_what_it_decodes_to() {
    let segment = || Segment {
        shreds: 3..=5,
        bytes: vec![],
        last_in_slot: true,
    };
    let mut stats = Stats::default();
    let mut out = Vec::new();
    deliver(9, segment(), Ok(BlockData::BlockMarker), &mut stats, &mut out);
    assert!(out.is_empty());
    assert_eq!(stats.block_markers, 1);
    let bad = entry::decode(&[9u8; 40]);
    deliver(9, segment(), bad, &mut stats, &mut out);
    assert!(out.is_empty());
    assert_eq!(stats.decode_errors, 1);
    let good = entries(5, 4);
    let transactions: u64 = good.iter().map(|e| e.transactions.len() as u64).sum();
    deliver(
        9,
        segment(),
        Ok(BlockData::Entries(good.clone())),
        &mut stats,
        &mut out,
    );
    assert_eq!(out.len(), 1);
    assert_eq!(out[0].slot, 9);
    assert_eq!(out[0].shreds, 3..=5);
    assert!(out[0].last_in_slot);
    assert_eq!(out[0].entries, good);
    assert_eq!(stats.batches, 1);
    assert_eq!(stats.entries, 4);
    assert_eq!(stats.transactions, transactions);
}

#[test]
fn a_far_fec_set_is_held_and_gives_nothing() {
    let mut packets = fec_set(8, 0, &chunks(&[entry::encode(entries(2, 2))])[..32]);
    let mut code = packets.remove(40);
    code[79..83].copy_from_slice(&0xffff_ffe0u32.to_le_bytes());
    let mut d = deshredder(VERSION);
    assert!(feed(&mut d, vec![code.clone(), code]).is_empty());
    assert_eq!(d.stats().snapshot().duplicates, 1);
    assert_eq!(d.stats().snapshot().invalid, 0);
}

// ---------------------------------------------------------------------------
// FEC sets.

fn set_packets() -> Vec<Vec<u8>> {
    let chunks: Vec<(Vec<u8>, u8)> = (0..32u8).map(|i| (vec![i + 1; 500 + i as usize], 0)).collect();
    fec_set(77, 64, &chunks)
}

#[test]
fn any_half_of_a_set_rebuilds_its_data() {
    let packets = set_packets();
    let whole: Vec<Shred> = packets.iter().map(|p| parse(p).unwrap()).collect();
    let rs = reed_solomon();
    for seed in 1..20u64 {
        let mut order: Vec<usize> = (0..64).collect();
        shuffle(&mut order, seed);
        let mut set = FecSet::default();
        for &i in &order[..31] {
            assert_eq!(set.insert(whole[i].clone()), Insert::New);
            assert!(!set.can_recover());
        }
        assert_eq!(set.insert(whole[order[31]].clone()), Insert::New);
        assert!(set.can_recover());
        let mut missing: Vec<u32> = order[32..]
            .iter()
            .filter(|&&i| i < 32)
            .map(|&i| 64 + i as u32)
            .collect();
        missing.sort_unstable();
        assert_eq!(set.recover(&rs).unwrap(), missing);
        assert!(set.is_complete());
        assert!(!set.can_recover());
        for i in 0..32 {
            let shred = set.data(i).unwrap();
            assert_eq!(shred.data(), whole[i].data());
            assert_eq!(shred.bytes()[..1083], packets[i][..1083]);
            if missing.contains(&(64 + i as u32)) {
                assert_eq!(shred.merkle_proof(), &[0u8; 120]);
            } else {
                assert_eq!(shred.bytes(), packets[i]);
            }
        }
    }
}

#[test]
fn sets_take_each_shred_once() {
    let packets = set_packets();
    let mut set = FecSet::default();
    assert_eq!(set.insert(parse(&packets[0]).unwrap()), Insert::New);
    assert_eq!(set.insert(parse(&packets[0]).unwrap()), Insert::Duplicate);
    assert_eq!(set.insert(parse(&packets[40]).unwrap()), Insert::New);
    assert_eq!(set.insert(parse(&packets[40]).unwrap()), Insert::Duplicate);
    for p in &packets[1..32] {
        assert!(!set.is_complete());
        assert_eq!(set.insert(parse(p).unwrap()), Insert::New);
    }
    assert!(set.is_complete());
    assert_eq!(set.insert(parse(&packets[40]).unwrap()), Insert::Unneeded);
    assert_eq!(set.insert(parse(&packets[41]).unwrap()), Insert::Unneeded);
    assert_eq!(set.insert(parse(&packets[5]).unwrap()), Insert::Duplicate);
}

#[test]
fn sets_reject_what_disagrees_with_them() {
    let packets = set_packets();
    let mut set = FecSet::default();
    assert_eq!(set.insert(parse(&packets[0]).unwrap()), Insert::New);
    let mut other_root = packets[1].clone();
    other_root[300] ^= 1;
    assert_eq!(
        set.insert(parse(&other_root).unwrap()),
        Insert::Rejected(Reject::MerkleRootMismatch)
    );
    let mut other_signature = packets[1].clone();
    other_signature[5] ^= 1;
    assert_eq!(
        set.insert(parse(&other_signature).unwrap()),
        Insert::Rejected(Reject::SignatureMismatch)
    );
    let mut short_proof = packets[40].clone();
    short_proof[64] = 0x65;
    assert_eq!(
        set.insert(parse(&short_proof).unwrap()),
        Insert::Rejected(Reject::BadProof)
    );
    assert_eq!(set.insert(parse(&packets[1]).unwrap()), Insert::New);
}

/// A set whose shards are coded as they are, with the proofs to match.
fn coded_set(mut shards: Vec<Vec<u8>>) -> Vec<Vec<u8>> {
    shards.extend(vec![vec![0u8; 987]; 32]);
    reed_solomon_erasure::galois_8::ReedSolomon::new(32, 32)
        .unwrap()
        .encode(&mut shards)
        .unwrap();
    let mut packets = set_packets();
    for (i, shard) in shards.iter().enumerate() {
        if i < 32 {
            packets[i][64..1051].copy_from_slice(shard);
        } else {
            packets[i][89..1076].copy_from_slice(shard);
        }
    }
    let leaves = packets
        .iter()
        .map(|s| {
            if s.len() == 1203 {
                leaf(&s[64..1083])
            } else {
                leaf(&s[89..1108])
            }
        })
        .collect();
    let tree = Tree::new(leaves);
    for (i, s) in packets.iter_mut().enumerate() {
        let end = s.len();
        s[end - 120..].copy_from_slice(&tree.proof_of(i).concat());
    }
    packets
}

fn recover_with_spoilt(position: usize, spoil: impl Fn(&mut [u8])) -> (FecSet, RecoverError) {
    let mut shards: Vec<Vec<u8>> = set_packets()[..32]
        .iter()
        .map(|s| s[64..1051].to_vec())
        .collect();
    spoil(&mut shards[position]);
    let packets = coded_set(shards);
    let mut set = FecSet::default();
    for p in &packets[32..] {
        assert_eq!(set.insert(parse(p).unwrap()), Insert::New);
    }
    assert!(set.can_recover());
    let error = set.recover(&reed_solomon()).unwrap_err();
    (set, error)
}

#[test]
fn recovery_stops_at_a_shred_that_does_not_fit() {
    // Offsets are those in the shred, less the signature.
    let (set, error) = recover_with_spoilt(3, |s| s[85 - 64] = 0x80);
    assert!(matches!(
        error,
        RecoverError::InvalidShred(deshred::shred::ShredError::InvalidFlags(0x80))
    ));
    for i in 0..32 {
        assert_eq!(set.data(i).is_some(), i < 3);
    }
    assert!(!set.is_complete());

    let (set, error) = recover_with_spoilt(0, |s| s[65 - 64] ^= 1);
    assert!(matches!(error, RecoverError::WrongHeaders { index: 64 }));
    assert!(set.data(0).is_none());

    let (_, error) = recover_with_spoilt(31, |s| s[77 - 64] ^= 1);
    assert!(matches!(error, RecoverError::WrongHeaders { index: 95 }));
}

#[test]
fn shreds_of_two_lengths_are_not_recovered_from() {
    // A set of resigned code shreds beside plain ones: the codec refuses it.
    let mut packets = set_packets();
    for p in packets[48..].iter_mut() {
        p[64] = 0x76;
    }
    let leaves = packets
        .iter()
        .map(|s| match (s.len(), s[64]) {
            (1203, _) => leaf(&s[64..1083]),
            (_, 0x66) => leaf(&s[89..1108]),
            _ => leaf(&s[89..1044]),
        })
        .collect();
    let tree = Tree::new(leaves);
    for (i, s) in packets.iter_mut().enumerate() {
        let start = match (s.len(), s[64]) {
            (1203, _) => 1083,
            (_, 0x66) => 1108,
            _ => 1044,
        };
        s[start..start + 120].copy_from_slice(&tree.proof_of(i).concat());
    }
    let mut set = FecSet::default();
    for p in &packets[32..] {
        assert_eq!(set.insert(parse(p).unwrap()), Insert::New);
    }
    assert!(matches!(
        set.recover(&reed_solomon()),
        Err(RecoverError::ReedSolomon(
            reed_solomon_erasure::Error::IncorrectShardSize
        ))
    ));
    assert!(set.can_recover());
}

#[test]
fn reconstructed_shards_rebuild_the_set() {
    let packets = set_packets();
    let mut set = FecSet::default();
    for p in &packets[5..32] {
        assert_eq!(set.insert(parse(p).unwrap()), Insert::New);
    }
    let shards: Vec<(Vec<u8>, bool)> = packets[..32]
        .iter()
        .map(|p| (p[64..1051].to_vec(), true))
        .collect();
    assert_eq!(set.rebuild(&shards).unwrap(), vec![64, 65, 66, 67, 68]);
    assert!(set.is_complete());
    assert_eq!(set.data(2).unwrap().bytes()[..1083], packets[2][..1083]);
}

// ---------------------------------------------------------------------------
// Slots.

#[test]
fn runs_come_out_as_soon_as_their_bounds_are_known() {
    let batches = vec![vec![1u8; 900], vec![2u8; 1800], vec![3u8; 100]];
    let packets = shreds(6, &batches);
    let mut slot = SlotState::default();
    let mut stats = Stats::default();
    let mut out: Vec<Segment> = Vec::new();
    let mut insert = |i: usize, stats: &mut Stats, out: &mut Vec<Segment>| {
        slot.insert(parse(&packets[i]).unwrap(), None, stats, out);
    };
    insert(2, &mut stats, &mut out);
    insert(1, &mut stats, &mut out);
    assert!(out.is_empty());
    // The end of the first batch is the start of the second.
    insert(0, &mut stats, &mut out);
    assert_eq!(out.len(), 2);
    assert_eq!(out[0].shreds, 0..=0);
    assert_eq!(out[0].bytes, vec![1u8; 900]);
    assert_eq!(out[1].shreds, 1..=2);
    assert_eq!(out[1].bytes, vec![2u8; 1800]);
    assert!(!out[1].last_in_slot);
    insert(1, &mut stats, &mut out);
    assert_eq!(stats.duplicates, 1);
    for i in (3..32).rev() {
        assert_eq!(out.len(), 2);
        insert(i, &mut stats, &mut out);
    }
    assert_eq!(out.len(), 3);
    assert_eq!(out[2].shreds, 3..=31);
    assert_eq!(out[2].bytes, vec![3u8; 100]);
    assert!(out[2].last_in_slot);
    insert(40, &mut stats, &mut out);
    assert_eq!(stats.unneeded, 1);
    assert_eq!(out.len(), 3);
}

#[test]
fn recovery_makes_runs_complete() {
    let batches = vec![vec![1u8; 3000], vec![2u8; 9000]];
    let packets = shreds(6, &batches);
    let rs = reed_solomon();
    let mut slot = SlotState::default();
    let mut stats = Stats::default();
    let mut out: Vec<Segment> = Vec::new();
    for p in &packets[32..63] {
        slot.insert(parse(p).unwrap(), Some(&rs), &mut stats, &mut out);
    }
    assert!(out.is_empty());
    slot.insert(parse(&packets[63]).unwrap(), Some(&rs), &mut stats, &mut out);
    assert_eq!(stats.recovered, 32);
    assert_eq!(out.len(), 2);
    assert_eq!(out[0].bytes, vec![1u8; 3000]);
    assert_eq!(out[1].bytes, vec![2u8; 9000]);
    slot.insert(parse(&packets[0]).unwrap(), Some(&rs), &mut stats, &mut out);
    assert_eq!(stats.duplicates, 1);
    assert_eq!(out.len(), 2);
}

#[test]
fn failed_recoveries_are_counted() {
    let mut shards: Vec<Vec<u8>> = set_packets()[..32]
        .iter()
        .map(|s| s[64..1051].to_vec())
        .collect();
    shards[3][85 - 64] = 0x80;
    let packets = coded_set(shards);
    let rs = reed_solomon();
    let mut slot = SlotState::default();
    let mut stats = Stats::default();
    let mut out: Vec<Segment> = Vec::new();
    for p in &packets[32..] {
        slot.insert(parse(p).unwrap(), Some(&rs), &mut stats, &mut out);
    }
    assert_eq!(stats.recovery_failures, 1);
    assert_eq!(stats.recovered, 0);
    assert!(out.is_empty());
}

// ---------------------------------------------------------------------------
// Views.

#[test]
fn views_tell_versions_and_signatures() {
    let transactions: Vec<VersionedTransaction> = (3..9).map(transaction).collect();
    let segment = entry::encode(vec![Entry {
        num_hashes: 77,
        hash: solana_hash::Hash::new_from_array([3u8; 32]),
        transactions: transactions.clone(),
    }]);
    let mut found = view::entries(&segment).unwrap();
    let entry_view = found.next().unwrap().unwrap();
    assert!(found.next().is_none());
    let mut views = entry_view.transactions();
    for (n, tx) in transactions.iter().enumerate() {
        let view = views.next().unwrap().unwrap();
        assert_eq!(
            view.version(),
            [TxVersion::Legacy, TxVersion::V0, TxVersion::V1][n % 3]
        );
        assert_eq!(view.num_signatures() as usize, tx.signatures.len());
        assert_eq!(view.signature(), tx.signatures[0].as_array());
    }
}

#[test]
fn a_signature_far_into_a_transaction_is_found() {
    let mut tx = transaction(2);
    let VersionedMessage::V1(message) = &mut tx.message else {
        panic!("not v1");
    };
    message.instructions = vec![
        CompiledInstruction {
            program_id_index: 1,
            accounts: vec![],
            data: vec![5; 60_000],
        };
        3
    ];
    let bytes = wincode::serialize(&tx).unwrap();
    let mut segment = 1u64.to_le_bytes().to_vec();
    segment.extend_from_slice(&[0; 40]);
    segment.extend_from_slice(&1u64.to_le_bytes());
    segment.extend_from_slice(&bytes);
    let mut found = view::entries(&segment).unwrap();
    let entry_view = found.next().unwrap().unwrap();
    let view = entry_view.transactions().next().unwrap().unwrap();
    assert_eq!(view.bytes(), bytes);
    assert_eq!(view.signature(), tx.signatures[0].as_array());
}

fn first_error(transaction: &[u8]) -> ViewError {
    let mut segment = 1u64.to_le_bytes().to_vec();
    segment.extend_from_slice(&[0; 40]);
    segment.extend_from_slice(&1u64.to_le_bytes());
    segment.extend_from_slice(transaction);
    let mut found = view::entries(&segment).unwrap();
    let error = found.next().unwrap().unwrap_err();
    assert!(found.next().is_none());
    error
}

#[test]
fn views_tell_what_is_wrong() {
    assert_eq!(
        view::entries(&[1, 2, 3]).err(),
        Some(ViewError::Truncated(0))
    );
    // A transaction starts at byte 56 of the segment.
    assert_eq!(first_error(&[]), ViewError::Truncated(56));
    assert_eq!(first_error(&[0x82]), ViewError::UnknownVersion(0x82));
    assert_eq!(first_error(&[0, 0x81]), ViewError::UnknownVersion(0x81));
    assert_eq!(first_error(&[1, 9, 9]), ViewError::Truncated(57));
    assert_eq!(
        first_error(&[0, 1, 0, 0, 0xff, 0xff, 0xff]),
        ViewError::BadShortVec(60)
    );
    assert_eq!(first_error(&[0, 1, 0, 0, 0xff, 0xff]), ViewError::Truncated(62));
    // Lengths that are too large, or not as short as they can be.
    for length in [
        &[0xff, 0xff, 0x7f][..],
        &[0xff, 0xff, 0x04],
        &[0x80, 0x00],
        &[0x80, 0x80, 0x00],
    ] {
        let mut transaction = vec![0, 1, 0, 0];
        transaction.extend_from_slice(length);
        transaction.extend_from_slice(&[0; 100]);
        assert_eq!(first_error(&transaction), ViewError::BadShortVec(60));
    }
    // The largest length there is.
    assert_eq!(
        first_error(&[0, 1, 0, 0, 0xff, 0xff, 0x03, 0]),
        ViewError::Truncated(63)
    );
    assert_eq!(
        first_error(&[0x81, 1, 0, 0, 0x20, 0, 0, 0]),
        ViewError::BadConfigMask
    );
    assert_eq!(
        first_error(&[0x81, 1, 0, 0, 0x02, 0, 0, 0]),
        ViewError::BadConfigMask
    );
    assert_eq!(
        first_error(&[0x81, 1, 0, 0, 0x03, 0, 0, 0]),
        ViewError::Truncated(64)
    );
}

// ---------------------------------------------------------------------------
// Fixtures.

#[test]
fn fixtures_are_read_back_as_they_were_written() {
    let mut w = Writer::new();
    let mut file = w.take_bytes();
    assert_eq!(file, b"SHREDS\x00\x01");
    let packets: Vec<(u64, Vec<u8>)> = vec![
        (u64::MAX, vec![]),
        (0x0102_0304_0506_0708, vec![0xaa; 65_535]),
        (7, b"abc".to_vec()),
    ];
    for (nanos, packet) in &packets {
        w.write_at(*nanos, packet).unwrap();
        file.extend(w.take_bytes());
    }
    assert_eq!(&file[8..18], &[255, 255, 255, 255, 255, 255, 255, 255, 0, 0]);
    assert_eq!(&file[18..28], &[8, 7, 6, 5, 4, 3, 2, 1, 255, 255]);
    let read: Vec<(u64, Vec<u8>)> = records(&file)
        .into_iter()
        .map(|r| (r.unix_nanos, r.packet))
        .collect();
    assert_eq!(read, packets);
}

#[test]
fn fixture_errors() {
    let mut w = Writer::new();
    assert_eq!(
        w.write_at(1, &vec![0; 65_536]),
        Err(FixtureError::PacketTooLong)
    );
    w.write_at(1, b"abcdef").unwrap();
    let bytes = w.take_bytes();
    assert_eq!(Reader::new(&bytes[..7]).err(), Some(FixtureError::TooShort));
    assert_eq!(
        Reader::new(b"SHREDS\x00\x02").err(),
        Some(FixtureError::NotAFixture)
    );
    // Cut off in the packet, in the header, and before it.
    let mut reader = Reader::new(&bytes[..20]).unwrap();
    assert!(matches!(
        reader.next(),
        Some(Err(FixtureError::Truncated))
    ));
    assert!(reader.next().is_none());
    assert!(Reader::new(&bytes[..17]).unwrap().next().is_none());
    assert!(Reader::new(&bytes[..8]).unwrap().next().is_none());
}

#[test]
fn replay_hands_over_what_push_gives() {
    let mut file = Writer::new();
    let mut packets = shreds(50, &slot_batches(50));
    packets.insert(3, b"noise".to_vec());
    for (i, p) in packets.iter().enumerate() {
        file.write_at(i as u64, p).unwrap();
    }
    let bytes = file.take_bytes();
    let mut pushed = deshredder(VERSION);
    let expected = feed(&mut pushed, packets.clone());

    let mut replayed = deshredder(VERSION);
    let mut sink: Vec<EntryBatch> = Vec::new();
    assert_eq!(
        replay(Reader::new(&bytes).unwrap(), &mut replayed, &mut sink),
        Ok(packets.len())
    );
    assert_eq!(by_slot(&sink), by_slot(&expected));
    assert_eq!(sink.len(), expected.len());
    assert_eq!(replayed.stats(), pushed.stats());

    // A capture that is cut off is an error, after what came before it.
    let mut cut = deshredder(VERSION);
    let mut some: Vec<EntryBatch> = Vec::new();
    assert_eq!(
        replay(
            Reader::new(&bytes[..bytes.len() - 1]).unwrap(),
            &mut cut,
            &mut some
        ),
        Err(FixtureError::Truncated)
    );
    assert_eq!(cut.stats().packets, packets.len() as u64 - 1);
    assert_eq!(some.len(), expected.len());
}

#[test]
fn a_sink_keeps_batches_in_order() {
    let mut d = deshredder(VERSION);
    let batches = feed(&mut d, shreds(50, &slot_batches(50)));
    let mut sink: Vec<EntryBatch> = Vec::new();
    for batch in &batches {
        sink.on_batch(batch.clone());
    }
    assert_eq!(sink.len(), batches.len());
    for (a, b) in sink.iter().zip(&batches) {
        assert_eq!(a.shreds, b.shreds);
    }
}

// ---------------------------------------------------------------------------
// Analysis.

fn capture_bytes(packets: &[(u64, Vec<u8>)]) -> Vec<u8> {
    let mut w = Writer::new();
    for (nanos, packet) in packets {
        w.write_at(*nanos, packet).unwrap();
    }
    w.take_bytes()
}

#[test]
fn arrivals_are_told_apart() {
    let packets = set_packets();
    let outcome = |order: &[usize]| {
        let mut state = SetState::default();
        for (n, &i) in order.iter().enumerate() {
            let shred = parse(&packets[i]).unwrap();
            let nanos = 5_000_000 + 2_000 * n as u64;
            state.observe(shred.is_data(), shred.erasure_shard_index() % 32, nanos);
        }
        state.outcome()
    };
    let data: Vec<usize> = (0..32).collect();
    assert_eq!(outcome(&data), Outcome::DataFirst);
    // Data, then a code shred: 32 were there before it.
    let mut order = data.clone();
    order.push(32);
    assert_eq!(outcome(&order), Outcome::DataFirst);
    // 31 data and one code: recovery was possible 4 us before the last data shred.
    let mut order: Vec<usize> = (0..31).collect();
    order.extend([32, 33, 31]);
    assert_eq!(
        outcome(&order),
        Outcome::Window {
            wait_us: 4,
            missing: 1
        }
    );
    assert_eq!(
        outcome(&(20..64).collect::<Vec<usize>>()),
        Outcome::NeverComplete
    );
    assert_eq!(outcome(&[1, 1, 1, 40]), Outcome::NeverRecoverable);
}

#[test]
fn a_summary_adds_up() {
    let mut arrivals = Arrivals::new();
    let mut nanos = 1_000_000u64;
    let mut see = |arrivals: &mut Arrivals, packet: &[u8]| {
        arrivals.observe(Bytes::copy_from_slice(packet), nanos);
        nanos += 1_000;
    };
    let sets: Vec<Vec<Vec<u8>>> = (0..4)
        .map(|k| fec_set(60 - k, 0, &vec![(vec![1u8; 10], 0); 32]))
        .collect();
    // Data first; a window of 3 us with 2 missing; never complete; too little.
    for p in &sets[0][..32] {
        see(&mut arrivals, p);
    }
    for p in sets[1][..30].iter().chain(&sets[1][32..36]).chain(&sets[1][30..32]) {
        see(&mut arrivals, p);
    }
    for p in &sets[2][10..60] {
        see(&mut arrivals, p);
    }
    see(&mut arrivals, &sets[3][0]);
    see(&mut arrivals, b"not a shred");
    let summary = arrivals.summary().unwrap();
    assert_eq!(summary.packets, 32 + 36 + 50 + 2);
    assert_eq!(summary.total, 4);
    assert_eq!(summary.data_first, 1);
    assert_eq!(summary.never_complete, 1);
    assert_eq!(summary.never_recoverable, 1);
    assert_eq!(summary.wait_us, vec![4]);
    assert_eq!(summary.missing, vec![2]);
    // In the order of the slots.
    assert_eq!(summary.span_us, vec![0, 49, 35, 31]);
}

#[test]
fn a_clock_that_runs_back_gives_no_summary() {
    let packets = set_packets();
    let mut arrivals = Arrivals::new();
    arrivals.observe(Bytes::copy_from_slice(&packets[0]), 2_000);
    assert!(arrivals.summary().is_some());
    arrivals.observe(Bytes::copy_from_slice(&packets[1]), 1_000);
    assert!(arrivals.summary().is_none());
}

#[test]
fn distributions_are_by_nearest_rank() {
    assert_eq!(distribution(vec![]), None);
    let one = distribution(vec![5]).unwrap();
    assert_eq!((one.n, one.mean, one.p50, one.p99, one.max), (1, 5, 5, 5, 5));
    let mut values: Vec<u64> = (1..=200).collect();
    shuffle(&mut values, 7);
    let d = distribution(values).unwrap();
    assert_eq!(d.n, 200);
    assert_eq!(d.mean, 100);
    assert_eq!(d.p50, 100);
    assert_eq!(d.p90, 180);
    assert_eq!(d.p99, 198);
    assert_eq!(d.max, 200);
    let huge = distribution(vec![u64::MAX, u64::MAX, u64::MAX - 3]).unwrap();
    assert_eq!(huge.mean, u64::MAX - 1);
    assert_eq!(huge.p50, u64::MAX);
}

#[test]
fn grace_periods_skip_short_waits() {
    let waits = vec![0, 10, 25, 26, 1000];
    assert_eq!(skipped(&waits, 0), 1);
    assert_eq!(skipped(&waits, 25), 3);
    assert_eq!(skipped(&waits, 5000), 5);
}

#[test]
fn eager_recovery_is_compared_with_waiting() {
    let batch = entry::encode(entries(8, 12));
    let txs: u64 = entries(8, 12)
        .iter()
        .map(|e| e.transactions.len() as u64)
        .sum();
    let mut packets: Vec<(u64, Vec<u8>)> = Vec::new();
    // Slot 70 needs one recovery and gets its data 1 ms later; slot 71 comes in
    // order; slot 72 never gets all of its data.
    let first = shreds(70, &[batch.clone()]);
    for p in first[1..33].iter() {
        packets.push((1_000_000, p.clone()));
    }
    packets.push((2_000_000, first[0].clone()));
    for p in shreds(71, &[batch.clone()]) {
        packets.push((3_000_000, p));
    }
    for p in shreds(72, &[batch.clone()])[1..].iter() {
        packets.push((4_000_000, p.clone()));
    }
    let bytes = capture_bytes(&packets);
    let eager = batch_times(Reader::new(&bytes).unwrap(), true).unwrap();
    let waiting = batch_times(Reader::new(&bytes).unwrap(), false).unwrap();
    assert_eq!(eager.len(), 3);
    assert_eq!(waiting.len(), 2);
    assert_eq!(
        eager.get((70, 0)),
        Some(&BatchTime {
            received_at: 1_000_000,
            recovered: true,
            transactions: txs
        })
    );
    assert_eq!(eager.get((70, 0)).unwrap().available(), 1_046_000);
    assert_eq!(
        waiting.get((70, 0)),
        Some(&BatchTime {
            received_at: 2_000_000,
            recovered: false,
            transactions: txs
        })
    );
    assert_eq!(waiting.get((72, 0)), None);
    let latency = transaction_latency(&eager, &waiting);
    assert_eq!(latency.total, 3 * txs as u128);
    assert_eq!(latency.unaffected, txs as u128);
    assert_eq!(latency.only_with_recovery, txs as u128);
    assert_eq!(latency.deltas, vec![954; txs as usize]);
    assert_eq!(
        batch_times(Reader::new(&bytes[..bytes.len() - 1]).unwrap(), true).err(),
        Some(FixtureError::Truncated)
    );
}

#[test]
fn tables_keep_rows_in_order() {
    let mut table: Table<u64> = Table::new();
    let mut keys: Vec<(u64, u32)> = (0..50).map(|i| (i % 7, (i * 3) as u32)).collect();
    shuffle(&mut keys, 3);
    for (i, &key) in keys.iter().enumerate() {
        table.put(key, i as u64);
    }
    table.put((3, 9), 1000);
    assert_eq!(table.len(), 50);
    for i in 1..table.len() {
        assert!(table.key(i - 1) < table.key(i));
    }
    assert_eq!(table.get((3, 9)), Some(&1000));
    assert_eq!(table.get((3, 10)), None);
    assert_eq!(table.find((0, 0)), Ok(0));
    assert_eq!(table.find((9, 0)), Err(50));
}

/// Loss, reordering, repetition and corruption at once, over many seeds: the batches of
/// a slot are those of the clean run, each once.
#[test]
fn batches_do_not_depend_on_what_arrives() {
    let batches: Vec<Vec<u8>> = (0..5u8).map(|i| vec![i + 1; 7_000 + 900 * i as usize]).collect();
    let packets = shreds(12, &batches);
    let rs = reed_solomon();
    let run = |order: &[Vec<u8>]| {
        let mut slot = SlotState::default();
        let mut stats = Stats::default();
        let mut out: Vec<Segment> = Vec::new();
        for p in order {
            slot.insert(parse(p).unwrap(), Some(&rs), &mut stats, &mut out);
        }
        let mut found: Vec<(u32, u32, Vec<u8>, bool)> = out
            .into_iter()
            .map(|s| (*s.shreds.start(), *s.shreds.end(), s.bytes, s.last_in_slot))
            .collect();
        found.sort();
        (found, stats)
    };
    let (clean, _) = run(&packets);
    assert_eq!(clean.len(), batches.len());
    for (segment, batch) in clean.iter().zip(&batches) {
        assert_eq!(&segment.2, batch);
    }
    assert!(clean[4].3);
    for seed in 1..40u64 {
        let mut order = Vec::new();
        for (i, set) in packets.chunks(64).enumerate() {
            let mut set = set.to_vec();
            shuffle(&mut set, 31 * seed + i as u64);
            set.truncate(32 + (seed % 7) as usize);
            let mut bad = set[0].clone();
            bad[500] ^= 1;
            set.push(bad);
            set.push(set[3].clone());
            let first = set.remove(1);
            shuffle(&mut set, 77 * seed + i as u64);
            set.insert(0, first);
            order.extend(set);
        }
        let (found, stats) = run(&order);
        assert_eq!(found, clean);
        assert_eq!(stats.recovery_failures, 0);
    }
}

// ---------------------------------------------------------------------------
// What holds of whole runs.

/// Ranges and entries of batches, in order.
fn sorted(batches: &[EntryBatch]) -> Vec<(u64, u32, u32, Vec<Entry>)> {
    let mut found: Vec<(u64, u32, u32, Vec<Entry>)> = batches
        .iter()
        .map(|b| (b.slot, *b.shreds.start(), *b.shreds.end(), b.entries.clone()))
        .collect();
    found.sort_by_key(|b| (b.0, b.1));
    found
}

/// A batch that takes two data shreds.
fn two_shreds() -> Vec<u8> {
    (1..60)
        .map(|n| entry::encode(entries(3, n)))
        .find(|bytes| bytes.len() > DATA_CAPACITY && bytes.len() <= 2 * DATA_CAPACITY)
        .unwrap()
}

#[test]
fn without_lookback_one_slot_is_kept() {
    let batches = vec![two_shreds(), entry::encode(entries(4, 5))];
    let mut d = Deshredder::new(Config {
        shred_version: None,
        slot_lookback: 0,
    });
    let all = |slot: u64| shreds(slot, &batches);
    assert!(feed(&mut d, all(10)[..1].to_vec()).is_empty());
    assert!(feed(&mut d, all(12)[..2].to_vec()).is_empty());
    let out = feed(&mut d, all(10)[1..2].to_vec());
    assert_eq!(out.len(), 1);
    assert_eq!(out[0].shreds, 0..=1);
    assert_eq!(d.stats().snapshot().stale, 0);
    assert!(feed(&mut d, all(9)[..2].to_vec()).is_empty());
    assert_eq!(d.stats().snapshot().stale, 2);
}

#[test]
fn slots_at_both_ends_of_the_window_are_kept() {
    let batches = vec![entry::encode(entries(2, 2))];
    let mut d = deshredder(VERSION);
    let all = |slot: u64| shreds(slot, &batches);
    assert_eq!(all(100).len(), 64);
    assert!(feed(&mut d, all(100)[..31].to_vec()).is_empty());
    for slot in (101..=164).rev() {
        assert_eq!(feed(&mut d, all(slot)).len(), 1);
    }
    assert_eq!(feed(&mut d, all(100)[31..32].to_vec()).len(), 1);
    assert_eq!(d.stats().snapshot().stale, 0);
}

#[test]
fn packets_pushed_again_give_nothing() {
    for capture in captures() {
        // Short sets and half a slot too.
        let mut packets = capture.packets.clone();
        packets.retain(|p| p[73] % 5 != 0 || p[65] % 2 == 0);
        let mut d = deshredder(capture.shred_version);
        let first = feed(&mut d, packets.clone());
        assert!(!first.is_empty());
        assert!(feed(&mut d, packets.clone()).is_empty());
        shuffle(&mut packets, 5);
        assert!(feed(&mut d, packets).is_empty());
    }
}

#[test]
fn the_order_of_short_sets_does_not_matter() {
    let batches: Vec<Vec<u8>> = (0..9).map(|i| entry::encode(entries(i + 1, 2))).collect();
    let packets = shreds(30, &batches);
    // A few data shreds and code shreds, too few to recover anything.
    let mut some: Vec<Vec<u8>> = packets[..9].to_vec();
    some.extend_from_slice(&packets[40..60]);
    let mut d = deshredder(VERSION);
    let expected = sorted(&feed(&mut d, some.clone()));
    assert!(!expected.is_empty());
    assert_eq!(d.stats().snapshot().recovered, 0);
    for seed in 1..30 {
        shuffle(&mut some, seed);
        let mut d = deshredder(VERSION);
        assert_eq!(sorted(&feed(&mut d, some.clone())), expected);
    }
}

#[test]
fn what_is_lost_is_recovered_and_counted() {
    let batches = vec![entry::encode(entries(3, 40))];
    let packets = shreds(31, &batches);
    let mut d = deshredder(VERSION);
    let expected = sorted(&feed(&mut d, packets.clone()));
    let lossy: Vec<Vec<u8>> = packets
        .chunks(64)
        .flat_map(|set| set[5..].to_vec())
        .collect();
    let mut d = deshredder(VERSION);
    assert_eq!(sorted(&feed(&mut d, lossy)), expected);
    let s = d.stats().snapshot();
    assert_eq!(s.recovered, 5 * (packets.len() as u64 / 64));
    assert_eq!(s.recovery_failures, 0);
    assert_eq!(s.rejected, 0);
}

#[test]
fn what_is_altered_is_rejected_and_recovered() {
    let batches = vec![entry::encode(entries(3, 40))];
    let packets = shreds(32, &batches);
    let mut d = deshredder(VERSION);
    let expected = sorted(&feed(&mut d, packets.clone()));
    let mut altered = packets.clone();
    for set in altered.chunks_mut(64) {
        for i in [1, 7, 30] {
            set[i][150] ^= 1;
        }
    }
    let mut d = deshredder(VERSION);
    assert_eq!(sorted(&feed(&mut d, altered)), expected);
    let s = d.stats().snapshot();
    assert_eq!(s.rejected, 3 * (packets.len() as u64 / 64));
    assert!(s.recovered >= s.rejected);
    assert_eq!(s.recovery_failures, 0);
}

/// Every entry and every transaction starts where the one before it ends.
#[test]
fn views_lie_back_to_back() {
    let segment = entry::encode(entries(7, 12));
    let mut rebuilt = 12u64.to_le_bytes().to_vec();
    let mut found = view::entries(&segment).unwrap();
    while let Some(entry_view) = found.next() {
        let entry_view = entry_view.unwrap();
        rebuilt.extend_from_slice(&entry_view.num_hashes.to_le_bytes());
        rebuilt.extend_from_slice(entry_view.hash);
        rebuilt.extend_from_slice(&(entry_view.num_transactions() as u64).to_le_bytes());
        let mut views = entry_view.transactions();
        while let Some(view) = views.next() {
            rebuilt.extend_from_slice(view.unwrap().bytes());
        }
    }
    assert_eq!(rebuilt, segment);
}

fn scans(segment: &[u8]) -> bool {
    let Ok(mut found) = view::entries(segment) else {
        return false;
    };
    while let Some(entry_view) = found.next() {
        if entry_view.is_err() {
            return false;
        }
    }
    true
}

/// The scanner takes what the decoder takes, whatever byte is changed.
#[test]
fn the_scanner_and_the_decoder_agree() {
    for n in 3..6 {
        let segment = entry::encode(vec![Entry {
            num_hashes: 1,
            hash: solana_hash::Hash::new_from_array([2u8; 32]),
            transactions: vec![transaction(n)],
        }]);
        assert!(scans(&segment));
        for i in 0..segment.len() {
            for bit in 0..8 {
                let mut changed = segment.clone();
                changed[i] ^= 1 << bit;
                let decoded = entry::decode(&changed);
                if matches!(decoded, Ok(BlockData::BlockMarker)) {
                    continue;
                }
                assert_eq!(scans(&changed), decoded.is_ok(), "byte {i} of {changed:?}");
            }
        }
        for end in 8..segment.len() {
            assert!(!scans(&segment[..end]));
            assert!(entry::decode(&segment[..end]).is_err());
        }
    }
}

struct Tally {
    batches: usize,
    transactions: usize,
}

impl EntrySink for Tally {
    fn on_batch(&mut self, batch: EntryBatch) {
        self.batches += 1;
        self.transactions += batch.num_transactions();
    }
}

#[test]
fn a_sink_need_not_keep_batches() {
    let mut file = Writer::new();
    let packets = shreds(50, &slot_batches(50));
    for (i, p) in packets.iter().enumerate() {
        file.write_at(i as u64, p).unwrap();
    }
    let bytes = file.take_bytes();
    let mut d = deshredder(VERSION);
    let mut tally = Tally {
        batches: 0,
        transactions: 0,
    };
    assert_eq!(
        replay(Reader::new(&bytes).unwrap(), &mut d, &mut tally),
        Ok(packets.len())
    );
    assert_eq!(tally.batches as u64, d.stats().snapshot().batches);
    assert_eq!(tally.transactions as u64, d.stats().snapshot().transactions);
}

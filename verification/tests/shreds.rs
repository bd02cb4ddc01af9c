use bytes::Bytes;
use deshred::merkle;
use deshred::shred::{
    capacity, Shred, ShredError, ShredKind, CODE_HEADERS_SIZE, CODE_SHRED_SIZE, DATA_CAPACITY,
    DATA_HEADERS_SIZE, DATA_SHRED_SIZE, FLAG_DATA_COMPLETE, FLAG_LAST_IN_SLOT, SIGNATURE_SIZE,
};

const VARIANT_OFFSET: usize = 64;
const SLOT_OFFSET: usize = 65;
const INDEX_OFFSET: usize = 73;
const VERSION_OFFSET: usize = 77;
const FEC_SET_INDEX_OFFSET: usize = 79;
const PARENT_OFFSET_OFFSET: usize = 83;
const FLAGS_OFFSET: usize = 85;
const SIZE_OFFSET: usize = 86;
const NUM_DATA_OFFSET: usize = 83;
const NUM_CODE_OFFSET: usize = 85;
const POSITION_OFFSET: usize = 87;

fn parse(bytes: Vec<u8>) -> Result<Shred, ShredError> {
    Shred::parse(Bytes::from(bytes))
}

fn data_shred() -> Vec<u8> {
    let mut s = vec![0u8; DATA_SHRED_SIZE];
    s[VARIANT_OFFSET] = 0x96;
    s[SLOT_OFFSET..SLOT_OFFSET + 8].copy_from_slice(&1000u64.to_le_bytes());
    s[INDEX_OFFSET..INDEX_OFFSET + 4].copy_from_slice(&35u32.to_le_bytes());
    s[FEC_SET_INDEX_OFFSET..FEC_SET_INDEX_OFFSET + 4].copy_from_slice(&32u32.to_le_bytes());
    s[PARENT_OFFSET_OFFSET..PARENT_OFFSET_OFFSET + 2].copy_from_slice(&1u16.to_le_bytes());
    s[SIZE_OFFSET..SIZE_OFFSET + 2].copy_from_slice(&500u16.to_le_bytes());
    s
}

fn code_shred() -> Vec<u8> {
    let mut s = vec![0u8; CODE_SHRED_SIZE];
    s[VARIANT_OFFSET] = 0x66;
    s[SLOT_OFFSET..SLOT_OFFSET + 8].copy_from_slice(&1000u64.to_le_bytes());
    s[INDEX_OFFSET..INDEX_OFFSET + 4].copy_from_slice(&40u32.to_le_bytes());
    s[FEC_SET_INDEX_OFFSET..FEC_SET_INDEX_OFFSET + 4].copy_from_slice(&32u32.to_le_bytes());
    s[NUM_DATA_OFFSET..NUM_DATA_OFFSET + 2].copy_from_slice(&32u16.to_le_bytes());
    s[NUM_CODE_OFFSET..NUM_CODE_OFFSET + 2].copy_from_slice(&32u16.to_le_bytes());
    s[POSITION_OFFSET..POSITION_OFFSET + 2].copy_from_slice(&8u16.to_le_bytes());
    s
}

#[test]
fn capacities_match_agave() {
    assert_eq!(DATA_CAPACITY, 963);
    assert_eq!(capacity(ShredKind::Data, 6, false), Some(963));
    assert_eq!(capacity(ShredKind::Data, 6, true), Some(899));
    assert_eq!(capacity(ShredKind::Code, 6, false), Some(987));
    assert_eq!(capacity(ShredKind::Code, 6, true), Some(923));
    // Data and code shards must be the same length for Reed-Solomon.
    assert_eq!(
        capacity(ShredKind::Data, 6, false).unwrap() + DATA_HEADERS_SIZE - SIGNATURE_SIZE,
        capacity(ShredKind::Code, 6, false).unwrap()
    );
}

#[test]
fn capacity_runs_out() {
    assert_eq!(capacity(ShredKind::Data, 54, false), Some(3));
    assert_eq!(capacity(ShredKind::Data, 55, false), None);
    assert_eq!(capacity(ShredKind::Code, 52, true), Some(3));
    assert_eq!(capacity(ShredKind::Code, 53, true), None);
}

#[test]
fn parses_well_formed_shreds() {
    let d = parse(data_shred()).unwrap();
    assert_eq!(d.kind(), ShredKind::Data);
    assert_eq!(d.slot(), 1000);
    assert_eq!(d.index(), 35);
    assert_eq!(d.erasure_shard_index(), 3);
    assert_eq!(d.data().len(), 500 - DATA_HEADERS_SIZE);
    assert_eq!(d.parent_slot(), Some(999));
    assert_eq!(d.erasure_shard().len(), 987);

    let c = parse(code_shred()).unwrap();
    assert_eq!(c.kind(), ShredKind::Code);
    assert_eq!(c.erasure_shard_index(), 40);
    assert_eq!(c.erasure_shard().len(), 987);
}

#[test]
fn repair_nonce_is_dropped() {
    let mut s = data_shred();
    s.extend_from_slice(&[1, 2, 3, 4]);
    let d = parse(s).unwrap();
    assert_eq!(d.bytes().len(), DATA_SHRED_SIZE);
}

#[test]
fn trailing_bytes_change_nothing() {
    let plain = parse(code_shred()).unwrap();
    let mut s = code_shred();
    s.extend_from_slice(&[9; 20]);
    let padded = parse(s).unwrap();
    assert_eq!(padded, plain);
    assert_eq!(padded.bytes(), plain.bytes());
    assert_eq!(padded.clone(), plain);
}

#[test]
fn rejects_garbage() {
    assert_eq!(parse(vec![0; 10]), Err(ShredError::TooShort(10)));
    let mut s = data_shred();
    s[VARIANT_OFFSET] = 0xa6;
    assert_eq!(parse(s), Err(ShredError::InvalidVariant(0xa6)));
    let mut s = data_shred();
    s.truncate(1000);
    assert_eq!(parse(s), Err(ShredError::TooShort(1000)));
}

#[test]
fn rejects_packets_at_the_size_limits() {
    assert_eq!(parse(vec![]), Err(ShredError::TooShort(0)));
    assert_eq!(parse(vec![0x96; 64]), Err(ShredError::TooShort(64)));
    assert_eq!(parse(vec![0x96; 65]), Err(ShredError::TooShort(65)));
    let mut s = code_shred();
    s.truncate(CODE_SHRED_SIZE - 1);
    assert_eq!(parse(s), Err(ShredError::TooShort(CODE_SHRED_SIZE - 1)));
}

#[test]
fn rejects_bad_data_headers() {
    let mut s = data_shred();
    s[INDEX_OFFSET..INDEX_OFFSET + 4].copy_from_slice(&70u32.to_le_bytes());
    assert!(matches!(
        parse(s),
        Err(ShredError::FecSetMisaligned { .. })
    ));

    let mut s = data_shred();
    s[PARENT_OFFSET_OFFSET..PARENT_OFFSET_OFFSET + 2].copy_from_slice(&0u16.to_le_bytes());
    assert!(matches!(
        parse(s),
        Err(ShredError::InvalidParentOffset { .. })
    ));

    let mut s = data_shred();
    s[FLAGS_OFFSET] = 0x80;
    assert_eq!(parse(s), Err(ShredError::InvalidFlags(0x80)));

    // last-in-slot on index 35 does not close FEC set 32..64
    let mut s = data_shred();
    s[FLAGS_OFFSET] = FLAG_LAST_IN_SLOT;
    assert_eq!(parse(s), Err(ShredError::InvalidFlags(FLAG_LAST_IN_SLOT)));

    let mut s = data_shred();
    s[SIZE_OFFSET..SIZE_OFFSET + 2].copy_from_slice(&(88u16 + 964).to_le_bytes());
    assert_eq!(parse(s), Err(ShredError::InvalidSize(88 + 964)));
    let mut s = data_shred();
    s[SIZE_OFFSET..SIZE_OFFSET + 2].copy_from_slice(&87u16.to_le_bytes());
    assert_eq!(parse(s), Err(ShredError::InvalidSize(87)));
}

#[test]
fn data_header_errors_name_the_fields() {
    let mut s = data_shred();
    s[INDEX_OFFSET..INDEX_OFFSET + 4].copy_from_slice(&70u32.to_le_bytes());
    assert_eq!(
        parse(s),
        Err(ShredError::FecSetMisaligned {
            index: 70,
            fec_set_index: 32
        })
    );
    let mut s = data_shred();
    s[FEC_SET_INDEX_OFFSET..FEC_SET_INDEX_OFFSET + 4].copy_from_slice(&33u32.to_le_bytes());
    assert_eq!(
        parse(s),
        Err(ShredError::FecSetMisaligned {
            index: 35,
            fec_set_index: 33
        })
    );
    let mut s = data_shred();
    s[PARENT_OFFSET_OFFSET..PARENT_OFFSET_OFFSET + 2].copy_from_slice(&1001u16.to_le_bytes());
    assert_eq!(
        parse(s),
        Err(ShredError::InvalidParentOffset {
            slot: 1000,
            parent_offset: 1001
        })
    );
    let mut s = data_shred();
    s[INDEX_OFFSET..INDEX_OFFSET + 4].copy_from_slice(&32_768u32.to_le_bytes());
    assert_eq!(parse(s), Err(ShredError::IndexOutOfRange(32_768)));
}

#[test]
fn slot_zero_has_no_parent() {
    let mut s = data_shred();
    s[SLOT_OFFSET..SLOT_OFFSET + 8].copy_from_slice(&0u64.to_le_bytes());
    s[PARENT_OFFSET_OFFSET..PARENT_OFFSET_OFFSET + 2].copy_from_slice(&0u16.to_le_bytes());
    let d = parse(s).unwrap();
    assert_eq!(d.parent_slot(), Some(0));
}

#[test]
fn rejects_bad_erasure_config() {
    let mut s = code_shred();
    s[NUM_DATA_OFFSET..NUM_DATA_OFFSET + 2].copy_from_slice(&16u16.to_le_bytes());
    assert!(matches!(
        parse(s),
        Err(ShredError::InvalidErasureConfig { .. })
    ));
    let mut s = code_shred();
    s[POSITION_OFFSET..POSITION_OFFSET + 2].copy_from_slice(&32u16.to_le_bytes());
    assert!(matches!(
        parse(s),
        Err(ShredError::InvalidErasureConfig { .. })
    ));
}

#[test]
fn erasure_config_errors_name_the_fields() {
    let mut s = code_shred();
    s[NUM_CODE_OFFSET..NUM_CODE_OFFSET + 2].copy_from_slice(&16u16.to_le_bytes());
    assert_eq!(
        parse(s),
        Err(ShredError::InvalidErasureConfig {
            num_data: 32,
            num_code: 16,
            position: 8
        })
    );
    // A code shred cannot be further into its set than into its slot.
    let mut s = code_shred();
    s[INDEX_OFFSET..INDEX_OFFSET + 4].copy_from_slice(&7u32.to_le_bytes());
    assert!(matches!(
        parse(s),
        Err(ShredError::InvalidErasureConfig { .. })
    ));
    let mut s = code_shred();
    s[FEC_SET_INDEX_OFFSET..FEC_SET_INDEX_OFFSET + 4].copy_from_slice(&31u32.to_le_bytes());
    assert!(matches!(
        parse(s),
        Err(ShredError::InvalidErasureConfig { .. })
    ));
}

#[test]
fn flags_are_read() {
    let plain = parse(data_shred()).unwrap();
    assert_eq!(plain.flags(), Some(0));
    assert!(!plain.data_complete());
    assert!(!plain.last_in_slot());

    let mut s = data_shred();
    s[FLAGS_OFFSET] = FLAG_DATA_COMPLETE | 0x05;
    let d = parse(s).unwrap();
    assert!(d.data_complete());
    assert!(!d.last_in_slot());

    let mut s = data_shred();
    s[INDEX_OFFSET..INDEX_OFFSET + 4].copy_from_slice(&63u32.to_le_bytes());
    s[FLAGS_OFFSET] = FLAG_LAST_IN_SLOT;
    let d = parse(s).unwrap();
    assert!(d.data_complete());
    assert!(d.last_in_slot());
    assert_eq!(d.erasure_shard_index(), 31);

    let c = parse(code_shred()).unwrap();
    assert_eq!(c.flags(), None);
    assert!(!c.data_complete());
    assert!(!c.last_in_slot());
    assert_eq!(c.parent_slot(), None);
    assert_eq!(c.data(), &[] as &[u8]);
}

#[test]
fn parts_fill_the_shred() {
    // Every byte tells where it stands, so the parts can be told apart.
    let mut s: Vec<u8> = (0..DATA_SHRED_SIZE).map(|i| (i % 251) as u8).collect();
    s[64..88].copy_from_slice(&data_shred()[64..88]);
    s[VARIANT_OFFSET] = 0xb6;
    s[VERSION_OFFSET..VERSION_OFFSET + 2].copy_from_slice(&50_093u16.to_le_bytes());
    let d = parse(s.clone()).unwrap();
    assert!(d.resigned());
    assert!(d.is_data());
    assert_eq!(d.version(), 50_093);
    assert_eq!(d.fec_set_index(), 32);
    assert_eq!(d.proof_size(), 6);
    assert_eq!(d.signature(), &s[..64]);
    assert_eq!(d.data(), &s[88..500]);
    assert_eq!(d.erasure_shard(), &s[64..88 + 899]);
    assert_eq!(d.chained_merkle_root(), &s[987..1019]);
    assert_eq!(d.merkle_proof(), &s[1019..1139]);
    assert_eq!(d.retransmitter_signature(), Some(&s[1139..]));
    assert_eq!(d.merkle_leaf(), merkle::leaf(&s[64..1019]));
    assert_eq!(
        d.merkle_root(),
        merkle::root_from_proof(3, merkle::leaf(&s[64..1019]), &s[1019..1139])
    );
    assert!(d.merkle_root().is_some());

    let c = parse(code_shred()).unwrap();
    assert_eq!(c.retransmitter_signature(), None);
    assert_eq!(c.chained_merkle_root().len(), 32);
    assert_eq!(
        CODE_HEADERS_SIZE + c.erasure_shard().len() + 32 + c.merkle_proof().len(),
        CODE_SHRED_SIZE
    );
}

#[test]
fn proof_too_short_for_the_position_has_no_root() {
    let mut s = code_shred();
    s[VARIANT_OFFSET] = 0x65;
    let c = parse(s).unwrap();
    assert_eq!(c.proof_size(), 5);
    assert_eq!(c.merkle_root(), None);
}

#[test]
fn a_parsed_shred_parses_to_itself() {
    for mut packet in [data_shred(), code_shred()] {
        packet.extend_from_slice(&[7; 4]);
        let once = parse(packet).unwrap();
        let twice = parse(once.bytes().to_vec()).unwrap();
        assert_eq!(once, twice);
        assert_eq!(once.clone(), once);
    }
}

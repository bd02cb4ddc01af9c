use deshred::entry::{
    self, are_well_formed, decode, encode, first_signature, try_encode, BlockData, Entry,
};
use deshred::view;
use solana_message::compiled_instruction::CompiledInstruction;
use solana_message::{v0, v1, Address, Message, MessageHeader, VersionedMessage};
use solana_signature::Signature;
use solana_transaction::versioned::VersionedTransaction;

fn header() -> MessageHeader {
    MessageHeader {
        num_required_signatures: 1,
        num_readonly_signed_accounts: 0,
        num_readonly_unsigned_accounts: 1,
    }
}

fn keys() -> Vec<Address> {
    vec![
        Address::new_from_array([1u8; 32]),
        Address::new_from_array([2u8; 32]),
    ]
}

fn instructions() -> Vec<CompiledInstruction> {
    vec![CompiledInstruction {
        program_id_index: 1,
        accounts: vec![0],
        data: vec![1, 2, 3],
    }]
}

fn legacy() -> VersionedTransaction {
    VersionedTransaction {
        signatures: vec![Signature::from([5u8; 64])],
        message: VersionedMessage::Legacy(Message {
            header: header(),
            account_keys: keys(),
            recent_blockhash: solana_hash::Hash::new_from_array([9u8; 32]),
            instructions: instructions(),
        }),
    }
}

fn with_lookups() -> VersionedTransaction {
    VersionedTransaction {
        signatures: vec![Signature::from([6u8; 64])],
        message: VersionedMessage::V0(v0::Message {
            header: header(),
            account_keys: keys(),
            recent_blockhash: solana_hash::Hash::new_from_array([9u8; 32]),
            instructions: instructions(),
            address_table_lookups: vec![v0::MessageAddressTableLookup {
                account_key: Address::new_from_array([3u8; 32]),
                writable_indexes: vec![1, 2],
                readonly_indexes: vec![3],
            }],
        }),
    }
}

#[test]
fn v1_transaction_round_trips() {
    // Inline config, no lookup tables, signatures after the message. bincode
    // cannot read this; wincode does.
    let tx = VersionedTransaction {
        signatures: vec![Signature::from([7u8; 64])],
        message: VersionedMessage::V1(v1::Message {
            header: MessageHeader {
                num_required_signatures: 1,
                num_readonly_signed_accounts: 0,
                num_readonly_unsigned_accounts: 1,
            },
            config: v1::TransactionConfig {
                priority_fee: Some(5_000),
                compute_unit_limit: Some(200_000),
                loaded_accounts_data_size_limit: None,
                heap_size: None,
            },
            lifetime_specifier: solana_hash::Hash::new_from_array([9u8; 32]),
            account_keys: vec![
                Address::new_from_array([1u8; 32]),
                Address::new_from_array([2u8; 32]),
            ],
            instructions: vec![CompiledInstruction {
                program_id_index: 1,
                accounts: vec![0],
                data: vec![1, 2, 3],
            }],
        }),
    };
    let entries = vec![Entry {
        num_hashes: 3,
        hash: solana_hash::Hash::new_from_array([4u8; 32]),
        transactions: vec![tx],
    }];
    let bytes = encode(entries.clone());
    assert_eq!(bytes[..8], 1u64.to_le_bytes());
    match decode(&bytes).unwrap() {
        BlockData::Entries(decoded) => assert_eq!(decoded, entries),
        BlockData::BlockMarker => panic!("not a marker"),
    }
}

#[test]
fn zero_count_is_a_block_marker() {
    let mut bytes = vec![0u8; 8];
    bytes.extend_from_slice(&[1, 0, 42]);
    assert!(matches!(decode(&bytes), Ok(BlockData::BlockMarker)));
    assert!(decode(&[1, 2, 3]).is_err());
    assert!(decode(&[9u8; 40]).is_err());
}

#[test]
fn all_versions_survive_being_decoded_and_encoded_again() {
    let entries = vec![
        Entry {
            num_hashes: 0,
            hash: solana_hash::Hash::new_from_array([1u8; 32]),
            transactions: vec![legacy(), with_lookups()],
        },
        Entry {
            num_hashes: u64::MAX,
            hash: solana_hash::Hash::new_from_array([2u8; 32]),
            transactions: vec![],
        },
    ];
    let bytes = try_encode(entries.clone()).unwrap();
    assert_eq!(bytes[..8], 2u64.to_le_bytes());
    let Ok(BlockData::Entries(once)) = decode(&bytes) else {
        panic!("does not decode");
    };
    assert_eq!(once, entries);
    let again = encode(once);
    assert_eq!(again, bytes);
    let Ok(BlockData::Entries(twice)) = decode(&again) else {
        panic!("does not decode");
    };
    assert_eq!(twice, entries);
}

#[test]
fn bytes_after_the_entries_are_ignored() {
    let entries = vec![Entry {
        num_hashes: 12,
        hash: solana_hash::Hash::new_from_array([8u8; 32]),
        transactions: vec![legacy()],
    }];
    let mut bytes = encode(entries.clone());
    bytes.extend_from_slice(&[0; 700]);
    let Ok(BlockData::Entries(decoded)) = decode(&bytes) else {
        panic!("does not decode");
    };
    assert_eq!(decoded, entries);
}

#[test]
fn no_entries_encode_to_a_marker() {
    let bytes = encode(vec![]);
    assert_eq!(bytes, vec![0; 8]);
    assert!(matches!(decode(&bytes), Ok(BlockData::BlockMarker)));
}

#[test]
fn a_count_of_entries_that_are_not_there_is_an_error() {
    let bytes = encode(vec![Entry {
        num_hashes: 1,
        hash: solana_hash::Hash::new_from_array([1u8; 32]),
        transactions: vec![legacy()],
    }]);
    assert!(decode(&bytes[..bytes.len() - 1]).is_err());
    let mut more = bytes.clone();
    more[0] = 2;
    assert!(decode(&more).is_err());
    let mut many = bytes;
    many[7] = 0xff;
    assert!(decode(&many).is_err());
}

#[test]
fn too_many_signatures_cannot_be_encoded() {
    let mut tx = legacy();
    tx.signatures = vec![Signature::from([1u8; 64]); 70_000];
    let entries = vec![Entry {
        num_hashes: 1,
        hash: solana_hash::Hash::new_from_array([1u8; 32]),
        transactions: vec![tx],
    }];
    assert!(try_encode(entries).is_err());
}

#[test]
fn fields_become_entries() {
    let entries = entry::from_wire(vec![
        (3, solana_hash::Hash::new_from_array([4u8; 32]), vec![legacy()]),
        (5, solana_hash::Hash::new_from_array([6u8; 32]), vec![]),
    ]);
    assert_eq!(
        entries,
        vec![
            Entry {
                num_hashes: 3,
                hash: solana_hash::Hash::new_from_array([4u8; 32]),
                transactions: vec![legacy()],
            },
            Entry {
                num_hashes: 5,
                hash: solana_hash::Hash::new_from_array([6u8; 32]),
                transactions: vec![],
            },
        ]
    );
}

fn entry_of(transactions: Vec<VersionedTransaction>) -> Entry {
    Entry {
        num_hashes: 7,
        hash: solana_hash::Hash::new_from_array([3u8; 32]),
        transactions,
    }
}

fn v1_transaction() -> VersionedTransaction {
    VersionedTransaction {
        signatures: vec![Signature::from([8u8; 64])],
        message: VersionedMessage::V1(v1::Message {
            header: header(),
            config: v1::TransactionConfig {
                priority_fee: None,
                compute_unit_limit: Some(1),
                loaded_accounts_data_size_limit: Some(2),
                heap_size: Some(4096),
            },
            lifetime_specifier: solana_hash::Hash::new_from_array([9u8; 32]),
            account_keys: keys(),
            instructions: instructions(),
        }),
    }
}

#[test]
fn well_formed_entries_decode_from_what_they_are_encoded_to() {
    let entries = vec![
        entry_of(vec![legacy(), with_lookups(), v1_transaction()]),
        entry_of(vec![]),
        entry_of(vec![v1_transaction(), legacy()]),
    ];
    assert!(are_well_formed(&entries));
    for padding in [0, 1, 900] {
        let mut bytes = try_encode(entries.clone()).unwrap();
        bytes.extend(vec![0u8; padding]);
        let Ok(BlockData::Entries(decoded)) = decode(&bytes) else {
            panic!("does not decode");
        };
        assert_eq!(decoded, entries);
    }
    assert!(are_well_formed(&vec![]));
}

#[test]
fn transactions_that_cannot_be_told_apart_are_not_well_formed() {
    // One signature too many: what follows a v1 message is read by its header.
    let mut more = v1_transaction();
    more.signatures.push(Signature::from([1u8; 64]));
    let entries = vec![entry_of(vec![legacy()]), entry_of(vec![legacy(), more])];
    assert!(!are_well_formed(&entries));
    assert!(match decode(&encode(entries.clone())) {
        Ok(BlockData::Entries(decoded)) => decoded != entries,
        _ => true,
    });

    // So many signatures that their number is taken for a version.
    let mut many = legacy();
    many.signatures = vec![Signature::from([1u8; 64]); 128];
    let VersionedMessage::Legacy(message) = &mut many.message else {
        panic!("not legacy");
    };
    message.header.num_required_signatures = 128;
    message.account_keys = vec![Address::new_from_array([1u8; 32]); 130];
    assert!(many.sanitize().is_ok());
    let entries = vec![entry_of(vec![many])];
    assert!(!are_well_formed(&entries));
    assert!(decode(&encode(entries)).is_err());

    // No fee payer.
    let mut unsigned = legacy();
    unsigned.signatures.clear();
    assert!(!are_well_formed(&vec![entry_of(vec![unsigned])]));
}

#[test]
fn views_have_the_hash_and_the_signatures_of_their_entries() {
    let mut two = legacy();
    two.signatures = vec![Signature::from([2u8; 64]), Signature::from([4u8; 64])];
    let mut none = with_lookups();
    none.signatures.clear();
    assert_eq!(first_signature(&two), Some([2u8; 64]));
    assert_eq!(first_signature(&none), None);
    let mut first = entry_of(vec![two, none, v1_transaction()]);
    first.hash = solana_hash::Hash::new_from_array([0xabu8; 32]);
    assert_eq!(first.hash_bytes(), [0xabu8; 32]);
    let entries = vec![first, entry_of(vec![with_lookups()])];
    let segment = encode(entries.clone());
    let mut found = view::entries(&segment).unwrap();
    for entry in &entries {
        let entry_view = found.next().unwrap().unwrap();
        assert_eq!(entry_view.hash, &entry.hash_bytes());
        let mut views = entry_view.transactions();
        for tx in &entry.transactions {
            let tx_view = views.next().unwrap().unwrap();
            assert_eq!(tx_view.num_signatures() as usize, tx.signatures.len());
            if let Some(signature) = first_signature(tx) {
                assert_eq!(tx_view.signature(), &signature);
            }
        }
        assert!(views.next().is_none());
    }
    assert!(found.next().is_none());
}

use ip_network_table::network::Network;
use ip_network_table::serde_support::DecodeError;
use ip_network_table::serde_support::DecodeInput;
use ip_network_table::serde_support::IpNetworkTableVisitor;
use ip_network_table::table::IpNetworkTable;

fn v4(addr: u32, prefix: u8) -> Network {
    Network::new(false, addr as u128, prefix).unwrap()
}

fn v6(addr: u128, prefix: u8) -> Network {
    Network::new(true, addr, prefix).unwrap()
}

/// The four-entry table used by the round-trip scenarios.
fn sample_table() -> IpNetworkTable<i32> {
    let mut table = IpNetworkTable::new();
    table.insert(v4(0x7f00_0001, 32), 1);
    table.insert(v6(0x2001_0db8_u128 << 96, 32), 2);
    table.insert(v4(0x7f00_0002, 32), 3);
    table.insert(v4(0x7f00_0000, 8), 4);
    table
}

/// Serializes the table and pairs each emitted key with its value.
fn encoded_entries(table: &IpNetworkTable<i32>) -> (usize, Vec<(String, i32)>) {
    let (size_hint, keys) = table.serialize();
    let entries = keys
        .into_iter()
        .enumerate()
        .map(|(i, key)| (key, *table.value_at(i)))
        .collect();
    (size_hint, entries)
}

#[test]
fn test_serde() {
    let table = sample_table();
    let (_, entries) = encoded_entries(&table);
    let rebuilt = IpNetworkTable::<i32>::deserialize(DecodeInput::Entries(entries)).unwrap();
    assert_eq!(rebuilt.num_entries(), table.num_entries());
    for i in 0..table.num_entries() {
        assert_eq!(rebuilt.key_at(i), table.key_at(i));
        assert_eq!(rebuilt.value_at(i), table.value_at(i));
    }
}

#[test]
fn unit_input_decodes_to_empty_table() {
    let table = IpNetworkTable::<i32>::deserialize(DecodeInput::Unit).unwrap();
    assert_eq!(table.num_entries(), 0);
    assert_eq!(table.len(), (0, 0));
}

#[test]
fn empty_table_round_trips() {
    let table = IpNetworkTable::<i32>::new();
    let (size_hint, entries) = encoded_entries(&table);
    assert_eq!(size_hint, 0);
    assert!(entries.is_empty());
    let rebuilt = IpNetworkTable::<i32>::deserialize(DecodeInput::Entries(entries)).unwrap();
    assert_eq!(rebuilt.num_entries(), 0);
    assert_eq!(rebuilt.len(), (0, 0));
}

#[test]
fn size_hint_equals_family_counts() {
    let table = sample_table();
    let (v4_count, v6_count) = table.len();
    let (size_hint, keys) = table.serialize();
    assert_eq!(size_hint, v4_count + v6_count);
    assert_eq!(size_hint, 4);
    assert_eq!(keys.len(), 4);
}

#[test]
fn encoded_keys_are_canonical_cidr_text() {
    let table = sample_table();
    let (_, keys) = table.serialize();
    assert_eq!(keys, vec!["127.0.0.1/32", "2001:db8::/32", "127.0.0.2/32", "127.0.0.0/8"]);
}

#[test]
fn decoding_parses_key_text_into_network() {
    let entries = vec![("192.168.1.0/24".to_string(), 5)];
    let table = IpNetworkTable::<i32>::deserialize(DecodeInput::Entries(entries)).unwrap();
    assert_eq!(table.exact_match(&v4(0xc0a8_0100, 24)), Some(&5));
}

#[test]
fn duplicate_key_keeps_later_value() {
    let entries = vec![("10.0.0.0/8".to_string(), 1), ("10.0.0.0/8".to_string(), 2)];
    let table = IpNetworkTable::<i32>::deserialize(DecodeInput::Entries(entries)).unwrap();
    assert_eq!(table.num_entries(), 1);
    assert_eq!(table.exact_match(&v4(0x0a00_0000, 8)), Some(&2));
}

#[test]
fn invalid_key_fails_the_decode() {
    let entries = vec![("not-a-network".to_string(), 1)];
    let r = IpNetworkTable::<i32>::deserialize(DecodeInput::Entries(entries));
    assert!(matches!(r, Err(DecodeError::InvalidKey(0))));

    let entries = vec![
        ("10.0.0.0/8".to_string(), 1),
        ("10.0.0.0/33".to_string(), 2),
        ("10.0.0.0/8".to_string(), 3),
    ];
    let r = IpNetworkTable::<i32>::deserialize(DecodeInput::Entries(entries));
    assert!(matches!(r, Err(DecodeError::InvalidKey(1))));
}

#[test]
fn visitor_methods_drive_the_decode() {
    let empty = IpNetworkTableVisitor::<i32>::new().visit_unit();
    assert_eq!(empty.num_entries(), 0);
    let entries = vec![("127.0.0.1/32".to_string(), 9)];
    let table = IpNetworkTableVisitor::<i32>::new().visit_map(entries).unwrap();
    assert_eq!(table.exact_match(&v4(0x7f00_0001, 32)), Some(&9));
}

#[test]
fn encode_then_decode_rebuilds_the_table() {
    let rebuilt = IpNetworkTable::encode_then_decode(sample_table());
    let expected = sample_table();
    assert_eq!(rebuilt.num_entries(), expected.num_entries());
    for i in 0..expected.num_entries() {
        assert_eq!(rebuilt.key_at(i), expected.key_at(i));
        assert_eq!(rebuilt.value_at(i), expected.value_at(i));
    }
}

#[test]
fn four_entry_scenario_round_trips_lookups() {
    let table = sample_table();
    let (size_hint, entries) = encoded_entries(&table);
    assert_eq!(size_hint, 4);
    assert_eq!(entries.len(), 4);
    let rebuilt = IpNetworkTable::<i32>::deserialize(DecodeInput::Entries(entries)).unwrap();
    assert_eq!(rebuilt.exact_match(&v4(0x7f00_0000, 8)), Some(&4));
    assert_eq!(rebuilt.exact_match(&v6(0x2001_0db8_u128 << 96, 32)), Some(&2));
}

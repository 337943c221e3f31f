use ip_network_table::network::Network;
use ip_network_table::table::IpNetworkTable;

fn v4(addr: u32, prefix: u8) -> Network {
    Network::new(false, addr as u128, prefix).unwrap()
}

fn v6(addr: u128, prefix: u8) -> Network {
    Network::new(true, addr, prefix).unwrap()
}

#[test]
fn network_new_accepts_canonical_prefixes() {
    let n = v4(0x7f00_0001, 32);
    assert!(!n.is_v6);
    assert_eq!(n.addr, 0x7f00_0001);
    assert_eq!(n.prefix, 32);

    let m = v6(0x2001_0db8_u128 << 96, 32);
    assert!(m.is_v6);
    assert_eq!(m.addr, 0x2001_0db8_u128 << 96);
    assert_eq!(m.prefix, 32);

    assert_eq!(Network::new(false, 0, 0), Some(Network { is_v6: false, addr: 0, prefix: 0 }));
    assert_eq!(Network::new(true, 0, 128), Some(Network { is_v6: true, addr: 0, prefix: 128 }));
}

#[test]
fn network_new_rejects_bad_prefixes() {
    // Prefix length beyond the family width.
    assert_eq!(Network::new(false, 0, 33), None);
    assert_eq!(Network::new(true, 0, 129), None);
    // Address too wide for IPv4.
    assert_eq!(Network::new(false, 0x1_0000_0000, 8), None);
    // Host bits set below the prefix.
    assert_eq!(Network::new(false, 0x7f00_0001, 8), None);
    assert_eq!(Network::new(true, 1, 32), None);
}

#[test]
fn insert_returns_previous_value_on_same_prefix() {
    let mut table = IpNetworkTable::<i32>::new();
    let net = v4(0x0a00_0000, 8);
    assert_eq!(table.insert(net, 1), None);
    assert_eq!(table.insert(net, 2), Some(1));
    assert_eq!(table.num_entries(), 1);
    assert_eq!(table.exact_match(&net), Some(&2));
}

#[test]
fn len_counts_each_family() {
    let mut table = IpNetworkTable::<i32>::new();
    assert_eq!(table.len(), (0, 0));
    table.insert(v4(0x7f00_0001, 32), 1);
    table.insert(v6(0x2001_0db8_u128 << 96, 32), 2);
    table.insert(v4(0x7f00_0002, 32), 3);
    table.insert(v4(0x7f00_0000, 8), 4);
    assert_eq!(table.len(), (3, 1));
    assert_eq!(table.num_entries(), 4);
}

#[test]
fn exact_match_misses_absent_prefixes() {
    let mut table = IpNetworkTable::<i32>::new();
    table.insert(v4(0x7f00_0000, 8), 4);
    // Same address, different prefix length: a different key.
    assert_eq!(table.exact_match(&v4(0x7f00_0000, 9)), None);
    // An IPv6 prefix of the same length: a different key.
    assert_eq!(table.exact_match(&v6(0x7f00_0000_u128 << 96, 8)), None);
    assert_eq!(table.exact_match(&v4(0x7f00_0000, 8)), Some(&4));
}

#[test]
fn into_entries_keeps_insertion_order() {
    let mut table = IpNetworkTable::<i32>::new();
    table.insert(v4(0x7f00_0001, 32), 1);
    table.insert(v6(0x2001_0db8_u128 << 96, 32), 2);
    table.insert(v4(0x7f00_0002, 32), 3);
    let entries = table.into_entries();
    assert_eq!(
        entries,
        vec![
            (v4(0x7f00_0001, 32), 1),
            (v6(0x2001_0db8_u128 << 96, 32), 2),
            (v4(0x7f00_0002, 32), 3),
        ]
    );
}

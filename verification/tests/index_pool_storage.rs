use nullae::storage::{decode_stored_value, encode_key, StorageBackend};
use nullae::entity::domain::Domain;
use nullae::entity::pool::{ipv4_string, Pool, Subnet};
use nullae::entity::{Entity, HashID};
use nullae::error::Error;
use nullae::index::Item;
use nullae::storage::{combine_found, hash_contains, pick_single, prefix_end_bytes, range_end_for_prefix, str_contains, Record};
use nullae::ui::{Config, ShortenRequest};

fn id(n: u8) -> HashID {
    let mut b = [0u8; 32];
    b[0] = n;
    HashID::from_bytes(b)
}

fn ip(a: u32, b: u32, c: u32, d: u32) -> u32 {
    (a << 24) | (b << 16) | (c << 8) | d
}

#[test]
fn item_new_path_and_values() {
    let it = Item::new("name", "local", &id(1)).unwrap();
    assert_eq!(it.path(), "0ae/index/name/local");
    assert!(!it.is_empty());
    let v = it.value();
    assert_eq!(v.len(), 1);
    assert!(v[0] == id(1));
}

#[test]
fn item_merge_sorts_and_dedups() {
    let mut a = Item::new("name", "k", &id(3)).unwrap();
    a.merge(Item::new("name", "k", &id(1)).unwrap());
    a.merge(Item::new("name", "k", &id(3)).unwrap());
    a.merge(Item::new("name", "k", &id(2)).unwrap());
    let v = a.value();
    assert_eq!(v.len(), 3);
    assert!(v[0] == id(1) && v[1] == id(2) && v[2] == id(3));
}

#[test]
fn item_subtract_then_empty() {
    let mut a = Item::new("name", "k", &id(1)).unwrap();
    a.merge(Item::new("name", "k", &id(2)).unwrap());
    a.subtract(Item::new("name", "k", &id(1)).unwrap());
    assert!(!a.is_empty());
    a.subtract(Item::new("name", "k", &id(2)).unwrap());
    assert!(a.is_empty());
}

#[test]
fn subnet_allocates_in_order() {
    let mut s = Subnet::new(ip(192, 168, 1, 0), 30);
    assert_eq!(s.allocate(), Some(ip(192, 168, 1, 1)));
    assert_eq!(s.allocate(), Some(ip(192, 168, 1, 2)));
    assert_eq!(s.allocate(), None);
    assert!(s.release(&ip(192, 168, 1, 1)));
    assert!(!s.release(&ip(192, 168, 1, 1)));
    assert_eq!(s.allocate(), Some(ip(192, 168, 1, 1)));
    assert!(s.is_allocated(&ip(192, 168, 1, 2)));
}

#[test]
fn subnet_ranges_and_blocks() {
    let mut s = Subnet::new(ip(10, 0, 0, 0), 29);
    assert!(s.contains(&ip(10, 0, 0, 1)));
    assert!(s.contains(&ip(10, 0, 0, 6)));
    assert!(!s.contains(&ip(10, 0, 0, 0)));
    assert!(!s.contains(&ip(10, 0, 0, 7)));
    assert!(s.reserve_specific(ip(10, 0, 0, 2)));
    assert!(!s.reserve_specific(ip(10, 0, 0, 2)));
    assert!(!s.reserve_specific(ip(10, 0, 0, 7)));
    assert_eq!(s.reserve_block(3), Some(vec![ip(10, 0, 0, 3), ip(10, 0, 0, 4), ip(10, 0, 0, 5)]));
    assert_eq!(s.reserve_block(2), None);
    assert_eq!(s.reserve_block(1), Some(vec![ip(10, 0, 0, 1)]));
    let mut t = Subnet::new(ip(10, 0, 0, 0), 31);
    assert_eq!(t.allocate(), None);
}

#[test]
fn subnets_near_the_top_of_the_address_space() {
    let mut s = Subnet::new(0xFFFF_FFF0, 24);
    assert_eq!(s.allocate(), Some(0xFFFF_FFF1));
    assert_eq!(s.allocate(), Some(0xFFFF_FFF2));
    assert_eq!(s.reserve_block(3), Some(vec![0xFFFF_FFF3, 0xFFFF_FFF4, 0xFFFF_FFF5]));
    assert!(s.is_allocated(&0xFFFF_FFF4));
}

#[test]
fn pools_accept_any_subnet_until_it_is_used() {
    let mut p = Pool::new("pool", &id(1)).unwrap();
    p.add_subnet(ip(10, 0, 0, 1), 32);
    p.add_subnet(ip(10, 0, 1, 0), 0);
    assert!(!p.is_allocated(&ip(10, 0, 0, 1)));
    assert!(!p.release(&ip(10, 0, 0, 1)));
    assert_eq!(p.allocate_from("10.0.2.0/24"), None);
}

#[test]
fn pool_manages_subnets_by_cidr() {
    let mut p = Pool::new("pool", &id(1)).unwrap();
    p.add_subnet(ip(192, 168, 1, 0), 30);
    p.add_subnet(ip(10, 0, 0, 0), 29);
    assert_eq!(p.allocate_from("192.168.1.0/30"), Some(ip(192, 168, 1, 1)));
    assert_eq!(p.allocate_from("172.16.0.0/12"), None);
    assert!(p.is_allocated(&ip(192, 168, 1, 1)));
    assert!(p.release(&ip(192, 168, 1, 1)));
    assert!(!p.is_allocated(&ip(192, 168, 1, 1)));
    assert!(!p.release(&ip(192, 168, 1, 1)));
    assert!(p.reserve_specific("10.0.0.0/29", ip(10, 0, 0, 4)));
    assert!(!p.reserve_specific("10.9.0.0/29", ip(10, 0, 0, 4)));
    assert_eq!(p.reserve_block("10.0.0.0/29", 2), Some(vec![ip(10, 0, 0, 1), ip(10, 0, 0, 2)]));
    assert!(p.contains(&ip(10, 0, 0, 6)));
    assert!(!p.contains(&ip(8, 8, 8, 8)));
    p.add_subnet(ip(10, 0, 0, 0), 29);
    assert!(!p.is_allocated(&ip(10, 0, 0, 4)));
}

#[test]
fn ipv4_dotted_text() {
    assert_eq!(ipv4_string(ip(192, 168, 1, 0)), "192.168.1.0");
    assert_eq!(ipv4_string(0), "0.0.0.0");
    assert_eq!(ipv4_string(u32::MAX), "255.255.255.255");
}

#[test]
fn prefix_range_ends() {
    assert_eq!(prefix_end_bytes(b"0ae/entity/"), Some(b"0ae/entity0".to_vec()));
    assert_eq!(prefix_end_bytes(&[0x61, 0xff, 0xff]), Some(vec![0x62]));
    assert_eq!(prefix_end_bytes(&[0xff, 0xff]), None);
    assert_eq!(prefix_end_bytes(&[]), None);
    assert_eq!(range_end_for_prefix("ab"), Some("YWM=".to_string()));
    assert_eq!(range_end_for_prefix(""), None);
}

#[test]
fn record_value_decodes_base64() {
    let r = Record { create_index: 1, flags: 0, key: "k".to_string(), lock_index: 0, modify_index: 1, value: "eyJhIjoxfQ==".to_string() };
    assert_eq!(r.value_as_slice().unwrap(), b"{\"a\":1}".to_vec());
    let bad = Record { create_index: 1, flags: 0, key: "k".to_string(), lock_index: 0, modify_index: 1, value: "!!".to_string() };
    assert!(bad.value_as_slice().is_err());
}

#[test]
fn search_results_combine_and_dedup() {
    let d1 = Domain::new("a").unwrap();
    let h1 = d1.hash.as_hex();
    let found = combine_found(
        Some(Entity::from_domain(Domain::new("a").unwrap())),
        None,
        vec![],
        vec![Entity::from_domain(d1), Entity::from_domain(Domain::new("b").unwrap())],
        vec![],
        "a",
    )
    .unwrap();
    assert_eq!(found.len(), 2);
    assert_eq!(found[0].hash().as_hex(), h1);
    let dup = combine_found(
        None,
        None,
        vec![],
        vec![],
        vec![Entity::from_domain(Domain::new("a").unwrap()), Entity::from_domain(Domain::new("b").unwrap())],
        "c",
    );
    assert!(matches!(dup, Err(Error::DuplicateEntity { .. })));
}

#[test]
fn partial_hash_matching() {
    let e = Entity::from_domain(Domain::new("local").unwrap());
    assert!(hash_contains(&e, "cdaa1c"));
    assert!(hash_contains(&e, "3ad32"));
    assert!(!hash_contains(&e, "zzz"));
    assert!(str_contains("abc", ""));
    assert!(!str_contains("ab", "abc"));
}

#[test]
fn single_pick_requires_same_hash() {
    assert!(pick_single(vec![]).is_none());
    let one = pick_single(vec![Entity::from_domain(Domain::new("a").unwrap()), Entity::from_domain(Domain::new("a").unwrap())]);
    assert!(one.is_some());
    let mixed = pick_single(vec![Entity::from_domain(Domain::new("a").unwrap()), Entity::from_domain(Domain::new("b").unwrap())]);
    assert!(mixed.is_none());
}

#[test]
fn shorten_request_and_config() {
    assert!(ShortenRequest { url: "https://example.com".to_string() }.validate_url());
    assert!(!ShortenRequest { url: "example".to_string() }.validate_url());
    let dev = Config::new(true);
    assert_eq!(dev.api_url("/api/v1/short"), "http://localhost:3000/api/v1/short");
    assert_eq!(Config::new(false).api_base_url, "https://api.lab.0ae.ru");
}

#[test]
fn storage_backend_selection() {
    let s = |v: &str| Some(v.to_string());
    assert!(matches!(StorageBackend::select(s("http://etcd:2379"), None), StorageBackend::Etcd));
    assert!(matches!(StorageBackend::select(s("http://etcd:2379"), s("consul")), StorageBackend::Etcd));
    assert!(matches!(StorageBackend::select(s(""), s("etcd")), StorageBackend::Etcd));
    assert!(matches!(StorageBackend::select(s(""), s("consul")), StorageBackend::Consul));
    assert!(matches!(StorageBackend::select(None, s("redis")), StorageBackend::Consul));
    assert!(matches!(StorageBackend::select(None, None), StorageBackend::Consul));
}

#[test]
fn stored_keys_and_values_are_base64() {
    assert_eq!(encode_key("0ae"), "MGFl");
    assert_eq!(encode_key("0ae/index/slug/ab"), "MGFlL2luZGV4L3NsdWcvYWI=");
    assert_eq!(decode_stored_value("eyJhIjoxfQ==").unwrap(), b"{\"a\":1}".to_vec());
    assert!(decode_stored_value("not base64!").is_err());
}

use nullae::entity::attributes::Attributes;
use nullae::entity::domain::{Domain, DomainView};
use nullae::entity::interface::Interface;
use nullae::entity::ip::{Ip, IpView};
use nullae::entity::node::{
    get_host_info, group_by_domain, ips_line, HardwareInfo, NetworkInfo, NetworkInterface, Node,
    NodeView, OsInfo, StorageDevice,
};
use nullae::entity::url::Url;
use nullae::entity::{entity_rows, DeletePlan, Entity, EntityKind, HashID};
use nullae::error::Error;
use nullae::hex_codec::HexError;
use nullae::Indexable;

fn id(n: u8) -> HashID {
    let mut b = [0u8; 32];
    b[0] = n;
    HashID::from_bytes(b)
}

#[test]
fn hash_id_hex_forms() {
    let h = HashID::from_hex("ba7816bf8f01cfea414140de5dae2223b00361a396177a9cb410ff61f20015ad").unwrap();
    assert_eq!(h.as_hex(), "ba7816bf8f01cfea414140de5dae2223b00361a396177a9cb410ff61f20015ad");
    assert_eq!(h.short_hash(), "ba7816bf");
    assert_eq!(h.short_hash_decorated(), "[ba7816bf]");
    assert_eq!(h.as_bytes()[0], 0xba);
    let upper = HashID::from_hex("BA7816BF8F01CFEA414140DE5DAE2223B00361A396177A9CB410FF61F20015AD").unwrap();
    assert!(upper == h);
}

#[test]
fn hash_id_parse_errors() {
    assert!(matches!(HashID::from_hex("abc"), Err(HexError::OddLength)));
    assert!(matches!(
        HashID::from_hex("zz"),
        Err(HexError::InvalidHexCharacter { c: 'z', index: 0 })
    ));
    assert!(matches!(
        HashID::from_hex("0g"),
        Err(HexError::InvalidHexCharacter { c: 'g', index: 1 })
    ));
    assert!(matches!(HashID::from_hex("abcd"), Err(HexError::InvalidStringLength)));
    let h: Result<HashID, HexError> = "00".parse();
    assert!(matches!(h, Err(HexError::InvalidStringLength)));
}

#[test]
fn hash_id_roundtrip_law_example() {
    let h = id(7);
    let back = HashID::from_hex(&h.as_hex()).unwrap();
    assert!(back == h);
}

#[test]
fn domain_new_validates_and_hashes() {
    let d = Domain::new("local").unwrap();
    assert_eq!(d.name, "local");
    assert!(d.description.is_none());
    assert_eq!(d.hash.as_hex(), "cdaa1c95e2db8d69334b7447ca40514eb0957b5b5a67f039b353e273fbc3ad32");
    assert!(matches!(Domain::new("   "), Err(Error::EmptyDomainName)));
    assert!(matches!(Domain::new(""), Err(Error::EmptyDomainName)));
    let long = "a".repeat(256);
    assert!(matches!(Domain::new(&long), Err(Error::DomainNameTooLong { len: 256 })));
    assert!(Domain::new(&"a".repeat(255)).is_ok());
    let multibyte = "é".repeat(128);
    assert!(matches!(Domain::new(&multibyte), Err(Error::DomainNameTooLong { len: 256 })));
}

#[test]
fn domain_view_and_index() {
    let mut d = Domain::new("local").unwrap();
    let v = DomainView::from_domain(&d);
    assert_eq!(v.name, "local");
    assert_eq!(v.description, "");
    assert_eq!(v.hash, d.hash.as_hex());
    d.description = Some("Local development domain".to_string());
    assert_eq!(DomainView::from_domain(&d).description, "Local development domain");
    let items = d.index().unwrap().value();
    assert_eq!(items.len(), 1);
    assert_eq!(items[0].path(), "0ae/index/name/local");
}

#[test]
fn node_new_validates_and_hashes() {
    let domain = Domain::new("production").unwrap();
    let node = Node::new("app-server-01", &domain.hash).unwrap();
    assert_eq!(node.hostname, "app-server-01");
    assert!(node.domain == domain.hash);
    assert_eq!(node.hash.as_hex(), "f410b93ad4826cb1cef083d5709f99366d7066a26edaa8aa0643a70d66e8e1f1");
    assert!(matches!(Node::new(" \t", &domain.hash), Err(Error::EmptyHostname)));
    assert!(matches!(Node::new(&"h".repeat(300), &domain.hash), Err(Error::HostnameTooLong { len: 300 })));
    let items = node.index().unwrap().value();
    assert_eq!(items[0].path(), "0ae/index/hostname/app-server-01");
}

#[test]
fn node_builders_and_tags() {
    let node = Node::new("n1", &id(1)).unwrap();
    assert_eq!(node.tags(), "");
    let node = node.with_environment("prod").with_tags(vec!["k8s".to_string(), "web".to_string()]);
    assert_eq!(node.environment.as_deref(), Some("prod"));
    assert_eq!(node.tags(), "k8s, web");
}

#[test]
fn node_last_seen_formats() {
    let mut node = Node::new("n1", &id(1)).unwrap();
    assert_eq!(node.last_seen(), "");
    node.last_seen = Some(0);
    assert_eq!(node.last_seen(), "1970-01-01 00:00:00");
    node.last_seen = Some(1_700_000_000);
    assert_eq!(node.last_seen(), "2023-11-14 22:13:20");
    node.last_seen = Some(i64::MAX);
    assert_eq!(node.last_seen(), "9223372036854775807");
    node.heartbeat();
    assert!(node.last_seen.is_some());
}

#[test]
fn host_info_splits_at_first_dot() {
    assert_eq!(get_host_info("web1.example.com"), ("web1".to_string(), "example.com".to_string()));
    assert_eq!(get_host_info("localhost"), ("localhost".to_string(), String::new()));
    assert_eq!(get_host_info(""), (String::new(), String::new()));
}

#[test]
fn node_view_formats_fields() {
    let mut node = Node::new("app", &id(1)).unwrap();
    let bare = NodeView::from_parts(&node, "dom".to_string(), &vec![]);
    assert_eq!(bare.os, "\u{2014}");
    assert_eq!(bare.specs, "\u{2014}");
    assert_eq!(bare.ips, "\u{2014}");
    assert_eq!(bare.environment, "\u{2014}");
    assert_eq!(bare.tags, "\u{2014}");
    node.os_info = Some(OsInfo { os_type: "linux".to_string(), arch: "x86_64".to_string() });
    node.hardware = Some(HardwareInfo {
        cpu_model: "cpu".to_string(),
        cpu_cores: 8,
        total_memory_gb: 16,
        memory_modules: None,
        storage: Some(vec![
            StorageDevice { model: "a".to_string(), size: 3 * 1024 * 1024 * 1024 },
            StorageDevice { model: "b".to_string(), size: 1024 * 1024 * 1024 + 5 },
        ]),
    });
    let addrs = vec![
        "fe80::1".to_string(),
        "10.0.0.1".to_string(),
        "10.0.0.2".to_string(),
        "::1".to_string(),
    ];
    let v = NodeView::from_parts(&node, "dom".to_string(), &addrs);
    assert_eq!(v.os, "linux (x86_64)");
    assert_eq!(v.specs, "8c / 16GB RAM / 4GB Disk");
    assert_eq!(v.ips, "10.0.0.1, 10.0.0.2, fe80::1, +1 more");
    assert_eq!(v.domain, "dom");
    assert_eq!(ips_line(&addrs), "10.0.0.1 10.0.0.2 fe80::1 ::1");
}

#[test]
fn node_host_info_dedups_disks() {
    let mut node = Node::new("n", &id(1)).unwrap();
    node.created_at = Some(5);
    let disks = vec![
        ("sda".to_string(), 100u64, 50u64),
        ("sda".to_string(), 100u64, 50u64),
        ("sdb".to_string(), 200u64, 10u64),
    ];
    node.set_host_info("linux".to_string(), "arm".to_string(), None, 4, 8 * 1024 * 1024 * 1024, &disks, vec![], 77);
    let hw = node.hardware.as_ref().unwrap();
    assert_eq!(hw.cpu_model, "Unknown CPU");
    assert_eq!(hw.total_memory_gb, 8);
    let st = hw.storage.as_ref().unwrap();
    assert_eq!(st.len(), 2);
    assert_eq!(st[1].model, "sdb");
    assert_eq!(node.created_at, Some(5));
    assert_eq!(node.last_seen, Some(77));
}

#[test]
fn node_card_and_interfaces() {
    let mut node = Node::new("host", &id(2)).unwrap();
    node.environment = Some("prod".to_string());
    node.tags = Some(vec![]);
    node.network = Some(NetworkInfo {
        interfaces: vec![
            NetworkInterface { name: "lo".to_string(), mac: Some("00:00:00:00:00:00".to_string()), ips: vec![] },
            NetworkInterface { name: "eth0".to_string(), mac: Some("aa:bb".to_string()), ips: vec![] },
            NetworkInterface { name: "docker0".to_string(), mac: None, ips: vec![] },
            NetworkInterface { name: "wg0".to_string(), mac: None, ips: vec![id(3)] },
        ],
    });
    let rows = node.card_properties(&vec![]);
    assert_eq!(rows.len(), 4);
    assert_eq!(rows[0], ("Hostname".to_string(), "host".to_string()));
    assert_eq!(rows[1].1, id(2).short_hash_decorated());
    assert_eq!(rows[3], ("Environment".to_string(), "prod".to_string()));
    assert_eq!(node.card_title(), "\u{1f5b3}  NODE CARD: host");
    let (active, inactive) = node.interface_summary();
    assert_eq!(active.len(), 2);
    assert_eq!(active[0], ("eth0".to_string(), "aa:bb".to_string(), "\u{2014}".to_string()));
    assert_eq!(active[1].1, "No MAC");
    assert_eq!(active[1].2, id(3).short_hash_decorated());
    assert_eq!(inactive, vec!["docker0".to_string(), "lo".to_string()]);
}

#[test]
fn nodes_group_by_domain_in_first_seen_order() {
    let nodes = vec![
        Node::new("a", &id(2)).unwrap(),
        Node::new("b", &id(1)).unwrap(),
        Node::new("c", &id(2)).unwrap(),
    ];
    let (keys, groups) = group_by_domain(nodes);
    assert!(keys[0] == id(2) && keys[1] == id(1));
    assert_eq!(groups[0].len(), 2);
    assert_eq!(groups[0][1].hostname, "c");
    assert_eq!(groups[1][0].hostname, "b");
}

#[test]
fn ip_new_and_view() {
    let parent = id(9);
    let ip = Ip::new("10.0.0.1", 8, &parent).unwrap();
    assert_eq!(ip.address, "10.0.0.1");
    assert_eq!(ip.prefix, 8);
    assert_eq!(IpView::from_ip(&ip).address, "10.0.0.1/8");
    assert!(matches!(Ip::new(" ", 8, &parent), Err(Error::EmptyIpAddress)));
    assert!(matches!(Ip::new("nope", 8, &parent), Err(Error::InvalidIpAddress { .. })));
    assert_eq!(ip.index().unwrap().value()[0].path(), "0ae/index/address/10.0.0.1");
}

#[test]
fn url_new_slug_and_short_url() {
    let u = Url::new("https://example.com/search?q=rust").unwrap();
    assert_eq!(u.url(), "https://example.com/search?q=rust");
    assert_eq!(u.hash.as_hex(), "c7ec58e875475d843d0877e9e2151e8a022bcf3486c471d418724b2e5d43d1e9");
    assert_eq!(u.slug, "c7ec58e8");
    assert_eq!(u.short_url("https://0ae.ru"), "https://0ae.ru/c7ec58e8");
    assert!(matches!(Url::new("  "), Err(Error::EmptyUrl)));
    assert!(matches!(Url::new("not a url"), Err(Error::InvalidUrl { .. })));
    let normalized = Url::new("HTTP://Example.COM").unwrap();
    assert_eq!(normalized.url(), "http://example.com/");
}

#[test]
fn interface_collects_ips() {
    let mut i = Interface::new("eth0", &id(4)).unwrap();
    i.add_ips(vec![id(1)]);
    i.add_ips(vec![id(2), id(3)]);
    assert_eq!(i.ips.len(), 3);
    assert!(i.ips[2] == id(3));
    assert!(i.index().unwrap().value().is_empty());
}

#[test]
fn test_entity_attributes_lifecycle_in_memory() {
    let domain = Domain::new("production").unwrap();
    let mut entity = Entity::from_domain(domain);
    entity.set_attr("env".to_string(), serde_json::Value::from("prod"));
    entity.set_attr("priority".to_string(), serde_json::Value::from(1));
    entity.set_attr("active".to_string(), serde_json::Value::from(true));
    entity.set_attr("tags".to_string(), serde_json::Value::from(vec!["k8s", "web"]));
    entity.set_attr("nested".to_string(), serde_json::Value::from(serde_json::Map::new()));
    assert_eq!(entity.attr("env").unwrap(), &serde_json::Value::from("prod"));
    assert_eq!(entity.attr("priority").unwrap(), &serde_json::Value::from(1));
    let keys = entity.attributes().unwrap().keys();
    assert_eq!(keys, vec!["active", "env", "nested", "priority", "tags"]);
    entity.set_attr("env".to_string(), serde_json::Value::from("staging"));
    assert_eq!(entity.attr("env").unwrap(), &serde_json::Value::from("staging"));
    let removed = entity.remove_attr("priority");
    assert_eq!(removed.unwrap(), serde_json::Value::from(1));
    assert!(entity.attr("priority").is_none());
    assert!(entity.remove_attr("missing").is_none());
    entity.remove_attr("active");
    entity.remove_attr("env");
    entity.remove_attr("nested");
    entity.remove_attr("tags");
    assert!(entity.attributes().is_none());
    assert!(entity.metadata.updated_at.is_some());
}

#[test]
fn attributes_insert_returns_previous() {
    let mut a = Attributes::new();
    assert!(a.insert("k".to_string(), serde_json::Value::from(1)).is_none());
    assert_eq!(a.insert("k".to_string(), serde_json::Value::from(2)), Some(serde_json::Value::from(1)));
    assert_eq!(a.len(), 1);
    assert_eq!(a.get("k"), Some(&serde_json::Value::from(2)));
    assert_eq!(a.remove("k"), Some(serde_json::Value::from(2)));
    assert!(a.is_empty());
}

#[test]
fn entity_children_add_and_remove() {
    let mut e = Entity::from_domain(Domain::new("d").unwrap());
    assert!(!e.has_children());
    let child = id(5);
    e.add_child(&child.as_hex()).unwrap();
    e.add_child(&id(6).as_hex()).unwrap();
    assert!(e.has_children());
    assert!(matches!(e.add_child("xyz"), Err(Error::InvalidHash(HexError::OddLength))));
    e.remove_child(&child.as_hex());
    assert_eq!(e.metadata.children.as_ref().unwrap().len(), 1);
    e.remove_child(&id(6).as_hex());
    assert!(!e.has_children());
}

#[test]
fn delete_plan_refuses_entities_with_children() {
    let mut d = Entity::from_domain(Domain::new("d").unwrap());
    assert!(matches!(d.delete_plan(), Ok(DeletePlan::Plain)));
    let n = Entity::from_node(Node::new("n", &id(1)).unwrap());
    assert!(matches!(n.delete_plan(), Ok(DeletePlan::Node)));
    d.add_child(&id(2).as_hex()).unwrap();
    assert!(matches!(d.delete_plan(), Err(Error::HasChildren)));
    let mut e = Entity::from_domain(Domain::new("e").unwrap());
    let _ = e.add_child("not hex");
    assert!(matches!(e.delete_plan(), Err(Error::HasChildren)));
}

#[test]
fn failed_add_child_leaves_an_empty_list() {
    let mut e = Entity::from_domain(Domain::new("d").unwrap());
    assert!(matches!(e.add_child("zz"), Err(Error::InvalidHash(HexError::InvalidHexCharacter { .. }))));
    assert!(e.has_children());
    assert_eq!(e.metadata.children.as_ref().unwrap().len(), 0);
    assert!(matches!(e.add_child("ab"), Err(Error::InvalidHash(HexError::InvalidStringLength))));
    assert_eq!(e.metadata.children.as_ref().unwrap().len(), 0);
}

#[test]
fn entity_kinds_paths_and_conversions() {
    let d = Domain::new("d").unwrap();
    let hex = d.hash.as_hex();
    let e = Entity::from_domain(d);
    assert_eq!(e.kind_name(), "Domain");
    assert_eq!(e.path(), format!("0ae/entity/{}", hex));
    assert!(e.hash().as_hex() == hex);
    assert!(matches!(e.kind, EntityKind::Domain { .. }));
    let err = Entity::from_domain(Domain::new("x").unwrap()).into_node();
    assert!(matches!(err, Err(Error::WrongEntityKind { .. })));
    let back = Entity::from_node(Node::new("n", &id(1)).unwrap()).into_node().unwrap();
    assert_eq!(back.hostname, "n");
}

#[test]
fn entity_rows_sorted_by_kind_then_name() {
    let mut n = Node::new("zeta", &id(1)).unwrap();
    n.environment = Some("prod".to_string());
    let es = vec![
        Entity::from_node(n),
        Entity::from_domain(Domain::new("beta").unwrap()),
        Entity::from_domain(Domain::new("alpha").unwrap()),
        Entity::from_ip(Ip::new("10.0.0.1", 24, &id(1)).unwrap()),
    ];
    let os = vec![Some(OsInfo { os_type: "linux".to_string(), arch: "x86".to_string() }), None, None, None];
    let rows = entity_rows(&es, &os);
    let names: Vec<&str> = rows.iter().map(|r| r.name.as_str()).collect();
    assert_eq!(names, vec!["alpha", "beta", "10.0.0.1/24", "zeta"]);
    assert_eq!(rows[0].details, "\u{2014}");
    assert_eq!(rows[3].details, "prod / linux (x86)");
    assert_eq!(rows[3].kind, "Node");
}

#[test]
fn entity_rows_keep_order_of_equal_rows() {
    let mut first = Node::new("web", &id(1)).unwrap();
    first.environment = Some("one".to_string());
    let mut second = Node::new("web", &id(2)).unwrap();
    second.environment = Some("two".to_string());
    let es = vec![
        Entity::from_node(first),
        Entity::from_domain(Domain::new("web").unwrap()),
        Entity::from_node(second),
    ];
    let os = vec![None, None, None];
    let rows = entity_rows(&es, &os);
    let details: Vec<&str> = rows.iter().map(|r| r.details.as_str()).collect();
    assert_eq!(details, vec!["\u{2014}", "one", "two"]);
}

#[test]
fn hash_id_texts_are_64_hex_digits_in_either_case() {
    let upper = "ABCDEF0123456789".repeat(4);
    let h: HashID = upper.parse().unwrap();
    assert_eq!(h.as_hex(), upper.to_lowercase());
    let back: HashID = h.as_hex().parse().unwrap();
    assert!(back == h);
    assert!(matches!("ab".repeat(31).parse::<HashID>(), Err(HexError::InvalidStringLength)));
    assert!(matches!("ab".repeat(33).parse::<HashID>(), Err(HexError::InvalidStringLength)));
    assert!(matches!("a".repeat(63).parse::<HashID>(), Err(HexError::OddLength)));
    let bad = format!("{}g", "a".repeat(63));
    assert!(matches!(bad.parse::<HashID>(), Err(HexError::InvalidHexCharacter { index: 63, .. })));
}

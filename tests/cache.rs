use rdns::cache::DnsCache;
use rdns::domain_name::ToDomainName;
use rdns::records::{DNSRdata, DNSResourceRecord};

fn a_record(owner: &str, ttl: u32) -> DNSResourceRecord {
    DNSResourceRecord {
        name: String::from(owner).to_domain_name(),
        rtype: 1,
        class: 1,
        ttl,
        rdlength: 4,
        rdata: DNSRdata::A([192, 0, 2, 1]),
    }
}

#[test]
fn hit_rewrites_ttl_to_seconds_left() {
    let mut c = DnsCache::new();
    c.insert(a_record("example.com", 60), 1_000_000);
    let r = c.lookup(1, &String::from("example.com"), 1_030_500).unwrap();
    assert_eq!(r.ttl, 29);
    let r = c.lookup(1, &String::from("example.com"), 1_000_000).unwrap();
    assert_eq!(r.ttl, 60);
    assert!(c.lookup(28, &String::from("example.com"), 1_000_000).is_none());
    assert!(c.lookup(1, &String::from("example.org"), 1_000_000).is_none());
}

#[test]
fn expired_entry_is_a_miss_and_is_removed() {
    let mut c = DnsCache::new();
    c.insert(a_record("example.com", 60), 1_000_000);
    assert!(c.lookup(1, &String::from("example.com"), 1_060_000).is_none());
    // gone: even a lookup at an earlier time misses now
    assert!(c.lookup(1, &String::from("example.com"), 1_000_000).is_none());
}

#[test]
fn insert_replaces_the_entry_for_a_key() {
    let mut c = DnsCache::new();
    c.insert(a_record("example.com", 10), 0);
    c.insert(a_record("example.com", 100), 0);
    assert_eq!(c.lookup(1, &String::from("example.com"), 50_000).unwrap().ttl, 50);
}

#[test]
fn huge_ttl_saturates() {
    let mut c = DnsCache::new();
    c.insert(a_record("example.com", u32::MAX), u64::MAX - 5);
    assert!(c.lookup(1, &String::from("example.com"), u64::MAX - 5).is_some());
}

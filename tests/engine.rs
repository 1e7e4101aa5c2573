use rdns::domain_name::{DomainName, ToDomainName};
use rdns::dns::{IpAddress, Outgoing, PeerAddr, Rdns};
use rdns::records::{DNSPacket, DNSQuestion, DNSRdata, DNSResourceRecord};

const ROOTS: [u32; 13] = [
    0xC629_0004, // 198.41.0.4
    0xC709_0EC9, // 199.9.14.201
    0xC021_040C, // 192.33.4.12
    0xC707_5B0D, // 199.7.91.13
    0xC0CB_E60A, // 192.203.230.10
    0xC005_05F1, // 192.5.5.241
    0xC070_2404, // 192.112.36.4
    0xC661_BE35, // 198.97.190.53
    0xC024_9411, // 192.36.148.17
    0xC03A_801E, // 192.58.128.30
    0xC100_0E81, // 193.0.14.129
    0xC707_532A, // 199.7.83.42
    0xCA0C_1B21, // 202.12.27.33
];

fn name(s: &str) -> DomainName {
    String::from(s).to_domain_name()
}

fn client() -> PeerAddr {
    PeerAddr { ip: IpAddress::V4(0x0A00_0001), port: 40000 }
}

fn v4(a: u8, b: u8, c: u8, d: u8) -> u32 {
    u32::from_be_bytes([a, b, c, d])
}

fn upstream(ip: u32) -> PeerAddr {
    PeerAddr { ip: IpAddress::V4(ip), port: 53 }
}

fn rr(owner: &str, rtype: u16, ttl: u32, rdata: DNSRdata) -> DNSResourceRecord {
    DNSResourceRecord { name: name(owner), rtype, class: 1, ttl, rdlength: 0, rdata }
}

fn query(id: u16, qname: &str) -> Vec<u8> {
    let mut p = DNSPacket::new(id, true);
    p.header.rd = 1;
    p.questions.push(DNSQuestion::new(name(qname), 1));
    p.assemble().unwrap()
}

fn delegation(id: u16, qname: &str, ns: &str, glue: Option<[u8; 4]>) -> Vec<u8> {
    let mut p = DNSPacket::new(id, false);
    p.questions.push(DNSQuestion::new(name(qname), 1));
    p.authorities.push(rr("com", 2, 172800, DNSRdata::Ns(name(ns))));
    if let Some(ip) = glue {
        p.additionals.push(rr(ns, 1, 172800, DNSRdata::A(ip)));
    }
    p.assemble().unwrap()
}

fn answer(id: u16, qname: &str, ip: [u8; 4], ttl: u32) -> Vec<u8> {
    let mut p = DNSPacket::new(id, false);
    p.questions.push(DNSQuestion::new(name(qname), 1));
    p.answers.push(rr(qname, 1, ttl, DNSRdata::A(ip)));
    p.assemble().unwrap()
}

fn to_root(o: &Outgoing) -> bool {
    o.to.port == 53 && matches!(o.to.ip, IpAddress::V4(ip) if ROOTS.contains(&ip))
}

#[test]
fn glue_walk_reaches_the_answer_and_caches_it() {
    let mut e = Rdns::new();
    let q = query(0x0001, "example.com");
    let out = e.handle(&q, client(), 1_000).unwrap();
    assert!(to_root(&out));
    assert_eq!(out.packet.assemble().unwrap(), q);
    let root = out.to;

    let out = e.handle(&delegation(1, "example.com", "a.gtld-servers.net", Some([192, 0, 2, 53])), root, 1_100).unwrap();
    assert_eq!(out.to, upstream(v4(192, 0, 2, 53)));
    assert_eq!(out.packet.assemble().unwrap(), q);

    let out = e.handle(&delegation(1, "example.com", "ns.example.com", Some([192, 0, 2, 80])), upstream(v4(192, 0, 2, 53)), 1_200).unwrap();
    assert_eq!(out.to, upstream(v4(192, 0, 2, 80)));
    assert_eq!(out.packet.assemble().unwrap(), q);

    let a = answer(1, "example.com", [192, 0, 2, 1], 300);
    let out = e.handle(&a, upstream(v4(192, 0, 2, 80)), 1_300).unwrap();
    assert_eq!(out.to, client());
    assert_eq!(out.packet.assemble().unwrap(), a);

    // the answer is now cached: a fresh query is served from the cache
    let out = e.handle(&query(0x0002, "example.com"), client(), 1_300).unwrap();
    assert_eq!(out.to, client());
    assert_eq!(out.packet.answers.len(), 1);
    assert_eq!(out.packet.answers[0].ttl, 300);
}

#[test]
fn cache_hit_answers_directly() {
    let mut e = Rdns::new();
    let out = e.handle(&query(0x1111, "example.com"), client(), 0).unwrap();
    let root = out.to;
    e.handle(&answer(0x1111, "example.com", [192, 0, 2, 1], 60), root, 0).unwrap();
    // thirty seconds later the entry has thirty seconds left
    let out = e.handle(&query(0x1234, "example.com"), client(), 30_000).unwrap();
    assert_eq!(out.to, client());
    let p = &out.packet;
    assert_eq!(p.header.id, 0x1234);
    assert_eq!(p.header.qr, 1);
    assert_eq!(p.questions.len(), 1);
    assert_eq!(p.questions[0].qname, name("example.com"));
    assert_eq!(p.questions[0].qtype, 1);
    assert_eq!(p.answers.len(), 1);
    assert!(p.answers[0].ttl >= 29 && p.answers[0].ttl <= 30);
    assert_eq!(format!("{:?}", p.answers[0].rdata), format!("{:?}", DNSRdata::A([192, 0, 2, 1])));
}

#[test]
fn expired_cache_entry_starts_a_new_walk() {
    let mut e = Rdns::new();
    let out = e.handle(&query(7, "example.com"), client(), 0).unwrap();
    e.handle(&answer(7, "example.com", [192, 0, 2, 1], 60), out.to, 0).unwrap();
    let out = e.handle(&query(8, "example.com"), client(), 60_000).unwrap();
    assert!(to_root(&out));
}

#[test]
fn glueless_ns_is_resolved_first() {
    let mut e = Rdns::new();
    let q = query(0x0003, "example.com");
    let out = e.handle(&q, client(), 0).unwrap();
    let root = out.to;
    let out = e.handle(&delegation(3, "example.com", "ns.example.com", None), root, 0).unwrap();
    assert!(to_root(&out));
    let sub = &out.packet;
    assert_eq!(sub.header.id, 3);
    assert_eq!(sub.header.qr, 0);
    assert_eq!(sub.questions.len(), 1);
    assert_eq!(sub.questions[0].qname, name("ns.example.com"));
    assert_eq!((sub.questions[0].qtype, sub.questions[0].qclass), (1, 1));

    let out = e.handle(&answer(3, "ns.example.com", [192, 0, 2, 80], 300), out.to, 0).unwrap();
    assert_eq!(out.to, upstream(v4(192, 0, 2, 80)));
    assert_eq!(out.packet.assemble().unwrap(), q);
}

#[test]
fn non_a_sub_answer_abandons_the_resolution() {
    let mut e = Rdns::new();
    let out = e.handle(&query(4, "example.com"), client(), 0).unwrap();
    let out = e.handle(&delegation(4, "example.com", "ns.example.com", None), out.to, 0).unwrap();
    let mut p = DNSPacket::new(4, false);
    p.answers.push(rr("ns.example.com", 5, 10, DNSRdata::Cname(name("other.example.com"))));
    assert!(e.handle(&p.assemble().unwrap(), out.to, 0).is_none());
    // the id is free again: a response with it is dropped
    assert!(e.handle(&answer(4, "example.com", [1, 2, 3, 4], 5), out.to, 0).is_none());
}

#[test]
fn client_collision_is_refused_and_keeps_the_entry() {
    let mut e = Rdns::new();
    let q = query(0xABCD, "example.com");
    let out = e.handle(&q, client(), 0).unwrap();
    let root = out.to;
    let out = e.handle(&q, client(), 0).unwrap();
    assert_eq!(out.to, client());
    assert_eq!(out.packet.header.rcode, 5);
    assert_eq!(out.packet.header.id, 0xABCD);
    // still pending: the upstream answer is forwarded to the client
    let a = answer(0xABCD, "example.com", [192, 0, 2, 9], 60);
    let out = e.handle(&a, root, 0).unwrap();
    assert_eq!(out.to, client());
    assert_eq!(out.packet.assemble().unwrap(), a);
}

#[test]
fn malformed_datagram_is_dropped() {
    let mut e = Rdns::new();
    let junk = [0x9Fu8, 0x13, 0xE2, 0x00, 0x41, 0x7C, 0xFF];
    assert!(e.handle(&junk, client(), 0).is_none());
    assert!(e.handle(&[], client(), 0).is_none());
}

#[test]
fn response_without_pending_entry_is_dropped() {
    let mut e = Rdns::new();
    let a = answer(0x5555, "example.com", [192, 0, 2, 1], 60);
    assert!(e.handle(&a, upstream(v4(192, 0, 2, 80)), 0).is_none());
    let mut p = DNSPacket::new(0x5556, false);
    p.questions.push(DNSQuestion::new(name("example.com"), 1));
    assert!(e.handle(&p.assemble().unwrap(), client(), 0).is_none());
}

#[test]
fn referral_without_names_is_returned_to_the_client() {
    let mut e = Rdns::new();
    let out = e.handle(&query(9, "nothing.example"), client(), 0).unwrap();
    let mut p = DNSPacket::new(9, false);
    p.header.rcode = 3;
    p.questions.push(DNSQuestion::new(name("nothing.example"), 1));
    let empty = p.assemble().unwrap();
    let out = e.handle(&empty, out.to, 0).unwrap();
    assert_eq!(out.to, client());
    assert_eq!(out.packet.header.rcode, 3);
}

#[test]
fn query_without_question_is_dropped() {
    let mut e = Rdns::new();
    let p = DNSPacket::new(10, true);
    assert!(e.handle(&p.assemble().unwrap(), client(), 0).is_none());
}

#[test]
fn clock_driven_receive_starts_a_walk() {
    let mut e = Rdns::new();
    let out = e.receive(&query(11, "example.com"), client()).unwrap();
    assert!(to_root(&out));
}

fn delegation_to(id: u16, target: DomainName) -> Vec<u8> {
    let mut p = DNSPacket::new(id, false);
    p.questions.push(DNSQuestion::new(name("example.com"), 1));
    p.authorities.push(DNSResourceRecord { name: name("com"), rtype: 2, class: 1, ttl: 60, rdlength: 0, rdata: DNSRdata::Ns(target) });
    p.assemble().unwrap()
}

#[test]
fn glueless_root_ns_gives_a_writable_sub_query() {
    let mut e = Rdns::new();
    let out = e.handle(&query(0x0C0C, "example.com"), client(), 0).unwrap();
    let root_name: DomainName = Vec::new();
    let out = e.handle(&delegation_to(0x0C0C, root_name.clone()), out.to, 0).unwrap();
    assert!(to_root(&out));
    assert_eq!(out.packet.questions.len(), 1);
    assert_eq!(out.packet.questions[0].qname, root_name);
    assert!(out.packet.assemble().is_ok());
}

#[test]
fn dotted_ns_label_is_kept_whole_in_the_sub_query() {
    let mut e = Rdns::new();
    let out = e.handle(&query(0x0D0D, "example.com"), client(), 0).unwrap();
    let target: DomainName = vec![String::from("a.b"), String::from("com")];
    let out = e.handle(&delegation_to(0x0D0D, target.clone()), out.to, 0).unwrap();
    assert_eq!(out.packet.questions[0].qname, target);
    assert!(out.packet.assemble().is_ok());
}

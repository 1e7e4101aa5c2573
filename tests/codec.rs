use rdns::decode::ReadDomainName;
use rdns::domain_name::{DomainName, DomainNameToBytes, ToDomainName, ToReadableName};
use rdns::records::{
    CodecError, DNSClass, DNSHeader, DNSPacket, DNSQuestion, DNSRcode, DNSRdata, DNSResourceRecord,
    DNSType,
};

fn name(s: &str) -> DomainName {
    String::from(s).to_domain_name()
}

fn record(owner: &str, rtype: u16, ttl: u32, rdata: DNSRdata) -> DNSResourceRecord {
    DNSResourceRecord { name: name(owner), rtype, class: 1, ttl, rdlength: 0, rdata }
}

fn sample_packet() -> DNSPacket {
    let mut p = DNSPacket::new(0xBEEF, false);
    p.header.aa = 1;
    p.header.rd = 1;
    p.header.ra = 1;
    p.questions.push(DNSQuestion::new(name("example.com"), 1));
    p.answers.push(record("example.com", 1, 300, DNSRdata::A([192, 0, 2, 1])));
    p.answers.push(record("example.com", 28, 300, DNSRdata::Aaaa([0x20, 0x01, 0x0d, 0xb8, 0, 0, 0, 0, 0, 0, 0, 0, 0, 0, 0, 1])));
    p.answers.push(record("www.example.com", 5, 60, DNSRdata::Cname(name("example.com"))));
    p.authorities.push(record("example.com", 2, 3600, DNSRdata::Ns(name("ns.example.com"))));
    p.authorities.push(record("example.com", 15, 3600, DNSRdata::Mx(10, name("mail.example.com"))));
    p.additionals.push(record("example.com", 16, 30, DNSRdata::Txt(String::from("hello world"))));
    p.additionals.push(record("example.com", 99, 30, DNSRdata::Other(vec![1, 2, 3])));
    p
}

fn labels(n: &DomainName) -> Vec<String> {
    n.clone()
}

fn same_record(a: &DNSResourceRecord, b: &DNSResourceRecord) {
    assert_eq!(labels(&a.name), labels(&b.name));
    assert_eq!(a.rtype, b.rtype);
    assert_eq!(a.class, b.class);
    assert_eq!(a.ttl, b.ttl);
    assert_eq!(format!("{:?}", a.rdata), format!("{:?}", b.rdata));
}

#[test]
fn splits_and_joins_names() {
    assert_eq!(name("example.com"), vec![String::from("example"), String::from("com")]);
    assert_eq!(name("example.com").to_domain_name(), String::from("example.com"));
    let root: DomainName = Vec::new();
    assert_eq!(root.to_domain_name(), String::from("."));
    assert_eq!(name(""), vec![String::new()]);
}

#[test]
fn name_wire_form_is_length_prefixed() {
    let b = name("ab.c").to_bytes().unwrap();
    assert_eq!(b, vec![2, b'a', b'b', 1, b'c', 0]);
    let root: DomainName = Vec::new();
    assert_eq!(root.to_bytes().unwrap(), vec![0]);
}

#[test]
fn oversized_or_empty_labels_are_refused() {
    let long = "a".repeat(64);
    assert_eq!(name(&long).to_bytes(), Err(CodecError::Oversized));
    assert_eq!(name("a..b").to_bytes(), Err(CodecError::Oversized));
    let ok63 = "b".repeat(63);
    assert_eq!(name(&ok63).to_bytes().unwrap().len(), 65);
}

#[test]
fn header_bits_are_laid_out() {
    let h = DNSHeader {
        id: 0x1234,
        qr: 1,
        opcode: 2,
        aa: 1,
        tc: 1,
        rd: 1,
        ra: 1,
        reserved: 0,
        rcode: 3,
        qdcount: 9,
        ancount: 9,
        nscount: 9,
        arcount: 9,
    };
    let mut w = Vec::new();
    h.to_bytes(&mut w, 1, 2, 3, 4);
    assert_eq!(w, vec![0x12, 0x34, 0x97, 0x83, 0, 1, 0, 2, 0, 3, 0, 4]);
    let (back, end) = DNSHeader::from_raw(&w, 0).unwrap();
    assert_eq!(end, 12);
    assert_eq!((back.qr, back.opcode, back.aa, back.tc, back.rd), (1, 2, 1, 1, 1));
    assert_eq!((back.ra, back.reserved, back.rcode), (1, 0, 3));
    assert_eq!((back.qdcount, back.ancount, back.nscount, back.arcount), (1, 2, 3, 4));
}

#[test]
fn header_counts_match_sections() {
    let mut p = sample_packet();
    p.header.qdcount = 40;
    p.header.ancount = 40;
    let b = p.assemble().unwrap();
    assert_eq!(&b[4..12], &[0, 1, 0, 3, 0, 2, 0, 2]);
}

#[test]
fn decode_of_encode_gives_the_message_back() {
    let p = sample_packet();
    let b = p.assemble().unwrap();
    let q = DNSPacket::from_raw(&b).unwrap();
    assert_eq!(q.header.id, 0xBEEF);
    assert_eq!((q.header.qr, q.header.aa, q.header.rd, q.header.ra), (1, 1, 1, 1));
    assert_eq!(q.questions.len(), 1);
    assert_eq!(q.questions[0].qname, name("example.com"));
    assert_eq!((q.questions[0].qtype, q.questions[0].qclass), (1, 1));
    assert_eq!(q.answers.len(), 3);
    assert_eq!(q.authorities.len(), 2);
    assert_eq!(q.additionals.len(), 2);
    for (a, b) in p.answers.iter().zip(q.answers.iter()) {
        same_record(a, b);
    }
    for (a, b) in p.authorities.iter().zip(q.authorities.iter()) {
        same_record(a, b);
    }
    for (a, b) in p.additionals.iter().zip(q.additionals.iter()) {
        same_record(a, b);
    }
    assert_eq!(q.answers[0].rdlength, 4);
    assert_eq!(q.additionals[0].rdlength, 11);
    let again = q.assemble().unwrap();
    assert_eq!(again, b);
}

#[test]
fn written_type_follows_the_payload() {
    let mut p = DNSPacket::new(1, false);
    p.answers.push(record("a", 99, 5, DNSRdata::A([1, 2, 3, 4])));
    let b = p.assemble().unwrap();
    // header, then name "a" (3 bytes), then the type
    assert_eq!(&b[15..17], &[0, 1]);
    let q = DNSPacket::from_raw(&b).unwrap();
    assert_eq!(q.answers[0].rtype, 1);
}

#[test]
fn compressed_names_are_followed() {
    let mut b = vec![0xAB, 0xCD, 0x81, 0x80, 0, 1, 0, 1, 0, 0, 0, 0];
    // question: example.com A IN at offset 12
    b.extend_from_slice(&[7, b'e', b'x', b'a', b'm', b'p', b'l', b'e', 3, b'c', b'o', b'm', 0, 0, 1, 0, 1]);
    // answer: "www" + pointer to offset 12, A IN ttl 300, 192.0.2.1
    b.extend_from_slice(&[3, b'w', b'w', b'w', 0xC0, 12, 0, 1, 0, 1, 0, 0, 1, 44, 0, 4, 192, 0, 2, 1]);
    let p = DNSPacket::from_raw(&b).unwrap();
    assert_eq!(p.answers[0].name, name("www.example.com"));
    assert_eq!(p.answers[0].ttl, 300);
    assert_eq!(format!("{:?}", p.answers[0].rdata), format!("{:?}", DNSRdata::A([192, 0, 2, 1])));
    let (n, end) = b.as_slice().read_domain_name(29).unwrap();
    assert_eq!(n, name("www.example.com"));
    assert_eq!(end, 35);
}

#[test]
fn pointer_cycles_are_rejected() {
    let mut b = vec![0, 1, 0, 0, 0, 1, 0, 0, 0, 0, 0, 0];
    b.extend_from_slice(&[0xC0, 12, 0, 1, 0, 1]);
    assert_eq!(DNSPacket::from_raw(&b).unwrap_err(), CodecError::FormatError);
    let two = vec![0xC0, 2, 0xC0, 0];
    assert_eq!(two.as_slice().read_domain_name(0).unwrap_err(), CodecError::FormatError);
}

#[test]
fn malformed_input_is_a_format_error() {
    assert_eq!(DNSPacket::from_raw(&[1, 2, 3]).unwrap_err(), CodecError::FormatError);
    let mut b = vec![0, 1, 0, 0, 0, 1, 0, 0, 0, 0, 0, 0];
    b.extend_from_slice(&[5, b'a', b'b']);
    assert_eq!(DNSPacket::from_raw(&b).unwrap_err(), CodecError::FormatError);
    let mut r = vec![0, 1, 0, 0, 0, 1, 0, 0, 0, 0, 0, 0];
    r.extend_from_slice(&[0x40, b'a', 0, 0, 1, 0, 1]);
    assert_eq!(DNSPacket::from_raw(&r).unwrap_err(), CodecError::FormatError);
    let mut t = vec![0, 1, 0, 0, 0, 0, 0, 1, 0, 0, 0, 0];
    t.extend_from_slice(&[0, 0, 16, 0, 1, 0, 0, 0, 1, 0, 2, 0xFF, 0xFE]);
    assert_eq!(DNSPacket::from_raw(&t).unwrap_err(), CodecError::FormatError);
}

#[test]
fn numbers_name_types_classes_and_codes() {
    assert_eq!(DNSType::from_num(28), DNSType::AAAA);
    assert_eq!(DNSType::from_num(17), DNSType::NotImplemented);
    assert_eq!(DNSType::from(15u16), DNSType::MX);
    assert_eq!(DNSType::TXT.to_num(), 16);
    assert_eq!(DNSClass::from_num(1), DNSClass::IN);
    assert_eq!(DNSClass::from_num(7), DNSClass::NotImplemented);
    assert_eq!(DNSRcode::from_num(5), DNSRcode::Refused);
    assert_eq!(DNSRcode::from_num(9), DNSRcode::Unknown);
    let mut h = DNSHeader::new(7, true);
    assert!(h.is_query());
    h.set_rcode(DNSRcode::Refused);
    assert_eq!(h.rcode, 5);
    assert!(!DNSHeader::new(7, false).is_query());
    let q = DNSQuestion::new(name("example.com"), 1);
    assert_eq!(q.qclass, 1);
    assert_eq!(q.domain_name(), String::from("example.com"));
    assert_eq!(DNSRdata::Other(vec![]).get_type(), None);
    assert_eq!(DNSRdata::Ns(name("a")).get_type(), Some(DNSType::NS));
}

#[test]
fn oversized_sections_fail_to_assemble() {
    let mut p = DNSPacket::new(1, true);
    p.questions.push(DNSQuestion::new(name(&"x".repeat(70)), 1));
    assert_eq!(p.assemble().unwrap_err(), CodecError::Oversized);
    let mut r = DNSPacket::new(1, true);
    r.answers.push(record("a", 200, 1, DNSRdata::Other(vec![0; 70000])));
    assert_eq!(r.assemble().unwrap_err(), CodecError::Oversized);
}

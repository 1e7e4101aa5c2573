use vstd::prelude::*;
use vstd::utf8::encode_utf8;
use crate::domain_name::{
    labels_view, name_ok, name_wire, push_bytes, DomainName, DomainNameToBytes, ToReadableName,
    presentation,
};

verus! {

/// Why a message could not be decoded or assembled.
#[derive(Clone, Copy, Debug, PartialEq, Eq, Structural)]
pub enum CodecError {
    /// The bytes are not a well-formed message.
    FormatError,
    /// A name, a section or a payload is too large for its wire field.
    Oversized,
}

/// Response codes.
#[derive(Clone, Copy, Debug, PartialEq, Eq, Structural)]
pub enum DNSRcode {
    Normal,
    FormatError,
    ServerFailure,
    NameError,
    NotImplemented,
    Refused,
    Unknown,
}

/// The response code that a number names.
pub open spec fn rcode_of(n: u16) -> DNSRcode {
    if n == 0 {
        DNSRcode::Normal
    } else if n == 1 {
        DNSRcode::FormatError
    } else if n == 2 {
        DNSRcode::ServerFailure
    } else if n == 3 {
        DNSRcode::NameError
    } else if n == 4 {
        DNSRcode::NotImplemented
    } else if n == 5 {
        DNSRcode::Refused
    } else {
        DNSRcode::Unknown
    }
}

/// The number of a response code as a byte (`Unknown` is 255).
pub open spec fn rcode_num(r: DNSRcode) -> u8 {
    match r {
        DNSRcode::Normal => 0,
        DNSRcode::FormatError => 1,
        DNSRcode::ServerFailure => 2,
        DNSRcode::NameError => 3,
        DNSRcode::NotImplemented => 4,
        DNSRcode::Refused => 5,
        DNSRcode::Unknown => 255,
    }
}

impl DNSRcode {
    pub fn from_num(n: u16) -> (r: Self)
        ensures
            r == rcode_of(n),
    {
        match n {
            0 => DNSRcode::Normal,
            1 => DNSRcode::FormatError,
            2 => DNSRcode::ServerFailure,
            3 => DNSRcode::NameError,
            4 => DNSRcode::NotImplemented,
            5 => DNSRcode::Refused,
            _ => DNSRcode::Unknown,
        }
    }

    pub fn to_num(self) -> (r: u8)
        ensures
            r == rcode_num(self),
    {
        match self {
            DNSRcode::Normal => 0,
            DNSRcode::FormatError => 1,
            DNSRcode::ServerFailure => 2,
            DNSRcode::NameError => 3,
            DNSRcode::NotImplemented => 4,
            DNSRcode::Refused => 5,
            DNSRcode::Unknown => 255,
        }
    }
}

/// Record types.
#[derive(Clone, Copy, Debug, PartialEq, Eq, Structural)]
pub enum DNSType {
    A,
    NS,
    MD,
    MF,
    CNAME,
    SOA,
    MB,
    MG,
    MR,
    NULL,
    WKS,
    PTR,
    HINFO,
    MINFO,
    MX,
    TXT,
    AFSDB,
    AAAA,
    OPT,
    APL,
    IPSECKEY,
    RRSIG,
    AXFR,
    MAILB,
    MAILA,
    ALL,
    NotImplemented,
}

/// The number of a record type (`NotImplemented` is 65535).
pub open spec fn type_num(t: DNSType) -> u16 {
    match t {
        DNSType::A => 1,
        DNSType::NS => 2,
        DNSType::MD => 3,
        DNSType::MF => 4,
        DNSType::CNAME => 5,
        DNSType::SOA => 6,
        DNSType::MB => 7,
        DNSType::MG => 8,
        DNSType::MR => 9,
        DNSType::NULL => 10,
        DNSType::WKS => 11,
        DNSType::PTR => 12,
        DNSType::HINFO => 13,
        DNSType::MINFO => 14,
        DNSType::MX => 15,
        DNSType::TXT => 16,
        DNSType::AFSDB => 18,
        DNSType::AAAA => 28,
        DNSType::OPT => 41,
        DNSType::APL => 42,
        DNSType::IPSECKEY => 45,
        DNSType::RRSIG => 46,
        DNSType::AXFR => 252,
        DNSType::MAILB => 253,
        DNSType::MAILA => 254,
        DNSType::ALL => 255,
        DNSType::NotImplemented => 65535,
    }
}

/// The record type that a number names, `NotImplemented` for any other number.
pub open spec fn type_of(n: u16) -> DNSType {
    if n == 1 {
        DNSType::A
    } else if n == 2 {
        DNSType::NS
    } else if n == 3 {
        DNSType::MD
    } else if n == 4 {
        DNSType::MF
    } else if n == 5 {
        DNSType::CNAME
    } else if n == 6 {
        DNSType::SOA
    } else if n == 7 {
        DNSType::MB
    } else if n == 8 {
        DNSType::MG
    } else if n == 9 {
        DNSType::MR
    } else if n == 10 {
        DNSType::NULL
    } else if n == 11 {
        DNSType::WKS
    } else if n == 12 {
        DNSType::PTR
    } else if n == 13 {
        DNSType::HINFO
    } else if n == 14 {
        DNSType::MINFO
    } else if n == 15 {
        DNSType::MX
    } else if n == 16 {
        DNSType::TXT
    } else if n == 18 {
        DNSType::AFSDB
    } else if n == 28 {
        DNSType::AAAA
    } else if n == 41 {
        DNSType::OPT
    } else if n == 42 {
        DNSType::APL
    } else if n == 45 {
        DNSType::IPSECKEY
    } else if n == 46 {
        DNSType::RRSIG
    } else if n == 252 {
        DNSType::AXFR
    } else if n == 253 {
        DNSType::MAILB
    } else if n == 254 {
        DNSType::MAILA
    } else if n == 255 {
        DNSType::ALL
    } else {
        DNSType::NotImplemented
    }
}

impl DNSType {
    /// The type that a number names, `NotImplemented` for any other number.
    pub fn from_num(n: u16) -> (r: Self)
        ensures
            r == type_of(n),
    {
        match n {
            1 => DNSType::A,
            2 => DNSType::NS,
            3 => DNSType::MD,
            4 => DNSType::MF,
            5 => DNSType::CNAME,
            6 => DNSType::SOA,
            7 => DNSType::MB,
            8 => DNSType::MG,
            9 => DNSType::MR,
            10 => DNSType::NULL,
            11 => DNSType::WKS,
            12 => DNSType::PTR,
            13 => DNSType::HINFO,
            14 => DNSType::MINFO,
            15 => DNSType::MX,
            16 => DNSType::TXT,
            18 => DNSType::AFSDB,
            28 => DNSType::AAAA,
            41 => DNSType::OPT,
            42 => DNSType::APL,
            45 => DNSType::IPSECKEY,
            46 => DNSType::RRSIG,
            252 => DNSType::AXFR,
            253 => DNSType::MAILB,
            254 => DNSType::MAILA,
            255 => DNSType::ALL,
            _ => DNSType::NotImplemented,
        }
    }

    pub fn to_num(self) -> (r: u16)
        ensures
            r == type_num(self),
    {
        match self {
            DNSType::A => 1,
            DNSType::NS => 2,
            DNSType::MD => 3,
            DNSType::MF => 4,
            DNSType::CNAME => 5,
            DNSType::SOA => 6,
            DNSType::MB => 7,
            DNSType::MG => 8,
            DNSType::MR => 9,
            DNSType::NULL => 10,
            DNSType::WKS => 11,
            DNSType::PTR => 12,
            DNSType::HINFO => 13,
            DNSType::MINFO => 14,
            DNSType::MX => 15,
            DNSType::TXT => 16,
            DNSType::AFSDB => 18,
            DNSType::AAAA => 28,
            DNSType::OPT => 41,
            DNSType::APL => 42,
            DNSType::IPSECKEY => 45,
            DNSType::RRSIG => 46,
            DNSType::AXFR => 252,
            DNSType::MAILB => 253,
            DNSType::MAILA => 254,
            DNSType::ALL => 255,
            DNSType::NotImplemented => 65535,
        }
    }
}

impl From<u16> for DNSType {
    fn from(n: u16) -> (r: Self) {
        Self::from_num(n)
    }
}

impl vstd::std_specs::convert::FromSpecImpl<u16> for DNSType {
    open spec fn obeys_from_spec() -> bool {
        true
    }

    open spec fn from_spec(n: u16) -> DNSType {
        type_of(n)
    }
}

/// Record classes.
#[derive(Clone, Copy, Debug, PartialEq, Eq, Structural)]
pub enum DNSClass {
    IN,
    CS,
    CH,
    HS,
    ANY,
    NotImplemented,
}

/// The number of a class (`NotImplemented` is 65535).
pub open spec fn class_num(c: DNSClass) -> u16 {
    match c {
        DNSClass::IN => 1,
        DNSClass::CS => 2,
        DNSClass::CH => 3,
        DNSClass::HS => 4,
        DNSClass::ANY => 255,
        DNSClass::NotImplemented => 65535,
    }
}

/// The class that a number names, `NotImplemented` for any other number.
pub open spec fn class_of(n: u16) -> DNSClass {
    if n == 1 {
        DNSClass::IN
    } else if n == 2 {
        DNSClass::CS
    } else if n == 3 {
        DNSClass::CH
    } else if n == 4 {
        DNSClass::HS
    } else if n == 255 {
        DNSClass::ANY
    } else {
        DNSClass::NotImplemented
    }
}

impl DNSClass {
    /// The class that a number names, `NotImplemented` for any other number.
    pub fn from_num(n: u16) -> (r: Self)
        ensures
            r == class_of(n),
    {
        match n {
            1 => DNSClass::IN,
            2 => DNSClass::CS,
            3 => DNSClass::CH,
            4 => DNSClass::HS,
            255 => DNSClass::ANY,
            _ => DNSClass::NotImplemented,
        }
    }

    pub fn to_num(self) -> (r: u16)
        ensures
            r == class_num(self),
    {
        match self {
            DNSClass::IN => 1,
            DNSClass::CS => 2,
            DNSClass::CH => 3,
            DNSClass::HS => 4,
            DNSClass::ANY => 255,
            DNSClass::NotImplemented => 65535,
        }
    }
}

/// Message header.
#[derive(Clone, Copy, Debug, PartialEq, Eq, Structural)]
pub struct DNSHeader {
    /// Transaction id.
    pub id: u16,
    /// Query (0) or response (1).
    pub qr: u8,
    /// Kind of query (four bits).
    pub opcode: u8,
    /// Authoritative answer.
    pub aa: u8,
    /// Truncation.
    pub tc: u8,
    /// Recursion desired.
    pub rd: u8,
    /// Recursion available.
    pub ra: u8,
    /// Reserved (three bits).
    pub reserved: u8,
    /// Response code (four bits).
    pub rcode: u8,
    /// Entries in the question section, as read.
    pub qdcount: u16,
    /// Records in the answer section, as read.
    pub ancount: u16,
    /// Records in the authority section, as read.
    pub nscount: u16,
    /// Records in the additional section, as read.
    pub arcount: u16,
}

/// A question: a name, a type and a class.
#[derive(Debug)]
pub struct DNSQuestion {
    pub qname: DomainName,
    pub qtype: u16,
    pub qclass: u16,
}

/// Record payloads, by type; `Other` keeps the raw bytes of any other type.
#[derive(Debug)]
pub enum DNSRdata {
    A([u8; 4]),
    Aaaa([u8; 16]),
    Cname(DomainName),
    Mx(u16, DomainName),
    Ns(DomainName),
    Txt(String),
    Other(Vec<u8>),
}

/// A resource record.
#[derive(Debug)]
pub struct DNSResourceRecord {
    pub name: DomainName,
    /// The type number as read.
    pub rtype: u16,
    pub class: u16,
    /// Seconds that the record may be cached.
    pub ttl: u32,
    /// The payload length as read.
    pub rdlength: u16,
    pub rdata: DNSRdata,
}

/// A message: a header and four sections.
#[derive(Debug)]
pub struct DNSPacket {
    pub header: DNSHeader,
    pub questions: Vec<DNSQuestion>,
    pub answers: Vec<DNSResourceRecord>,
    pub authorities: Vec<DNSResourceRecord>,
    pub additionals: Vec<DNSResourceRecord>,
}

/// The model of a question.
pub struct QuestionView {
    pub qname: Seq<Seq<char>>,
    pub qtype: u16,
    pub qclass: u16,
}

/// The model of a payload.
pub enum RdataView {
    A(Seq<u8>),
    Aaaa(Seq<u8>),
    Cname(Seq<Seq<char>>),
    Mx(u16, Seq<Seq<char>>),
    Ns(Seq<Seq<char>>),
    Txt(Seq<char>),
    Other(Seq<u8>),
}

/// The model of a resource record.
pub struct RecordView {
    pub name: Seq<Seq<char>>,
    pub rtype: u16,
    pub class: u16,
    pub ttl: u32,
    pub rdlength: u16,
    pub rdata: RdataView,
}

/// The model of a message.
pub struct PacketView {
    pub header: DNSHeader,
    pub questions: Seq<QuestionView>,
    pub answers: Seq<RecordView>,
    pub authorities: Seq<RecordView>,
    pub additionals: Seq<RecordView>,
}

impl View for DNSQuestion {
    type V = QuestionView;

    open spec fn view(&self) -> QuestionView {
        QuestionView { qname: labels_view(self.qname@), qtype: self.qtype, qclass: self.qclass }
    }
}

impl View for DNSRdata {
    type V = RdataView;

    open spec fn view(&self) -> RdataView {
        match self {
            DNSRdata::A(ip) => RdataView::A(ip@),
            DNSRdata::Aaaa(ip) => RdataView::Aaaa(ip@),
            DNSRdata::Cname(n) => RdataView::Cname(labels_view(n@)),
            DNSRdata::Mx(p, n) => RdataView::Mx(*p, labels_view(n@)),
            DNSRdata::Ns(n) => RdataView::Ns(labels_view(n@)),
            DNSRdata::Txt(t) => RdataView::Txt(t@),
            DNSRdata::Other(b) => RdataView::Other(b@),
        }
    }
}

impl View for DNSResourceRecord {
    type V = RecordView;

    open spec fn view(&self) -> RecordView {
        RecordView {
            name: labels_view(self.name@),
            rtype: self.rtype,
            class: self.class,
            ttl: self.ttl,
            rdlength: self.rdlength,
            rdata: self.rdata@,
        }
    }
}

/// The models of a list of questions.
pub open spec fn questions_view(qs: Seq<DNSQuestion>) -> Seq<QuestionView> {
    qs.map_values(|q: DNSQuestion| q@)
}

/// The models of a list of records.
pub open spec fn records_view(rs: Seq<DNSResourceRecord>) -> Seq<RecordView> {
    rs.map_values(|r: DNSResourceRecord| r@)
}

impl View for DNSPacket {
    type V = PacketView;

    open spec fn view(&self) -> PacketView {
        PacketView {
            header: self.header,
            questions: questions_view(self.questions@),
            answers: records_view(self.answers@),
            authorities: records_view(self.authorities@),
            additionals: records_view(self.additionals@),
        }
    }
}

/// A copy of a name.
pub(crate) fn copy_name(n: &DomainName) -> (r: DomainName)
    ensures
        r@ == n@,
{
    let mut r: DomainName = Vec::new();
    let mut i: usize = 0;
    while i < n.len()
        invariant
            0 <= i <= n@.len(),
            r@ == n@.subrange(0, i as int),
        decreases n@.len() - i,
    {
        r.push(n[i].clone());
        i += 1;
        assert(r@ =~= n@.subrange(0, i as int));
    }
    assert(n@.subrange(0, i as int) =~= n@);
    r
}

/// A copy of a byte vector.
pub(crate) fn copy_bytes(b: &Vec<u8>) -> (r: Vec<u8>)
    ensures
        r@ == b@,
{
    let mut r: Vec<u8> = Vec::new();
    push_bytes(&mut r, b.as_slice());
    assert(r@ =~= b@);
    r
}

impl Clone for DNSQuestion {
    fn clone(&self) -> (r: Self)
        ensures
            r@ == self@,
    {
        DNSQuestion { qname: copy_name(&self.qname), qtype: self.qtype, qclass: self.qclass }
    }
}

impl Clone for DNSRdata {
    fn clone(&self) -> (r: Self)
        ensures
            r@ == self@,
    {
        match self {
            DNSRdata::A(ip) => DNSRdata::A(*ip),
            DNSRdata::Aaaa(ip) => DNSRdata::Aaaa(*ip),
            DNSRdata::Cname(n) => DNSRdata::Cname(copy_name(n)),
            DNSRdata::Mx(p, n) => DNSRdata::Mx(*p, copy_name(n)),
            DNSRdata::Ns(n) => DNSRdata::Ns(copy_name(n)),
            DNSRdata::Txt(t) => DNSRdata::Txt(t.clone()),
            DNSRdata::Other(b) => DNSRdata::Other(copy_bytes(b)),
        }
    }
}

impl Clone for DNSResourceRecord {
    fn clone(&self) -> (r: Self)
        ensures
            r@ == self@,
    {
        DNSResourceRecord {
            name: copy_name(&self.name),
            rtype: self.rtype,
            class: self.class,
            ttl: self.ttl,
            rdlength: self.rdlength,
            rdata: self.rdata.clone(),
        }
    }
}

/// A copy of a list of records.
pub(crate) fn copy_records(rs: &Vec<DNSResourceRecord>) -> (r: Vec<DNSResourceRecord>)
    ensures
        records_view(r@) == records_view(rs@),
{
    let mut r: Vec<DNSResourceRecord> = Vec::new();
    let mut i: usize = 0;
    while i < rs.len()
        invariant
            0 <= i <= rs@.len(),
            records_view(r@) == records_view(rs@.subrange(0, i as int)),
            r@.len() == i,
        decreases rs@.len() - i,
    {
        let ghost prev = r@;
        r.push(rs[i].clone());
        proof {
            let sub = rs@.subrange(0, i + 1);
            assert forall|j: int| 0 <= j < i + 1 implies records_view(r@)[j] == records_view(sub)[j] by {
                if j < i {
                    assert(records_view(prev)[j] == records_view(rs@.subrange(0, i as int))[j]);
                }
            }
            assert(records_view(r@) =~= records_view(sub));
        }
        i += 1;
    }
    assert(rs@.subrange(0, i as int) =~= rs@);
    r
}

/// A copy of a list of questions.
pub(crate) fn copy_questions(qs: &Vec<DNSQuestion>) -> (r: Vec<DNSQuestion>)
    ensures
        questions_view(r@) == questions_view(qs@),
{
    let mut r: Vec<DNSQuestion> = Vec::new();
    let mut i: usize = 0;
    while i < qs.len()
        invariant
            0 <= i <= qs@.len(),
            questions_view(r@) == questions_view(qs@.subrange(0, i as int)),
            r@.len() == i,
        decreases qs@.len() - i,
    {
        let ghost prev = r@;
        r.push(qs[i].clone());
        proof {
            let sub = qs@.subrange(0, i + 1);
            assert forall|j: int| 0 <= j < i + 1 implies questions_view(r@)[j] == questions_view(sub)[j] by {
                if j < i {
                    assert(questions_view(prev)[j] == questions_view(qs@.subrange(0, i as int))[j]);
                }
            }
            assert(questions_view(r@) =~= questions_view(sub));
        }
        i += 1;
    }
    assert(qs@.subrange(0, i as int) =~= qs@);
    r
}

impl Clone for DNSPacket {
    fn clone(&self) -> (r: Self)
        ensures
            r@ == self@,
    {
        DNSPacket {
            header: self.header,
            questions: copy_questions(&self.questions),
            answers: copy_records(&self.answers),
            authorities: copy_records(&self.authorities),
            additionals: copy_records(&self.additionals),
        }
    }
}

/// A header with the given id, marked as a query or a response, every other field zero.
pub open spec fn fresh_header(id: u16, is_query: bool) -> DNSHeader {
    DNSHeader {
        id,
        qr: if is_query { 0 } else { 1 },
        opcode: 0,
        aa: 0,
        tc: 0,
        rd: 0,
        ra: 0,
        reserved: 0,
        rcode: 0,
        qdcount: 0,
        ancount: 0,
        nscount: 0,
        arcount: 0,
    }
}

impl DNSHeader {
    /// A header with the given id, marked as a query or a response, every other field zero.
    pub fn new(id: u16, is_query: bool) -> (r: Self)
        ensures
            r == fresh_header(id, is_query),
    {
        DNSHeader {
            id,
            qr: if is_query { 0 } else { 1 },
            opcode: 0,
            aa: 0,
            tc: 0,
            rd: 0,
            ra: 0,
            reserved: 0,
            rcode: 0,
            qdcount: 0,
            ancount: 0,
            nscount: 0,
            arcount: 0,
        }
    }

    pub fn is_query(&self) -> (r: bool)
        ensures
            r == (self.qr == 0),
    {
        self.qr == 0
    }

    pub fn set_rcode(&mut self, rcode: DNSRcode)
        ensures
            *final(self) == (DNSHeader { rcode: rcode_num(rcode), ..*old(self) }),
    {
        self.rcode = rcode.to_num();
    }
}

impl DNSQuestion {
    /// A question of class IN.
    pub fn new(qname: DomainName, qtype: u16) -> (r: Self)
        ensures
            r@ == (QuestionView { qname: labels_view(qname@), qtype, qclass: 1 }),
    {
        DNSQuestion { qname, qtype, qclass: DNSClass::IN.to_num() }
    }

    /// The presentation form of the name asked for.
    pub fn domain_name(&self) -> (r: String)
        ensures
            r@ == presentation(self@.qname),
    {
        self.qname.to_domain_name()
    }
}

impl DNSPacket {
    pub fn id(&self) -> (r: u16)
        ensures
            r == self.header.id,
    {
        self.header.id
    }

    /// A message with a fresh header and no sections.
    pub fn new(id: u16, is_query: bool) -> (r: Self)
        ensures
            r.header == fresh_header(id, is_query),
            r@.questions.len() == 0,
            r@.answers.len() == 0,
            r@.authorities.len() == 0,
            r@.additionals.len() == 0,
    {
        DNSPacket {
            header: DNSHeader::new(id, is_query),
            questions: Vec::new(),
            answers: Vec::new(),
            authorities: Vec::new(),
            additionals: Vec::new(),
        }
    }
}

/// Big-endian bytes of a 16-bit value.
pub open spec fn be16(v: u16) -> Seq<u8> {
    seq![(v / 256) as u8, (v % 256) as u8]
}

/// Big-endian bytes of a 32-bit value.
pub open spec fn be32(v: u32) -> Seq<u8> {
    seq![(v / 0x1000000) as u8, ((v / 0x10000) % 256) as u8, ((v / 256) % 256) as u8, (v % 256) as u8]
}

/// Appends a 16-bit value, big-endian.
pub(crate) fn put_u16(w: &mut Vec<u8>, v: u16)
    ensures
        final(w)@ == old(w)@ + be16(v),
{
    w.push((v / 256) as u8);
    w.push((v % 256) as u8);
    assert(final(w)@ =~= old(w)@ + be16(v));
}

/// Appends a 32-bit value, big-endian.
pub(crate) fn put_u32(w: &mut Vec<u8>, v: u32)
    ensures
        final(w)@ == old(w)@ + be32(v),
{
    w.push((v / 0x1000000) as u8);
    w.push(((v / 0x10000) % 256) as u8);
    w.push(((v / 256) % 256) as u8);
    w.push((v % 256) as u8);
    assert(final(w)@ =~= old(w)@ + be32(v));
}

/// Third byte of the header: `qr<<7 | opcode<<3 | aa<<2 | tc<<1 | rd`, each field masked to its width.
pub open spec fn flags_hi(h: DNSHeader) -> u8 {
    ((h.qr & 1) << 7u8) | ((h.opcode & 15) << 3u8) | ((h.aa & 1) << 2u8) | ((h.tc & 1) << 1u8) | (h.rd
        & 1)
}

/// Fourth byte of the header: `ra<<7 | reserved<<4 | rcode`, each field masked to its width.
pub open spec fn flags_lo(h: DNSHeader) -> u8 {
    ((h.ra & 1) << 7u8) | ((h.reserved & 7) << 4u8) | (h.rcode & 15)
}

/// Wire form of a header with the given section counts.
pub open spec fn header_wire(h: DNSHeader, qd: u16, an: u16, ns: u16, ar: u16) -> Seq<u8> {
    be16(h.id) + seq![flags_hi(h), flags_lo(h)] + be16(qd) + be16(an) + be16(ns) + be16(ar)
}

/// Wire form of a question.
pub open spec fn question_wire(q: QuestionView) -> Seq<u8> {
    name_wire(q.qname) + be16(q.qtype) + be16(q.qclass)
}

/// The type number that a payload stands for, if it is of a recognised type.
pub open spec fn rdata_type(d: RdataView) -> Option<u16> {
    match d {
        RdataView::A(_) => Some(1u16),
        RdataView::Aaaa(_) => Some(28u16),
        RdataView::Cname(_) => Some(5u16),
        RdataView::Mx(_, _) => Some(15u16),
        RdataView::Ns(_) => Some(2u16),
        RdataView::Txt(_) => Some(16u16),
        RdataView::Other(_) => None,
    }
}

/// The payload bytes of a record.
pub open spec fn rdata_payload(d: RdataView) -> Seq<u8> {
    match d {
        RdataView::A(ip) => ip,
        RdataView::Aaaa(ip) => ip,
        RdataView::Cname(n) => name_wire(n),
        RdataView::Mx(p, n) => be16(p) + name_wire(n),
        RdataView::Ns(n) => name_wire(n),
        RdataView::Txt(t) => encode_utf8(t),
        RdataView::Other(b) => b,
    }
}

/// A payload that the wire form can carry.
pub open spec fn rdata_ok(d: RdataView) -> bool {
    &&& match d {
        RdataView::Cname(n) => name_ok(n),
        RdataView::Mx(_, n) => name_ok(n),
        RdataView::Ns(n) => name_ok(n),
        _ => true,
    }
    &&& rdata_payload(d).len() <= 65535
}

/// The type number written for a record: the payload's when recognised, else the stored one.
pub open spec fn wire_type(r: RecordView) -> u16 {
    match rdata_type(r.rdata) {
        Some(t) => t,
        None => r.rtype,
    }
}

/// Wire form of a record: the payload length is that of the payload written.
pub open spec fn record_wire(r: RecordView) -> Seq<u8> {
    name_wire(r.name) + be16(wire_type(r)) + be16(r.class) + be32(r.ttl) + be16(
        rdata_payload(r.rdata).len() as u16,
    ) + rdata_payload(r.rdata)
}

/// A record that the wire form can carry.
pub open spec fn record_ok(r: RecordView) -> bool {
    name_ok(r.name) && rdata_ok(r.rdata)
}

/// Wire form of a list of questions, one after the other.
pub open spec fn questions_wire(qs: Seq<QuestionView>) -> Seq<u8>
    decreases qs.len(),
{
    if qs.len() == 0 {
        Seq::empty()
    } else {
        questions_wire(qs.drop_last()) + question_wire(qs.last())
    }
}

/// Wire form of a list of records, one after the other.
pub open spec fn records_wire(rs: Seq<RecordView>) -> Seq<u8>
    decreases rs.len(),
{
    if rs.len() == 0 {
        Seq::empty()
    } else {
        records_wire(rs.drop_last()) + record_wire(rs.last())
    }
}

/// A section that the wire form can carry.
pub open spec fn records_ok(rs: Seq<RecordView>) -> bool {
    rs.len() <= 65535 && forall|i: int| 0 <= i < rs.len() ==> record_ok(#[trigger] rs[i])
}

/// A message that the wire form can carry.
pub open spec fn packet_ok(p: PacketView) -> bool {
    &&& p.questions.len() <= 65535
    &&& forall|i: int| 0 <= i < p.questions.len() ==> name_ok(#[trigger] p.questions[i].qname)
    &&& records_ok(p.answers)
    &&& records_ok(p.authorities)
    &&& records_ok(p.additionals)
}

/// Wire form of a message, uncompressed, with the header counts taken from the sections.
pub open spec fn packet_wire(p: PacketView) -> Seq<u8> {
    header_wire(
        p.header,
        p.questions.len() as u16,
        p.answers.len() as u16,
        p.authorities.len() as u16,
        p.additionals.len() as u16,
    ) + questions_wire(p.questions) + records_wire(p.answers) + records_wire(p.authorities)
        + records_wire(p.additionals)
}

impl DNSHeader {
    /// Appends the twelve header bytes, with the given section counts.
    pub fn to_bytes(&self, writer: &mut Vec<u8>, qdcount: u16, ancount: u16, nscount: u16, arcount: u16)
        ensures
            final(writer)@ == old(writer)@ + header_wire(*self, qdcount, ancount, nscount, arcount),
    {
        put_u16(writer, self.id);
        let hi: u8 = ((self.qr & 1) << 7u8) | ((self.opcode & 15) << 3u8) | ((self.aa & 1) << 2u8)
            | ((self.tc & 1) << 1u8) | (self.rd & 1);
        let lo: u8 = ((self.ra & 1) << 7u8) | ((self.reserved & 7) << 4u8) | (self.rcode & 15);
        writer.push(hi);
        writer.push(lo);
        put_u16(writer, qdcount);
        put_u16(writer, ancount);
        put_u16(writer, nscount);
        put_u16(writer, arcount);
        assert(final(writer)@ =~= old(writer)@ + header_wire(*self, qdcount, ancount, nscount, arcount));
    }
}

impl DNSQuestion {
    /// Appends the question's wire form.
    pub fn to_bytes(&self, writer: &mut Vec<u8>) -> (r: Result<(), CodecError>)
        ensures
            r is Ok <==> name_ok(self@.qname),
            r is Ok ==> final(writer)@ == old(writer)@ + question_wire(self@),
            r is Err ==> r->Err_0 == CodecError::Oversized,
    {
        let name = self.qname.to_bytes()?;
        push_bytes(writer, name.as_slice());
        put_u16(writer, self.qtype);
        put_u16(writer, self.qclass);
        assert(final(writer)@ =~= old(writer)@ + question_wire(self@));
        Ok(())
    }
}

impl DNSRdata {
    /// The payload bytes.
    fn payload(&self) -> (r: Result<Vec<u8>, CodecError>)
        ensures
            match r {
                Ok(b) => b@ == rdata_payload(self@) && (rdata_ok(self@) <==> b@.len() <= 65535),
                Err(e) => !rdata_ok(self@) && e == CodecError::Oversized,
            },
    {
        match self {
            DNSRdata::A(ip) => {
                let mut v: Vec<u8> = Vec::new();
                push_bytes(&mut v, ip.as_slice());
                assert(v@ =~= ip@);
                Ok(v)
            },
            DNSRdata::Aaaa(ip) => {
                let mut v: Vec<u8> = Vec::new();
                push_bytes(&mut v, ip.as_slice());
                assert(v@ =~= ip@);
                Ok(v)
            },
            DNSRdata::Cname(n) => n.to_bytes(),
            DNSRdata::Mx(p, n) => {
                let mut v: Vec<u8> = Vec::new();
                put_u16(&mut v, *p);
                let b = n.to_bytes()?;
                push_bytes(&mut v, b.as_slice());
                assert(v@ =~= be16(*p) + name_wire(labels_view(n@)));
                Ok(v)
            },
            DNSRdata::Ns(n) => n.to_bytes(),
            DNSRdata::Txt(t) => {
                let mut v: Vec<u8> = Vec::new();
                push_bytes(&mut v, t.as_str().as_bytes());
                assert(v@ =~= encode_utf8(t@));
                Ok(v)
            },
            DNSRdata::Other(raw) => Ok(copy_bytes(raw)),
        }
    }

    /// Appends the payload length, then the payload.
    pub fn to_bytes(&self, writer: &mut Vec<u8>) -> (r: Result<(), CodecError>)
        ensures
            r is Ok <==> rdata_ok(self@),
            r is Ok ==> final(writer)@ == old(writer)@ + be16(
                rdata_payload(self@).len() as u16,
            ) + rdata_payload(self@),
            r is Err ==> r->Err_0 == CodecError::Oversized,
    {
        let buf = self.payload()?;
        if buf.len() > 65535 {
            return Err(CodecError::Oversized);
        }
        put_u16(writer, buf.len() as u16);
        push_bytes(writer, buf.as_slice());
        assert(final(writer)@ =~= old(writer)@ + be16(rdata_payload(self@).len() as u16)
            + rdata_payload(self@));
        Ok(())
    }

    /// The recognised type that the payload stands for; `None` for `Other`.
    pub fn get_type(&self) -> (r: Option<DNSType>)
        ensures
            match r {
                Some(t) => rdata_type(self@) == Some(type_num(t)),
                None => rdata_type(self@) is None,
            },
    {
        match self {
            DNSRdata::A(_) => Some(DNSType::A),
            DNSRdata::Aaaa(_) => Some(DNSType::AAAA),
            DNSRdata::Cname(_) => Some(DNSType::CNAME),
            DNSRdata::Mx(_, _) => Some(DNSType::MX),
            DNSRdata::Ns(_) => Some(DNSType::NS),
            DNSRdata::Txt(_) => Some(DNSType::TXT),
            DNSRdata::Other(_) => None,
        }
    }
}

impl DNSResourceRecord {
    /// Appends the record's wire form.
    pub fn to_bytes(&self, writer: &mut Vec<u8>) -> (r: Result<(), CodecError>)
        ensures
            r is Ok <==> record_ok(self@),
            r is Ok ==> final(writer)@ == old(writer)@ + record_wire(self@),
            r is Err ==> r->Err_0 == CodecError::Oversized,
    {
        let name = self.name.to_bytes()?;
        let t: u16 = match self.rdata.get_type() {
            Some(t) => t.to_num(),
            None => self.rtype,
        };
        let ghost before = writer@;
        push_bytes(writer, name.as_slice());
        put_u16(writer, t);
        put_u16(writer, self.class);
        put_u32(writer, self.ttl);
        self.rdata.to_bytes(writer)?;
        assert(writer@ =~= before + record_wire(self@));
        Ok(())
    }
}

/// Appends the wire forms of a list of records.
fn records_to_bytes(rs: &Vec<DNSResourceRecord>, writer: &mut Vec<u8>) -> (r: Result<(), CodecError>)
    ensures
        r is Ok <==> (forall|i: int| 0 <= i < rs@.len() ==> record_ok(#[trigger] records_view(rs@)[i])),
        r is Ok ==> final(writer)@ == old(writer)@ + records_wire(records_view(rs@)),
        r is Err ==> r->Err_0 == CodecError::Oversized,
{
    let ghost start = writer@;
    let ghost rv = records_view(rs@);
    let mut i: usize = 0;
    while i < rs.len()
        invariant
            0 <= i <= rs@.len(),
            rv == records_view(rs@),
            writer@ == start + records_wire(rv.subrange(0, i as int)),
            forall|j: int| 0 <= j < i ==> record_ok(#[trigger] rv[j]),
        decreases rs@.len() - i,
    {
        let res = rs[i].to_bytes(writer);
        if res.is_err() {
            assert(!record_ok(rv[i as int]));
            return Err(CodecError::Oversized);
        }
        i += 1;
        proof {
            let sub = rv.subrange(0, i as int);
            assert(sub.drop_last() =~= rv.subrange(0, i - 1));
            assert(writer@ =~= start + records_wire(sub));
        }
    }
    assert(rv.subrange(0, i as int) =~= rv);
    Ok(())
}

impl DNSPacket {
    /// The uncompressed wire form; the header counts are the section lengths.
    pub fn assemble(&self) -> (r: Result<Vec<u8>, CodecError>)
        ensures
            r is Ok <==> packet_ok(self@),
            r is Ok ==> r->Ok_0@ == packet_wire(self@),
            r is Err ==> r->Err_0 == CodecError::Oversized,
    {
        let ghost pv = self@;
        if self.questions.len() > 65535 || self.answers.len() > 65535
            || self.authorities.len() > 65535 || self.additionals.len() > 65535 {
            return Err(CodecError::Oversized);
        }
        let mut writer: Vec<u8> = Vec::new();
        self.header.to_bytes(
            &mut writer,
            self.questions.len() as u16,
            self.answers.len() as u16,
            self.authorities.len() as u16,
            self.additionals.len() as u16,
        );
        let ghost after_header = writer@;
        let mut i: usize = 0;
        while i < self.questions.len()
            invariant
                0 <= i <= pv.questions.len(),
                pv == self@,
                writer@ == after_header + questions_wire(pv.questions.subrange(0, i as int)),
                forall|j: int| 0 <= j < i ==> name_ok(#[trigger] pv.questions[j].qname),
            decreases pv.questions.len() - i,
        {
            let res = self.questions[i].to_bytes(&mut writer);
            if res.is_err() {
                assert(pv.questions[i as int] == self.questions@[i as int]@);
                return Err(CodecError::Oversized);
            }
            i += 1;
            proof {
                let sub = pv.questions.subrange(0, i as int);
                assert(sub.drop_last() =~= pv.questions.subrange(0, i - 1));
                assert(writer@ =~= after_header + questions_wire(sub));
            }
        }
        assert(pv.questions.subrange(0, i as int) =~= pv.questions);
        records_to_bytes(&self.answers, &mut writer)?;
        records_to_bytes(&self.authorities, &mut writer)?;
        records_to_bytes(&self.additionals, &mut writer)?;
        assert(writer@ =~= packet_wire(pv));
        Ok(writer)
    }
}

} // verus!

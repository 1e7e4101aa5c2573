use vstd::prelude::*;
use vstd::utf8::{decode_utf8, valid_utf8};
use crate::domain_name::{labels_view, name_ok, DomainName, DomainNameToBytes};
use crate::records::{
    packet_ok, packet_wire, header_wire, questions_view, records_view, CodecError, DNSHeader, DNSPacket, DNSQuestion, DNSRdata,
    DNSResourceRecord, DNSType, PacketView, QuestionView, RdataView, RecordView,
};
use crate::util::string_from_utf8;

verus! {

/// The big-endian 16-bit value at `p`.
pub open spec fn get16(b: Seq<u8>, p: int) -> u16 {
    (b[p] as int * 256 + b[p + 1] as int) as u16
}

/// The big-endian 32-bit value at `p`.
pub open spec fn get32(b: Seq<u8>, p: int) -> u32 {
    (b[p] as int * 0x1000000 + b[p + 1] as int * 0x10000 + b[p + 2] as int * 256 + b[p
        + 3] as int) as u32
}

/// Reads the labels of a name at `pos`: a zero byte ends the name; a byte `11xxxxxx` and the
/// next one are a 14-bit pointer, followed at the cost of one unit of `fuel`, after which the
/// name ends two bytes past the pointer; a byte of 1 to 63 is the length of a UTF-8 label; any
/// other byte is malformed. Yields the labels and the position just past the name.
pub open spec fn parse_name_at(buf: Seq<u8>, pos: int, fuel: nat) -> Option<(Seq<Seq<char>>, int)>
    decreases fuel, buf.len() - pos,
{
    if pos < 0 || pos >= buf.len() {
        None
    } else {
        let c = buf[pos];
        if c == 0 {
            Some((Seq::empty(), pos + 1))
        } else if c >= 192 {
            if pos + 1 >= buf.len() || fuel == 0 {
                None
            } else {
                let target = (c - 192) * 256 + buf[pos + 1];
                match parse_name_at(buf, target, (fuel - 1) as nat) {
                    Some((ls, _)) => Some((ls, pos + 2)),
                    None => None,
                }
            }
        } else if c >= 64 {
            None
        } else if pos + 1 + c > buf.len() {
            None
        } else {
            let bytes = buf.subrange(pos + 1, pos + 1 + c);
            if !valid_utf8(bytes) {
                None
            } else {
                match parse_name_at(buf, pos + 1 + c, fuel) {
                    Some((ls, end)) => Some((seq![decode_utf8(bytes)] + ls, end)),
                    None => None,
                }
            }
        }
    }
}

/// A name at `pos`, following at most as many pointers as the message has bytes, and
/// no longer than the wire form allows.
pub open spec fn parse_name(buf: Seq<u8>, pos: int) -> Option<(Seq<Seq<char>>, int)> {
    match parse_name_at(buf, pos, buf.len()) {
        Some((ls, e)) => if name_ok(ls) {
            Some((ls, e))
        } else {
            None
        },
        None => None,
    }
}

/// The header fields of the twelve bytes at `p`.
pub open spec fn header_at(buf: Seq<u8>, p: int) -> DNSHeader {
    let hi = buf[p + 2];
    let lo = buf[p + 3];
    DNSHeader {
        id: get16(buf, p),
        qr: (hi >> 7u8) & 1,
        opcode: (hi >> 3u8) & 15,
        aa: (hi >> 2u8) & 1,
        tc: (hi >> 1u8) & 1,
        rd: hi & 1,
        ra: (lo >> 7u8) & 1,
        reserved: (lo >> 4u8) & 7,
        rcode: lo & 15,
        qdcount: get16(buf, p + 4),
        ancount: get16(buf, p + 6),
        nscount: get16(buf, p + 8),
        arcount: get16(buf, p + 10),
    }
}

pub open spec fn parse_header(buf: Seq<u8>, pos: int) -> Option<(DNSHeader, int)> {
    if 0 <= pos && pos + 12 <= buf.len() {
        Some((header_at(buf, pos), pos + 12))
    } else {
        None
    }
}

pub open spec fn parse_question(buf: Seq<u8>, pos: int) -> Option<(QuestionView, int)> {
    match parse_name(buf, pos) {
        Some((n, p)) => if p + 4 <= buf.len() {
            Some((QuestionView { qname: n, qtype: get16(buf, p), qclass: get16(buf, p + 2) }, p + 4))
        } else {
            None
        },
        None => None,
    }
}

/// `n` questions, one after the other.
pub open spec fn parse_questions(buf: Seq<u8>, pos: int, n: nat) -> Option<(Seq<QuestionView>, int)>
    decreases n,
{
    if n == 0 {
        Some((Seq::empty(), pos))
    } else {
        match parse_questions(buf, pos, (n - 1) as nat) {
            Some((qs, p)) => match parse_question(buf, p) {
                Some((q, off2)) => Some((qs.push(q), off2)),
                None => None,
            },
            None => None,
        }
    }
}

/// A payload of type `rtype` at `pos`: four bytes for A, sixteen for AAAA, a name for CNAME
/// and NS, a preference and a name for MX, `rdlength` bytes of UTF-8 for TXT, and
/// `rdlength` raw bytes for any other type.
pub open spec fn parse_rdata(buf: Seq<u8>, pos: int, rtype: u16, rdlength: u16) -> Option<(RdataView, int)> {
    if rtype == 1 {
        if pos + 4 <= buf.len() {
            Some((RdataView::A(buf.subrange(pos, pos + 4)), pos + 4))
        } else {
            None
        }
    } else if rtype == 28 {
        if pos + 16 <= buf.len() {
            Some((RdataView::Aaaa(buf.subrange(pos, pos + 16)), pos + 16))
        } else {
            None
        }
    } else if rtype == 5 {
        match parse_name(buf, pos) {
            Some((n, p)) => Some((RdataView::Cname(n), p)),
            None => None,
        }
    } else if rtype == 15 {
        if pos + 2 <= buf.len() {
            match parse_name(buf, pos + 2) {
                Some((n, p)) => Some((RdataView::Mx(get16(buf, pos), n), p)),
                None => None,
            }
        } else {
            None
        }
    } else if rtype == 2 {
        match parse_name(buf, pos) {
            Some((n, p)) => Some((RdataView::Ns(n), p)),
            None => None,
        }
    } else if pos + rdlength > buf.len() {
        None
    } else if rtype == 16 {
        let b = buf.subrange(pos, pos + rdlength);
        if valid_utf8(b) {
            Some((RdataView::Txt(decode_utf8(b)), pos + rdlength))
        } else {
            None
        }
    } else {
        Some((RdataView::Other(buf.subrange(pos, pos + rdlength)), pos + rdlength))
    }
}

/// The payload length at `pos`, then the payload.
pub open spec fn parse_rdata_field(buf: Seq<u8>, pos: int, rtype: u16) -> Option<(u16, RdataView, int)> {
    if 0 <= pos && pos + 2 <= buf.len() {
        let rdl = get16(buf, pos);
        match parse_rdata(buf, pos + 2, rtype, rdl) {
            Some((d, e)) => Some((rdl, d, e)),
            None => None,
        }
    } else {
        None
    }
}

pub open spec fn parse_record(buf: Seq<u8>, pos: int) -> Option<(RecordView, int)> {
    match parse_name(buf, pos) {
        Some((n, p)) => if p + 8 <= buf.len() {
            let t = get16(buf, p);
            match parse_rdata_field(buf, p + 8, t) {
                Some((rdl, d, e)) => Some((
                    RecordView {
                        name: n,
                        rtype: t,
                        class: get16(buf, p + 2),
                        ttl: get32(buf, p + 4),
                        rdlength: rdl,
                        rdata: d,
                    },
                    e,
                )),
                None => None,
            }
        } else {
            None
        },
        None => None,
    }
}

/// `n` records, one after the other.
pub open spec fn parse_records(buf: Seq<u8>, pos: int, n: nat) -> Option<(Seq<RecordView>, int)>
    decreases n,
{
    if n == 0 {
        Some((Seq::empty(), pos))
    } else {
        match parse_records(buf, pos, (n - 1) as nat) {
            Some((rs, p)) => match parse_record(buf, p) {
                Some((r, off2)) => Some((rs.push(r), off2)),
                None => None,
            },
            None => None,
        }
    }
}

/// A whole message: the header, then as many questions and records as its counts say.
pub open spec fn parse_packet(buf: Seq<u8>) -> Option<PacketView> {
    match parse_header(buf, 0) {
        Some((h, off1)) => match parse_questions(buf, off1, h.qdcount as nat) {
            Some((qs, off2)) => match parse_records(buf, off2, h.ancount as nat) {
                Some((an, off3)) => match parse_records(buf, off3, h.nscount as nat) {
                    Some((ns, off4)) => match parse_records(buf, off4, h.arcount as nat) {
                        Some((ar, _)) => Some(
                            PacketView {
                                header: h,
                                questions: qs,
                                answers: an,
                                authorities: ns,
                                additionals: ar,
                            },
                        ),
                        None => None,
                    },
                    None => None,
                },
                None => None,
            },
            None => None,
        },
        None => None,
    }
}

proof fn lemma_questions_fail_on(buf: Seq<u8>, pos: int, i: nat, n: nat)
    requires
        i <= n,
        parse_questions(buf, pos, i) is None,
    ensures
        parse_questions(buf, pos, n) is None,
    decreases n - i,
{
    if i < n {
        lemma_questions_fail_on(buf, pos, i, (n - 1) as nat);
    }
}

proof fn lemma_records_fail_on(buf: Seq<u8>, pos: int, i: nat, n: nat)
    requires
        i <= n,
        parse_records(buf, pos, i) is None,
    ensures
        parse_records(buf, pos, n) is None,
    decreases n - i,
{
    if i < n {
        lemma_records_fail_on(buf, pos, i, (n - 1) as nat);
    }
}

fn read_u16(buf: &[u8], pos: usize) -> (r: Result<u16, CodecError>)
    ensures
        match r {
            Ok(v) => pos + 2 <= buf@.len() && v == get16(buf@, pos as int),
            Err(e) => pos + 2 > buf@.len() && e == CodecError::FormatError,
        },
{
    if pos >= buf.len() || buf.len() - pos < 2 {
        return Err(CodecError::FormatError);
    }
    Ok(buf[pos] as u16 * 256 + buf[pos + 1] as u16)
}

fn read_u32(buf: &[u8], pos: usize) -> (r: Result<u32, CodecError>)
    ensures
        match r {
            Ok(v) => pos + 4 <= buf@.len() && v == get32(buf@, pos as int),
            Err(e) => pos + 4 > buf@.len() && e == CodecError::FormatError,
        },
{
    if pos >= buf.len() || buf.len() - pos < 4 {
        return Err(CodecError::FormatError);
    }
    Ok(buf[pos] as u32 * 0x1000000 + buf[pos + 1] as u32 * 0x10000 + buf[pos + 2] as u32 * 256
        + buf[pos + 3] as u32)
}

/// The bytes from `start` up to `end`.
fn copy_range(buf: &[u8], start: usize, end: usize) -> (r: Vec<u8>)
    requires
        start <= end <= buf@.len(),
    ensures
        r@ == buf@.subrange(start as int, end as int),
{
    let mut r: Vec<u8> = Vec::new();
    let mut i: usize = start;
    while i < end
        invariant
            start <= i <= end <= buf@.len(),
            r@ == buf@.subrange(start as int, i as int),
        decreases end - i,
    {
        r.push(buf[i]);
        i += 1;
        assert(r@ =~= buf@.subrange(start as int, i as int));
    }
    r
}

/// What a name reader returned, as labels and an end position.
pub open spec fn name_result(r: Option<(DomainName, usize)>) -> Option<(Seq<Seq<char>>, int)> {
    match r {
        Some((n, e)) => Some((labels_view(n@), e as int)),
        None => None,
    }
}

fn read_name_at(buf: &[u8], pos: usize, fuel: usize) -> (r: Option<(DomainName, usize)>)
    ensures
        name_result(r) == parse_name_at(buf@, pos as int, fuel as nat),
    decreases fuel, buf@.len() - pos,
{
    if pos >= buf.len() {
        return None;
    }
    let c = buf[pos];
    if c == 0 {
        let empty: DomainName = Vec::new();
        assert(labels_view(empty@) =~= Seq::empty());
        return Some((empty, pos + 1));
    }
    if c >= 192 {
        if pos + 1 >= buf.len() || fuel == 0 {
            return None;
        }
        let target: usize = (c - 192) as usize * 256 + buf[pos + 1] as usize;
        match read_name_at(buf, target, fuel - 1) {
            Some((n, _)) => Some((n, pos + 2)),
            None => None,
        }
    } else if c >= 64 {
        None
    } else {
        let start = pos + 1;
        if c as usize > buf.len() - start {
            return None;
        }
        let end = start + c as usize;
        let bytes = copy_range(buf, start, end);
        match string_from_utf8(bytes) {
            None => None,
            Some(label) => match read_name_at(buf, end, fuel) {
                Some((rest, e)) => {
                    let ghost rv = labels_view(rest@);
                    let mut n = rest;
                    n.insert(0, label);
                    assert(labels_view(n@) =~= seq![label@] + rv);
                    Some((n, e))
                },
                None => None,
            },
        }
    }
}

/// Reads a name from a message.
pub trait ReadDomainName {
    fn read_domain_name(&self, pos: usize) -> Result<(DomainName, usize), CodecError>;
}

/// What a reader returned, as its value and an end position.
pub open spec fn name_read(r: Result<(DomainName, usize), CodecError>) -> Option<(Seq<Seq<char>>, int)> {
    match r {
        Ok((n, e)) => Some((labels_view(n@), e as int)),
        Err(_) => None,
    }
}

impl ReadDomainName for [u8] {
    /// The name at `pos` and the position past it; `FormatError` where `parse_name` fails.
    fn read_domain_name(&self, pos: usize) -> (r: Result<(DomainName, usize), CodecError>)
        ensures
            name_read(r) == parse_name(self@, pos as int),
            r is Err ==> r->Err_0 == CodecError::FormatError,
    {
        match read_name_at(self, pos, self.len()) {
            None => Err(CodecError::FormatError),
            Some((n, e)) => if n.to_bytes().is_ok() {
                Ok((n, e))
            } else {
                Err(CodecError::FormatError)
            },
        }
    }
}

impl DNSHeader {
    /// The header at `pos` and the position past it.
    pub fn from_raw(buf: &[u8], pos: usize) -> (r: Result<(Self, usize), CodecError>)
        ensures
            match r {
                Ok((h, e)) => parse_header(buf@, pos as int) == Some((h, e as int)),
                Err(e) => parse_header(buf@, pos as int) is None && e == CodecError::FormatError,
            },
    {
        if pos >= buf.len() || buf.len() - pos < 12 {
            return Err(CodecError::FormatError);
        }
        let id = read_u16(buf, pos)?;
        let hi = buf[pos + 2];
        let lo = buf[pos + 3];
        let qdcount = read_u16(buf, pos + 4)?;
        let ancount = read_u16(buf, pos + 6)?;
        let nscount = read_u16(buf, pos + 8)?;
        let arcount = read_u16(buf, pos + 10)?;
        Ok((
            DNSHeader {
                id,
                qr: (hi >> 7u8) & 1,
                opcode: (hi >> 3u8) & 15,
                aa: (hi >> 2u8) & 1,
                tc: (hi >> 1u8) & 1,
                rd: hi & 1,
                ra: (lo >> 7u8) & 1,
                reserved: (lo >> 4u8) & 7,
                rcode: lo & 15,
                qdcount,
                ancount,
                nscount,
                arcount,
            },
            pos + 12,
        ))
    }
}

impl DNSQuestion {
    fn read_one(buf: &[u8], pos: usize) -> (r: Result<(Self, usize), CodecError>)
        ensures
            match r {
                Ok((q, e)) => parse_question(buf@, pos as int) == Some((q@, e as int)),
                Err(e) => parse_question(buf@, pos as int) is None && e == CodecError::FormatError,
            },
    {
        let (qname, p) = buf.read_domain_name(pos)?;
        if p >= buf.len() || buf.len() - p < 4 {
            return Err(CodecError::FormatError);
        }
        let qtype = read_u16(buf, p)?;
        let qclass = read_u16(buf, p + 2)?;
        Ok((DNSQuestion { qname, qtype, qclass }, p + 4))
    }

    /// `count` questions from `pos` on, and the position past them.
    pub fn from_raw(buf: &[u8], pos: usize, count: u16) -> (r: Result<(Vec<DNSQuestion>, usize), CodecError>)
        ensures
            match r {
                Ok((qs, e)) => parse_questions(buf@, pos as int, count as nat) == Some((questions_view(qs@), e as int)),
                Err(e) => parse_questions(buf@, pos as int, count as nat) is None && e == CodecError::FormatError,
            },
    {
        let mut res: Vec<DNSQuestion> = Vec::new();
        let mut p = pos;
        let mut i: u16 = 0;
        assert(questions_view(res@) =~= Seq::empty());
        while i < count
            invariant
                0 <= i <= count,
                parse_questions(buf@, pos as int, i as nat) == Some((questions_view(res@), p as int)),
                res@.len() == i,
            decreases count - i,
        {
            match Self::read_one(buf, p) {
                Ok((q, e)) => {
                    let ghost prev = res@;
                    res.push(q);
                    assert(questions_view(res@) =~= questions_view(prev).push(q@));
                    p = e;
                },
                Err(e) => {
                    proof {
                        lemma_questions_fail_on(buf@, pos as int, (i + 1) as nat, count as nat);
                    }
                    return Err(e);
                },
            }
            i += 1;
        }
        Ok((res, p))
    }
}

impl DNSResourceRecord {
    /// The payload length at `pos`, the payload of type `rtype` after it, and the position
    /// past the payload.
    pub fn rdata_from_raw(buf: &[u8], pos: usize, rtype: u16) -> (r: Result<(u16, DNSRdata, usize), CodecError>)
        ensures
            match r {
                Ok((rdl, d, e)) => parse_rdata_field(buf@, pos as int, rtype) == Some((rdl, d@, e as int)),
                Err(e) => parse_rdata_field(buf@, pos as int, rtype) is None && e == CodecError::FormatError,
            },
    {
        if pos >= buf.len() || buf.len() - pos < 2 {
            return Err(CodecError::FormatError);
        }
        let rdlength = read_u16(buf, pos)?;
        let p = pos + 2;
        let len = buf.len();
        match DNSType::from_num(rtype) {
            DNSType::A => {
                if len - p < 4 {
                    return Err(CodecError::FormatError);
                }
                let ip: [u8; 4] = [buf[p], buf[p + 1], buf[p + 2], buf[p + 3]];
                assert(ip@ =~= buf@.subrange(p as int, p + 4));
                Ok((rdlength, DNSRdata::A(ip), p + 4))
            },
            DNSType::AAAA => {
                if len - p < 16 {
                    return Err(CodecError::FormatError);
                }
                let ip: [u8; 16] = [
                    buf[p],
                    buf[p + 1],
                    buf[p + 2],
                    buf[p + 3],
                    buf[p + 4],
                    buf[p + 5],
                    buf[p + 6],
                    buf[p + 7],
                    buf[p + 8],
                    buf[p + 9],
                    buf[p + 10],
                    buf[p + 11],
                    buf[p + 12],
                    buf[p + 13],
                    buf[p + 14],
                    buf[p + 15],
                ];
                assert(ip@ =~= buf@.subrange(p as int, p + 16));
                Ok((rdlength, DNSRdata::Aaaa(ip), p + 16))
            },
            DNSType::CNAME => {
                let (n, e) = buf.read_domain_name(p)?;
                Ok((rdlength, DNSRdata::Cname(n), e))
            },
            DNSType::MX => {
                let pref = read_u16(buf, p)?;
                let (n, e) = buf.read_domain_name(p + 2)?;
                Ok((rdlength, DNSRdata::Mx(pref, n), e))
            },
            DNSType::NS => {
                let (n, e) = buf.read_domain_name(p)?;
                Ok((rdlength, DNSRdata::Ns(n), e))
            },
            DNSType::TXT => {
                if (rdlength as usize) > len - p {
                    return Err(CodecError::FormatError);
                }
                let e = p + rdlength as usize;
                match string_from_utf8(copy_range(buf, p, e)) {
                    Some(t) => Ok((rdlength, DNSRdata::Txt(t), e)),
                    None => Err(CodecError::FormatError),
                }
            },
            _ => {
                if (rdlength as usize) > len - p {
                    return Err(CodecError::FormatError);
                }
                let e = p + rdlength as usize;
                Ok((rdlength, DNSRdata::Other(copy_range(buf, p, e)), e))
            },
        }
    }

    /// The record at `pos` and the position past it.
    pub fn from_raw(buf: &[u8], pos: usize) -> (r: Result<(Self, usize), CodecError>)
        ensures
            match r {
                Ok((rr, e)) => parse_record(buf@, pos as int) == Some((rr@, e as int)),
                Err(e) => parse_record(buf@, pos as int) is None && e == CodecError::FormatError,
            },
    {
        let (name, p) = buf.read_domain_name(pos)?;
        if p >= buf.len() || buf.len() - p < 8 {
            return Err(CodecError::FormatError);
        }
        let rtype = read_u16(buf, p)?;
        let class = read_u16(buf, p + 2)?;
        let ttl = read_u32(buf, p + 4)?;
        let (rdlength, rdata, e) = Self::rdata_from_raw(buf, p + 8, rtype)?;
        Ok((DNSResourceRecord { name, rtype, class, ttl, rdlength, rdata }, e))
    }

    /// `count` records from `pos` on, and the position past them.
    pub fn from_raw_multi(buf: &[u8], pos: usize, count: u16) -> (r: Result<(Vec<Self>, usize), CodecError>)
        ensures
            match r {
                Ok((rs, e)) => parse_records(buf@, pos as int, count as nat) == Some((records_view(rs@), e as int)),
                Err(e) => parse_records(buf@, pos as int, count as nat) is None && e == CodecError::FormatError,
            },
    {
        let mut res: Vec<Self> = Vec::new();
        let mut p = pos;
        let mut i: u16 = 0;
        assert(records_view(res@) =~= Seq::empty());
        while i < count
            invariant
                0 <= i <= count,
                parse_records(buf@, pos as int, i as nat) == Some((records_view(res@), p as int)),
                res@.len() == i,
            decreases count - i,
        {
            match Self::from_raw(buf, p) {
                Ok((rr, e)) => {
                    let ghost prev = res@;
                    res.push(rr);
                    assert(records_view(res@) =~= records_view(prev).push(rr@));
                    p = e;
                },
                Err(e) => {
                    proof {
                        lemma_records_fail_on(buf@, pos as int, (i + 1) as nat, count as nat);
                    }
                    return Err(e);
                },
            }
            i += 1;
        }
        Ok((res, p))
    }
}

impl DNSPacket {
    /// Decodes a datagram; `FormatError` exactly where `parse_packet` fails.
    pub fn from_raw(buf: &[u8]) -> (r: Result<DNSPacket, CodecError>)
        ensures
            match r {
                Ok(p) => parse_packet(buf@) == Some(p@),
                Err(e) => parse_packet(buf@) is None && e == CodecError::FormatError,
            },
    {
        let (header, off1) = DNSHeader::from_raw(buf, 0)?;
        let (questions, off2) = DNSQuestion::from_raw(buf, off1, header.qdcount)?;
        let (answers, off3) = DNSResourceRecord::from_raw_multi(buf, off2, header.ancount)?;
        let (authorities, off4) = DNSResourceRecord::from_raw_multi(buf, off3, header.nscount)?;
        let (additionals, _) = DNSResourceRecord::from_raw_multi(buf, off4, header.arcount)?;
        Ok(DNSPacket { header, questions, answers, authorities, additionals })
    }
}

/// Positions from which reading a name can only lead back into the same positions: each is
/// inside the message and not a terminating zero, each pointer there that can be read points
/// into the set, and each label there that fits is followed by a position of the set.
pub open spec fn name_loop(buf: Seq<u8>, s: Set<int>) -> bool {
    forall|p: int|
        #![trigger s.contains(p)]
        s.contains(p) ==> {
            &&& 0 <= p < buf.len()
            &&& buf[p] != 0
            &&& (buf[p] >= 192 && p + 1 < buf.len()) ==> s.contains((buf[p] - 192) * 256 + buf[p + 1])
            &&& (buf[p] < 64 && p + 1 + buf[p] <= buf.len()) ==> s.contains(p + 1 + buf[p])
        }
}

/// A name whose compression pointers form a cycle is rejected, whatever the pointer budget:
/// from any position of a loop of positions, reading ends in failure rather than going on.
pub proof fn lemma_pointer_loop_rejected(buf: Seq<u8>, s: Set<int>, pos: int)
    requires
        name_loop(buf, s),
        s.contains(pos),
    ensures
        parse_name(buf, pos) is None,
        forall|fuel: nat| #[trigger] parse_name_at(buf, pos, fuel) is None,
{
    assert forall|fuel: nat| #[trigger] parse_name_at(buf, pos, fuel) is None by {
        lemma_loop_fails_at(buf, s, pos, fuel);
    }
}

proof fn lemma_loop_fails_at(buf: Seq<u8>, s: Set<int>, pos: int, fuel: nat)
    requires
        name_loop(buf, s),
        s.contains(pos),
    ensures
        parse_name_at(buf, pos, fuel) is None,
    decreases fuel, buf.len() - pos,
{
    let c = buf[pos];
    if c >= 192 {
        if pos + 1 < buf.len() && fuel > 0 {
            lemma_loop_fails_at(buf, s, (c - 192) * 256 + buf[pos + 1], (fuel - 1) as nat);
        }
    } else if c < 64 && pos + 1 + c <= buf.len() {
        lemma_loop_fails_at(buf, s, pos + 1 + c, fuel);
    }
}

/// In every assembled message the four header counts equal the lengths of the four
/// sections that follow.
pub proof fn lemma_section_counts(p: PacketView)
    requires
        packet_ok(p),
    ensures
        packet_wire(p).len() >= 12,
        get16(packet_wire(p), 4) == p.questions.len(),
        get16(packet_wire(p), 6) == p.answers.len(),
        get16(packet_wire(p), 8) == p.authorities.len(),
        get16(packet_wire(p), 10) == p.additionals.len(),
{
    let w = packet_wire(p);
    let h = header_wire(
        p.header,
        p.questions.len() as u16,
        p.answers.len() as u16,
        p.authorities.len() as u16,
        p.additionals.len() as u16,
    );
    assert(h.len() == 12);
    assert forall|i: int| 0 <= i < 12 implies w[i] == h[i] by {
        assert(w =~= h + (w.subrange(12, w.len() as int)));
    }
}

} // verus!

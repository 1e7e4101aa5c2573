use vstd::prelude::*;
use vstd::utf8::{
    decode_utf8_encode_utf8, encode_utf8, encode_utf8_decode_utf8, encode_utf8_valid_utf8,
};
use crate::decode::{
    get16, get32, header_at, parse_header, parse_name, parse_name_at, parse_packet, parse_question,
    parse_questions, parse_rdata, parse_rdata_field, parse_record, parse_records,
};
use crate::domain_name::{label_ok, labels_wire, name_ok, name_wire};
use crate::records::{
    be16, be32, flags_hi, flags_lo, header_wire, packet_ok, packet_wire, question_wire,
    questions_wire, rdata_ok, rdata_payload, record_ok, record_wire, records_ok, records_wire,
    wire_type, DNSHeader, PacketView, QuestionView, RdataView, RecordView,
};

verus! {

proof fn lemma_labels_wire_first(ls: Seq<Seq<char>>)
    requires
        ls.len() > 0,
    ensures
        labels_wire(ls) == seq![encode_utf8(ls[0]).len() as u8] + encode_utf8(ls[0]) + labels_wire(
            ls.drop_first(),
        ),
    decreases ls.len(),
{
    if ls.len() == 1 {
        assert(ls.drop_first() =~= Seq::<Seq<char>>::empty());
        assert(ls.drop_last() =~= Seq::<Seq<char>>::empty());
        assert(labels_wire(ls) =~= seq![encode_utf8(ls[0]).len() as u8] + encode_utf8(ls[0]) + labels_wire(
            ls.drop_first(),
        ));
    } else {
        let d = ls.drop_last();
        lemma_labels_wire_first(d);
        assert(d.drop_first() =~= ls.drop_first().drop_last());
        assert(d[0] == ls[0]);
        assert(ls.drop_first().last() == ls.last());
        assert(labels_wire(ls) =~= seq![encode_utf8(ls[0]).len() as u8] + encode_utf8(ls[0]) + labels_wire(
            ls.drop_first(),
        ));
    }
}

/// Reading the uncompressed wire form of a name gives the name back.
proof fn lemma_parse_name_wire(buf: Seq<u8>, pos: int, ls: Seq<Seq<char>>, fuel: nat)
    requires
        0 <= pos,
        pos + name_wire(ls).len() <= buf.len(),
        buf.subrange(pos, pos + name_wire(ls).len()) == name_wire(ls),
        forall|i: int| 0 <= i < ls.len() ==> label_ok(#[trigger] ls[i]),
    ensures
        parse_name_at(buf, pos, fuel) == Some((ls, pos + name_wire(ls).len())),
    decreases ls.len(),
{
    let w = name_wire(ls);
    if ls.len() == 0 {
        assert(w =~= seq![0u8]);
        assert(buf[pos] == buf.subrange(pos, pos + w.len())[0]);
    } else {
        lemma_labels_wire_first(ls);
        let e = encode_utf8(ls[0]);
        let c = e.len();
        let rest = ls.drop_first();
        assert(label_ok(ls[0]));
        assert(w =~= seq![c as u8] + e + name_wire(rest));
        assert(buf[pos] == w[0]);
        assert(buf[pos] == c as u8);
        assert(buf.subrange(pos + 1, pos + 1 + c) =~= e) by {
            assert forall|i: int| 0 <= i < c implies buf.subrange(pos + 1, pos + 1 + c)[i] == e[i] by {
                assert(buf[pos + 1 + i] == w[1 + i]);
            }
        }
        assert(buf.subrange(pos + 1 + c, pos + w.len()) =~= name_wire(rest)) by {
            assert forall|i: int| 0 <= i < name_wire(rest).len() implies buf.subrange(pos + 1 + c, pos + w.len())[i]
                == name_wire(rest)[i] by {
                assert(buf[pos + 1 + c + i] == w[1 + c + i]);
            }
        }
        assert forall|i: int| 0 <= i < rest.len() implies label_ok(#[trigger] rest[i]) by {
            assert(rest[i] == ls[i + 1]);
        }
        lemma_parse_name_wire(buf, pos + 1 + c, rest, fuel);
        encode_utf8_valid_utf8(ls[0]);
        encode_utf8_decode_utf8(ls[0]);
        assert(seq![ls[0]] + rest =~= ls);
    }
}

/// Reading the wire form of a name that the wire form can carry gives the name back.
proof fn lemma_read_name_wire(buf: Seq<u8>, pos: int, ls: Seq<Seq<char>>)
    requires
        0 <= pos,
        pos + name_wire(ls).len() <= buf.len(),
        buf.subrange(pos, pos + name_wire(ls).len()) == name_wire(ls),
        name_ok(ls),
    ensures
        parse_name(buf, pos) == Some((ls, pos + name_wire(ls).len())),
{
    lemma_parse_name_wire(buf, pos, ls, buf.len() as nat);
}

/// `w` stands in `buf` at `pos`.
pub open spec fn at(buf: Seq<u8>, pos: int, w: Seq<u8>) -> bool {
    0 <= pos && pos + w.len() <= buf.len() && buf.subrange(pos, pos + w.len()) == w
}

proof fn lemma_at_split(buf: Seq<u8>, pos: int, a: Seq<u8>, b: Seq<u8>)
    requires
        at(buf, pos, a + b),
    ensures
        at(buf, pos, a),
        at(buf, pos + a.len(), b),
{
    let w = a + b;
    assert(buf.subrange(pos, pos + a.len()) =~= a) by {
        assert forall|i: int| 0 <= i < a.len() implies buf.subrange(pos, pos + a.len())[i] == a[i] by {
            assert(buf[pos + i] == buf.subrange(pos, pos + w.len())[i]);
        }
    }
    assert(buf.subrange(pos + a.len(), pos + a.len() + b.len()) =~= b) by {
        assert forall|i: int| 0 <= i < b.len() implies buf.subrange(pos + a.len(), pos + a.len() + b.len())[i]
            == b[i] by {
            assert(buf[pos + a.len() + i] == buf.subrange(pos, pos + w.len())[a.len() + i]);
        }
    }
}

proof fn lemma_get16(buf: Seq<u8>, pos: int, v: u16)
    requires
        at(buf, pos, be16(v)),
    ensures
        get16(buf, pos) == v,
{
    assert(buf[pos] == buf.subrange(pos, pos + 2)[0]);
    assert(buf[pos + 1] == buf.subrange(pos, pos + 2)[1]);
    assert(buf[pos] == (v / 256) as u8);
    assert(buf[pos + 1] == (v % 256) as u8);
}

proof fn lemma_get32(buf: Seq<u8>, pos: int, v: u32)
    requires
        at(buf, pos, be32(v)),
    ensures
        get32(buf, pos) == v,
{
    let w = buf.subrange(pos, pos + 4);
    assert(buf[pos] == w[0] && buf[pos + 1] == w[1] && buf[pos + 2] == w[2] && buf[pos + 3] == w[3]);
    assert(buf[pos] == (v / 0x1000000) as u8);
    assert(buf[pos + 1] == ((v / 0x10000) % 256) as u8);
    assert(buf[pos + 2] == ((v / 256) % 256) as u8);
    assert(buf[pos + 3] == (v % 256) as u8);
}

/// The type numbers that the decoder reads into a payload of their own.
pub open spec fn recognized(t: u16) -> bool {
    t == 1 || t == 28 || t == 5 || t == 15 || t == 2 || t == 16
}

/// A record as the decoder makes them: its type number is that of its payload, an `Other`
/// payload has a type of its own, and addresses have their lengths.
pub open spec fn record_shaped(r: RecordView) -> bool {
    &&& r.rtype == wire_type(r)
    &&& r.rdata is Other ==> !recognized(r.rtype)
    &&& r.rdata is A ==> r.rdata->A_0.len() == 4
    &&& r.rdata is Aaaa ==> r.rdata->Aaaa_0.len() == 16
}

/// A record with its payload length set to that of the payload written.
pub open spec fn with_payload_len(r: RecordView) -> RecordView {
    RecordView { rdlength: rdata_payload(r.rdata).len() as u16, ..r }
}

proof fn lemma_parse_rdata_wire(buf: Seq<u8>, pos: int, r: RecordView)
    requires
        record_ok(r),
        record_shaped(r),
        at(buf, pos, be16(rdata_payload(r.rdata).len() as u16) + rdata_payload(r.rdata)),
    ensures
        parse_rdata_field(buf, pos, r.rtype) == Some((
            rdata_payload(r.rdata).len() as u16,
            r.rdata,
            pos + 2 + rdata_payload(r.rdata).len(),
        )),
{
    let pl = rdata_payload(r.rdata);
    lemma_at_split(buf, pos, be16(pl.len() as u16), pl);
    lemma_get16(buf, pos, pl.len() as u16);
    let p = pos + 2;
    match r.rdata {
        RdataView::A(ip) => {},
        RdataView::Aaaa(ip) => {},
        RdataView::Cname(n) => {
            lemma_read_name_wire(buf, p, n);
        },
        RdataView::Ns(n) => {
            lemma_read_name_wire(buf, p, n);
        },
        RdataView::Mx(pref, n) => {
            lemma_at_split(buf, p, be16(pref), name_wire(n));
            lemma_get16(buf, p, pref);
            lemma_read_name_wire(buf, p + 2, n);
        },
        RdataView::Txt(t) => {
            encode_utf8_valid_utf8(t);
            encode_utf8_decode_utf8(t);
        },
        RdataView::Other(b) => {},
    }
}

/// Reading the wire form of a record gives the record back, with the payload length of
/// what was written.
proof fn lemma_parse_record_wire(buf: Seq<u8>, pos: int, r: RecordView)
    requires
        record_ok(r),
        record_shaped(r),
        at(buf, pos, record_wire(r)),
    ensures
        parse_record(buf, pos) == Some((with_payload_len(r), pos + record_wire(r).len())),
{
    let pl = rdata_payload(r.rdata);
    let nw = name_wire(r.name);
    let a = nw + be16(wire_type(r));
    let b = a + be16(r.class);
    let c = b + be32(r.ttl);
    let d = be16(pl.len() as u16) + pl;
    assert(record_wire(r) =~= c + d);
    lemma_at_split(buf, pos, c, d);
    lemma_at_split(buf, pos, b, be32(r.ttl));
    lemma_at_split(buf, pos, a, be16(r.class));
    lemma_at_split(buf, pos, nw, be16(wire_type(r)));
    lemma_read_name_wire(buf, pos, r.name);
    let p = pos + nw.len();
    lemma_get16(buf, p, wire_type(r));
    lemma_get16(buf, p + 2, r.class);
    lemma_get32(buf, p + 4, r.ttl);
    lemma_parse_rdata_wire(buf, p + 8, r);
    assert(parse_record(buf, pos) == Some((with_payload_len(r), pos + record_wire(r).len())));
}

/// The records with their payload lengths set to those of the payloads written.
pub open spec fn with_payload_lens(rs: Seq<RecordView>) -> Seq<RecordView> {
    rs.map_values(|r: RecordView| with_payload_len(r))
}

proof fn lemma_parse_records_wire(buf: Seq<u8>, pos: int, rs: Seq<RecordView>)
    requires
        forall|i: int| 0 <= i < rs.len() ==> record_ok(#[trigger] rs[i]) && record_shaped(rs[i]),
        at(buf, pos, records_wire(rs)),
    ensures
        parse_records(buf, pos, rs.len()) == Some((with_payload_lens(rs), pos + records_wire(rs).len())),
    decreases rs.len(),
{
    if rs.len() > 0 {
        let d = rs.drop_last();
        assert(records_wire(rs) == records_wire(d) + record_wire(rs.last()));
        lemma_at_split(buf, pos, records_wire(d), record_wire(rs.last()));
        assert forall|i: int| 0 <= i < d.len() implies record_ok(#[trigger] d[i]) && record_shaped(d[i]) by {
            assert(d[i] == rs[i]);
        }
        lemma_parse_records_wire(buf, pos, d);
        assert(record_ok(rs[rs.len() - 1]) && record_shaped(rs[rs.len() - 1]));
        lemma_parse_record_wire(buf, pos + records_wire(d).len(), rs.last());
        assert(with_payload_lens(d).push(with_payload_len(rs.last())) =~= with_payload_lens(rs));
        assert((rs.len() - 1) as nat == d.len());
    } else {
        assert(with_payload_lens(rs) =~= Seq::<RecordView>::empty());
    }
}

proof fn lemma_parse_question_wire(buf: Seq<u8>, pos: int, q: QuestionView)
    requires
        name_ok(q.qname),
        at(buf, pos, question_wire(q)),
    ensures
        parse_question(buf, pos) == Some((q, pos + question_wire(q).len())),
{
    let nw = name_wire(q.qname);
    lemma_at_split(buf, pos, nw + be16(q.qtype), be16(q.qclass));
    lemma_at_split(buf, pos, nw, be16(q.qtype));
    lemma_read_name_wire(buf, pos, q.qname);
    lemma_get16(buf, pos + nw.len(), q.qtype);
    lemma_get16(buf, pos + nw.len() + 2, q.qclass);
}

proof fn lemma_parse_questions_wire(buf: Seq<u8>, pos: int, qs: Seq<QuestionView>)
    requires
        forall|i: int| 0 <= i < qs.len() ==> name_ok(#[trigger] qs[i].qname),
        at(buf, pos, questions_wire(qs)),
    ensures
        parse_questions(buf, pos, qs.len()) == Some((qs, pos + questions_wire(qs).len())),
    decreases qs.len(),
{
    if qs.len() > 0 {
        let d = qs.drop_last();
        lemma_at_split(buf, pos, questions_wire(d), question_wire(qs.last()));
        assert forall|i: int| 0 <= i < d.len() implies name_ok(#[trigger] d[i].qname) by {
            assert(d[i] == qs[i]);
        }
        lemma_parse_questions_wire(buf, pos, d);
        assert(name_ok(qs[qs.len() - 1].qname));
        lemma_parse_question_wire(buf, pos + questions_wire(d).len(), qs.last());
        assert(d.push(qs.last()) =~= qs);
        assert((qs.len() - 1) as nat == d.len());
    } else {
        assert(qs =~= Seq::<QuestionView>::empty());
    }
}

/// Header fields within their bit widths.
pub open spec fn header_shaped(h: DNSHeader) -> bool {
    h.qr <= 1 && h.opcode <= 15 && h.aa <= 1 && h.tc <= 1 && h.rd <= 1 && h.ra <= 1 && h.reserved <= 7
        && h.rcode <= 15
}

proof fn lemma_flags_hi(qr: u8, opcode: u8, aa: u8, tc: u8, rd: u8)
    by (bit_vector)
    requires
        qr <= 1,
        opcode <= 15,
        aa <= 1,
        tc <= 1,
        rd <= 1,
    ensures
        ({
            let b = ((qr & 1) << 7u8) | ((opcode & 15) << 3u8) | ((aa & 1) << 2u8) | ((tc & 1) << 1u8)
                | (rd & 1);
            &&& (b >> 7u8) & 1 == qr
            &&& (b >> 3u8) & 15 == opcode
            &&& (b >> 2u8) & 1 == aa
            &&& (b >> 1u8) & 1 == tc
            &&& b & 1 == rd
        }),
{
}

proof fn lemma_flags_lo(ra: u8, reserved: u8, rcode: u8)
    by (bit_vector)
    requires
        ra <= 1,
        reserved <= 7,
        rcode <= 15,
    ensures
        ({
            let b = ((ra & 1) << 7u8) | ((reserved & 7) << 4u8) | (rcode & 15);
            &&& (b >> 7u8) & 1 == ra
            &&& (b >> 4u8) & 7 == reserved
            &&& b & 15 == rcode
        }),
{
}

proof fn lemma_fields_shaped(hi: u8, lo: u8)
    by (bit_vector)
    ensures
        (hi >> 7u8) & 1 <= 1,
        (hi >> 3u8) & 15 <= 15,
        (hi >> 2u8) & 1 <= 1,
        (hi >> 1u8) & 1 <= 1,
        hi & 1 <= 1,
        (lo >> 7u8) & 1 <= 1,
        (lo >> 4u8) & 7 <= 7,
        lo & 15 <= 15,
{
}

/// A message as the decoder makes them: header fields within their widths, counts equal to
/// the section lengths, records shaped as the decoder shapes them, and all of it writable.
pub open spec fn decoded_shape(m: PacketView) -> bool {
    &&& header_shaped(m.header)
    &&& m.header.qdcount == m.questions.len()
    &&& m.header.ancount == m.answers.len()
    &&& m.header.nscount == m.authorities.len()
    &&& m.header.arcount == m.additionals.len()
    &&& packet_ok(m)
    &&& forall|i: int| 0 <= i < m.answers.len() ==> record_shaped(#[trigger] m.answers[i])
    &&& forall|i: int| 0 <= i < m.authorities.len() ==> record_shaped(#[trigger] m.authorities[i])
    &&& forall|i: int| 0 <= i < m.additionals.len() ==> record_shaped(#[trigger] m.additionals[i])
}

/// The message with every record's payload length set to that of the payload written.
pub open spec fn normalized(m: PacketView) -> PacketView {
    PacketView {
        answers: with_payload_lens(m.answers),
        authorities: with_payload_lens(m.authorities),
        additionals: with_payload_lens(m.additionals),
        ..m
    }
}

proof fn lemma_parse_header_wire(w: Seq<u8>, h: DNSHeader)
    requires
        header_shaped(h),
        at(w, 0, header_wire(h, h.qdcount, h.ancount, h.nscount, h.arcount)),
    ensures
        parse_header(w, 0) == Some((h, 12int)),
{
    let hb = be16(h.id) + seq![flags_hi(h), flags_lo(h)];
    let c1 = hb + be16(h.qdcount);
    let c2 = c1 + be16(h.ancount);
    let c3 = c2 + be16(h.nscount);
    assert(header_wire(h, h.qdcount, h.ancount, h.nscount, h.arcount) =~= c3 + be16(h.arcount));
    lemma_at_split(w, 0, c3, be16(h.arcount));
    lemma_at_split(w, 0, c2, be16(h.nscount));
    lemma_at_split(w, 0, c1, be16(h.ancount));
    lemma_at_split(w, 0, hb, be16(h.qdcount));
    lemma_at_split(w, 0, be16(h.id), seq![flags_hi(h), flags_lo(h)]);
    lemma_get16(w, 0, h.id);
    lemma_get16(w, 4, h.qdcount);
    lemma_get16(w, 6, h.ancount);
    lemma_get16(w, 8, h.nscount);
    lemma_get16(w, 10, h.arcount);
    assert(w[2] == w.subrange(2, 4)[0]);
    assert(w[3] == w.subrange(2, 4)[1]);
    lemma_flags_hi(h.qr, h.opcode, h.aa, h.tc, h.rd);
    lemma_flags_lo(h.ra, h.reserved, h.rcode);
    assert(header_at(w, 0) == h);
}

proof fn lemma_wire_layout(m: PacketView)
    ensures
        ({
            let w = packet_wire(m);
            let h = m.header;
            let qw = questions_wire(m.questions);
            let off2 = 12 + qw.len() as int;
            let off3 = off2 + records_wire(m.answers).len() as int;
            let off4 = off3 + records_wire(m.authorities).len() as int;
            &&& at(w, 0, header_wire(h, m.questions.len() as u16, m.answers.len() as u16, m.authorities.len() as u16, m.additionals.len() as u16))
            &&& at(w, 12, qw)
            &&& at(w, off2, records_wire(m.answers))
            &&& at(w, off3, records_wire(m.authorities))
            &&& at(w, off4, records_wire(m.additionals))
        }),
{
    let w = packet_wire(m);
    let h = m.header;
    let hw = header_wire(h, m.questions.len() as u16, m.answers.len() as u16, m.authorities.len() as u16, m.additionals.len() as u16);
    let qw = questions_wire(m.questions);
    let aw = records_wire(m.answers);
    let nw = records_wire(m.authorities);
    let rw = records_wire(m.additionals);
    assert(at(w, 0, w)) by {
        assert(w.subrange(0, w.len() as int) =~= w);
    }
    lemma_at_split(w, 0, hw + qw + aw + nw, rw);
    lemma_at_split(w, 0, hw + qw + aw, nw);
    lemma_at_split(w, 0, hw + qw, aw);
    lemma_at_split(w, 0, hw, qw);
}

proof fn lemma_parse_packet_parts(
    w: Seq<u8>,
    h: DNSHeader,
    qs: Seq<QuestionView>,
    an: Seq<RecordView>,
    ns: Seq<RecordView>,
    ar: Seq<RecordView>,
    off2: int,
    off3: int,
    off4: int,
    off5: int,
)
    requires
        parse_header(w, 0) == Some((h, 12int)),
        parse_questions(w, 12, h.qdcount as nat) == Some((qs, off2)),
        parse_records(w, off2, h.ancount as nat) == Some((an, off3)),
        parse_records(w, off3, h.nscount as nat) == Some((ns, off4)),
        parse_records(w, off4, h.arcount as nat) == Some((ar, off5)),
    ensures
        parse_packet(w) == Some(
            PacketView { header: h, questions: qs, answers: an, authorities: ns, additionals: ar },
        ),
{
}

proof fn lemma_decode_encode(m: PacketView)
    requires
        decoded_shape(m),
    ensures
        parse_packet(packet_wire(m)) == Some(normalized(m)),
{
    let w = packet_wire(m);
    let h = m.header;
    let qw = questions_wire(m.questions);
    let off2 = 12 + qw.len() as int;
    let off3 = off2 + records_wire(m.answers).len() as int;
    let off4 = off3 + records_wire(m.authorities).len() as int;
    let off5 = off4 + records_wire(m.additionals).len() as int;
    lemma_wire_layout(m);
    lemma_parse_header_wire(w, h);
    lemma_parse_questions_wire(w, 12int, m.questions);
    lemma_parse_records_wire(w, off2, m.answers);
    lemma_parse_records_wire(w, off3, m.authorities);
    lemma_parse_records_wire(w, off4, m.additionals);
    lemma_parse_packet_parts(
        w,
        h,
        m.questions,
        with_payload_lens(m.answers),
        with_payload_lens(m.authorities),
        with_payload_lens(m.additionals),
        off2,
        off3,
        off4,
        off5,
    );
}

proof fn lemma_parsed_record(buf: Seq<u8>, pos: int)
    requires
        parse_record(buf, pos) is Some,
    ensures
        record_ok((parse_record(buf, pos)->0).0),
        record_shaped((parse_record(buf, pos)->0).0),
{
    let (n, p) = parse_name(buf, pos)->0;
    let t = get16(buf, p);
    let q = p + 10;
    let rdl = get16(buf, p + 8);
    let d = (parse_rdata(buf, q, t, rdl)->0).0;
    if t == 16 {
        let b = buf.subrange(q, q + rdl);
        decode_utf8_encode_utf8(b);
    }
    assert(rdata_ok(d));
}

proof fn lemma_parsed_records(buf: Seq<u8>, pos: int, n: nat)
    requires
        parse_records(buf, pos, n) is Some,
    ensures
        (parse_records(buf, pos, n)->0).0.len() == n,
        forall|i: int|
            0 <= i < n ==> record_ok(#[trigger] (parse_records(buf, pos, n)->0).0[i]) && record_shaped(
                (parse_records(buf, pos, n)->0).0[i],
            ),
    decreases n,
{
    if n > 0 {
        lemma_parsed_records(buf, pos, (n - 1) as nat);
        let (rs, p) = parse_records(buf, pos, (n - 1) as nat)->0;
        lemma_parsed_record(buf, p);
        let all = (parse_records(buf, pos, n)->0).0;
        assert(all == rs.push((parse_record(buf, p)->0).0));
        assert forall|i: int| 0 <= i < n implies record_ok(#[trigger] all[i]) && record_shaped(all[i]) by {
            if i < n - 1 {
                assert(all[i] == rs[i]);
            }
        }
    }
}

proof fn lemma_parsed_questions(buf: Seq<u8>, pos: int, n: nat)
    requires
        parse_questions(buf, pos, n) is Some,
    ensures
        (parse_questions(buf, pos, n)->0).0.len() == n,
        forall|i: int| 0 <= i < n ==> name_ok(#[trigger] (parse_questions(buf, pos, n)->0).0[i].qname),
    decreases n,
{
    if n > 0 {
        lemma_parsed_questions(buf, pos, (n - 1) as nat);
        let (qs, p) = parse_questions(buf, pos, (n - 1) as nat)->0;
        let all = (parse_questions(buf, pos, n)->0).0;
        assert(all == qs.push((parse_question(buf, p)->0).0));
        assert forall|i: int| 0 <= i < n implies name_ok(#[trigger] all[i].qname) by {
            if i < n - 1 {
                assert(all[i] == qs[i]);
            }
        }
    }
}

proof fn lemma_parsed_shape(buf: Seq<u8>)
    requires
        parse_packet(buf) is Some,
    ensures
        decoded_shape(parse_packet(buf)->0),
{
    let m = parse_packet(buf)->0;
    let h = m.header;
    lemma_fields_shaped(buf[2], buf[3]);
    let off1 = 12int;
    let (qs, off2) = parse_questions(buf, off1, h.qdcount as nat)->0;
    lemma_parsed_questions(buf, off1, h.qdcount as nat);
    let (an, off3) = parse_records(buf, off2, h.ancount as nat)->0;
    lemma_parsed_records(buf, off2, h.ancount as nat);
    let (ns, off4) = parse_records(buf, off3, h.nscount as nat)->0;
    lemma_parsed_records(buf, off3, h.nscount as nat);
    lemma_parsed_records(buf, off4, h.arcount as nat);
}

/// Decoding what the encoder writes for any decoded message gives that message back: the
/// same header, questions and records, each record's payload length being that of the
/// payload written. Encoding such a message never fails.
pub proof fn lemma_round_trip(buf: Seq<u8>)
    requires
        parse_packet(buf) is Some,
    ensures
        packet_ok(parse_packet(buf)->0),
        parse_packet(packet_wire(parse_packet(buf)->0)) == Some(normalized(parse_packet(buf)->0)),
{
    lemma_parsed_shape(buf);
    lemma_decode_encode(parse_packet(buf)->0);
}

} // verus!

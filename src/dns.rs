use vstd::prelude::*;
use std::collections::HashMap;
use crate::cache::{
    after_insert, after_lookup, cache_key, lemma_ttl_counts_down, lookup_result, CacheKey,
    CacheValue, DnsCache,
};
use crate::decode::parse_packet;
use crate::domain_name::{labels_view, presentation, DomainName, ToReadableName};
use crate::records::{
    copy_name, packet_ok, questions_view, record_ok, records_view,
    fresh_header, DNSHeader, DNSPacket, DNSQuestion, DNSRcode, DNSRdata, DNSType, PacketView,
    QuestionView, RdataView, RecordView,
};
use crate::util::{now_millis, random_below, Either};
use crate::round_trip::lemma_round_trip;

verus! {

broadcast use vstd::std_specs::hash::group_hash_axioms;

/// An IP address, as its big-endian number.
#[derive(Clone, Copy, Debug, PartialEq, Eq, Structural)]
pub enum IpAddress {
    V4(u32),
    V6(u128),
}

/// The number of an IPv4 address given as four octets.
pub open spec fn ipv4_num(b: Seq<u8>) -> u32 {
    (b[0] as int * 0x1000000 + b[1] as int * 0x10000 + b[2] as int * 256 + b[3] as int) as u32
}

/// The number of an IPv4 address given as four octets.
pub fn ipv4_from_octets(o: [u8; 4]) -> (r: u32)
    ensures
        r == ipv4_num(o@),
{
    o[0] as u32 * 0x1000000 + o[1] as u32 * 0x10000 + o[2] as u32 * 256 + o[3] as u32
}

/// A UDP endpoint: an address and a port.
#[derive(Clone, Copy, Debug, PartialEq, Eq, Structural)]
pub struct PeerAddr {
    pub ip: IpAddress,
    pub port: u16,
}

/// An in-flight resolution: the client's address and the stack of outstanding queries, the
/// client's own question at the bottom.
pub struct RdnsData {
    pub src_addr: PeerAddr,
    pub packet_stack: Vec<DNSPacket>,
}

/// The model of an in-flight resolution.
pub struct PendingView {
    pub src: PeerAddr,
    pub stack: Seq<PacketView>,
}

impl View for RdnsData {
    type V = PendingView;

    open spec fn view(&self) -> PendingView {
        PendingView { src: self.src_addr, stack: self.packet_stack@.map_values(|p: DNSPacket| p@) }
    }
}

/// A datagram to send.
pub struct Outgoing {
    pub to: PeerAddr,
    pub packet: DNSPacket,
}

/// The model of a datagram to send.
pub struct OutView {
    pub to: PeerAddr,
    pub packet: PacketView,
}

pub open spec fn out_view(o: Option<Outgoing>) -> Option<OutView> {
    match o {
        Some(o) => Some(OutView { to: o.to, packet: o.packet@ }),
        None => None,
    }
}

/// The model of the engine: the pending table and the cache.
pub struct RdnsView {
    pub pending: Map<u16, PendingView>,
    pub cache: Map<CacheKey, CacheValue>,
}

/// The thirteen root servers.
pub open spec fn root_servers() -> Seq<Seq<u8>> {
    seq![
        seq![198u8, 41u8, 0u8, 4u8],
        seq![199u8, 9u8, 14u8, 201u8],
        seq![192u8, 33u8, 4u8, 12u8],
        seq![199u8, 7u8, 91u8, 13u8],
        seq![192u8, 203u8, 230u8, 10u8],
        seq![192u8, 5u8, 5u8, 241u8],
        seq![192u8, 112u8, 36u8, 4u8],
        seq![198u8, 97u8, 190u8, 53u8],
        seq![192u8, 36u8, 148u8, 17u8],
        seq![192u8, 58u8, 128u8, 30u8],
        seq![193u8, 0u8, 14u8, 129u8],
        seq![199u8, 7u8, 83u8, 42u8],
        seq![202u8, 12u8, 27u8, 33u8],
    ]
}

/// `a` is port 53 of the IPv4 address `ip`.
pub open spec fn is_upstream(a: PeerAddr, ip: Seq<u8>) -> bool {
    a.port == 53 && a.ip == IpAddress::V4(ipv4_num(ip))
}

/// `a` is port 53 of one of the root servers.
pub open spec fn is_root(a: PeerAddr) -> bool {
    exists|i: int| 0 <= i < 13 && is_upstream(a, #[trigger] root_servers()[i])
}

/// An NS record of the authority section.
pub open spec fn is_ns_entry(r: RecordView) -> bool {
    r.rtype == 2 && r.rdata is Ns
}

/// The presentation names of the NS records in the authority section.
pub open spec fn ns_names(m: PacketView) -> Set<Seq<char>> {
    Set::new(
        |s: Seq<char>|
            exists|i: int|
                0 <= i < m.authorities.len() && is_ns_entry(#[trigger] m.authorities[i])
                    && presentation(m.authorities[i].rdata->Ns_0) == s,
    )
}

/// `n` is the name carried by one of the NS records of the authority section.
pub open spec fn is_ns_target(m: PacketView, n: Seq<Seq<char>>) -> bool {
    exists|i: int|
        0 <= i < m.authorities.len() && is_ns_entry(#[trigger] m.authorities[i])
            && m.authorities[i].rdata->Ns_0 == n
}

/// The authority section holds an NS record.
pub open spec fn has_ns_entry(m: PacketView) -> bool {
    exists|i: int| 0 <= i < m.authorities.len() && is_ns_entry(#[trigger] m.authorities[i])
}

/// An A record of the additional section whose owner is one of the NS names.
pub open spec fn is_glue(m: PacketView, r: RecordView) -> bool {
    r.rdata is A && ns_names(m).contains(presentation(r.name))
}

/// Some glue record of `m` carries the address `ip`.
pub open spec fn glue_has(m: PacketView, ip: Seq<u8>) -> bool {
    exists|i: int|
        0 <= i < m.additionals.len() && is_glue(m, #[trigger] m.additionals[i])
            && m.additionals[i].rdata == RdataView::A(ip)
}

/// The sub-query for the IPv4 address of the name with labels `n`.
pub open spec fn query_for_name(id: u16, n: Seq<Seq<char>>) -> PacketView {
    PacketView {
        header: fresh_header(id, true),
        questions: seq![QuestionView { qname: n, qtype: 1, qclass: 1 }],
        answers: Seq::empty(),
        authorities: Seq::empty(),
        additionals: Seq::empty(),
    }
}

/// `m` with its response code set to Refused.
pub open spec fn refused(m: PacketView) -> PacketView {
    PacketView { header: DNSHeader { rcode: 5, ..m.header }, ..m }
}

/// The reply built from a cache hit: the client's id, marked as a response, its first
/// question, and the record.
pub open spec fn cached_reply(m: PacketView, rec: RecordView) -> PacketView {
    PacketView {
        header: fresh_header(m.header.id, false),
        questions: seq![m.questions[0]],
        answers: seq![rec],
        authorities: Seq::empty(),
        additionals: Seq::empty(),
    }
}

/// The cache after every record of `rs` is stored at time `now`, in order.
pub open spec fn insert_all(c: Map<CacheKey, CacheValue>, rs: Seq<RecordView>, now: u64) -> Map<CacheKey, CacheValue>
    decreases rs.len(),
{
    if rs.len() == 0 {
        c
    } else {
        after_insert(insert_all(c, rs.drop_last(), now), rs.last(), now)
    }
}

/// The cache key of a question.
pub open spec fn question_key(q: QuestionView) -> CacheKey {
    (q.qtype, presentation(q.qname))
}

/// One step of the engine on a decoded message `m` from `from` at time `now`: the state
/// before, the state after, and the datagram sent, if any.
#[verifier::opaque]
pub open spec fn step(s: RdnsView, m: PacketView, from: PeerAddr, now: u64, after: RdnsView, out: Option<OutView>) -> bool {
    let id = m.header.id;
    if s.pending.contains_key(id) {
        let e = s.pending[id];
        if from == e.src {
            // the client re-sent while its resolution is in flight
            after == s && out == Some(OutView { to: from, packet: refused(m) })
        } else if m.answers.len() > 0 {
            if e.stack.len() > 1 {
                match m.answers[0].rdata {
                    RdataView::A(ip) => {
                        &&& after == RdnsView {
                            pending: s.pending.insert(id, PendingView { src: e.src, stack: e.stack.drop_last() }),
                            cache: s.cache,
                        }
                        &&& out matches Some(o) && o.packet == e.stack.drop_last().last()
                            && is_upstream(o.to, ip)
                    },
                    _ => after == RdnsView { pending: s.pending.remove(id), cache: s.cache } && out is None,
                }
            } else {
                &&& after == RdnsView {
                    pending: s.pending.remove(id),
                    cache: insert_all(s.cache, m.answers, now),
                }
                &&& out == Some(OutView { to: e.src, packet: m })
            }
        } else if exists|i: int| 0 <= i < m.additionals.len() && is_glue(m, #[trigger] m.additionals[i]) {
            &&& after == s
            &&& out matches Some(o) && o.packet == e.stack.last() && exists|ip: Seq<u8>|
                #[trigger] is_upstream(o.to, ip) && glue_has(m, ip)
        } else if has_ns_entry(m) {
            exists|n: Seq<Seq<char>>|
                #![trigger is_ns_target(m, n)]
                {
                    &&& is_ns_target(m, n)
                    &&& after == RdnsView {
                        pending: s.pending.insert(
                            id,
                            PendingView { src: e.src, stack: e.stack.push(query_for_name(id, n)) },
                        ),
                        cache: s.cache,
                    }
                    &&& out matches Some(o) && o.packet == query_for_name(id, n) && is_root(o.to)
                }
        } else {
            &&& after == RdnsView { pending: s.pending.remove(id), cache: s.cache }
            &&& out == Some(OutView { to: e.src, packet: m })
        }
    } else if m.header.qr != 0 || m.answers.len() > 0 || m.questions.len() == 0 {
        after == s && out is None
    } else {
        let k = question_key(m.questions[0]);
        match lookup_result(s.cache, k, now) {
            Some(rec) => after == s && out == Some(OutView { to: from, packet: cached_reply(m, rec) }),
            None => {
                &&& after == RdnsView {
                    pending: s.pending.insert(id, PendingView { src: from, stack: seq![m] }),
                    cache: after_lookup(s.cache, k, now),
                }
                &&& out matches Some(o) && o.packet == m && is_root(o.to)
            },
        }
    }
}

/// Port 53 of a root server drawn at random.
fn get_a_root_addr() -> (r: PeerAddr)
    ensures
        is_root(r),
{
    let i = random_below(13);
    let ip: [u8; 4] = match i {
        0 => [198, 41, 0, 4],
        1 => [199, 9, 14, 201],
        2 => [192, 33, 4, 12],
        3 => [199, 7, 91, 13],
        4 => [192, 203, 230, 10],
        5 => [192, 5, 5, 241],
        6 => [192, 112, 36, 4],
        7 => [198, 97, 190, 53],
        8 => [192, 36, 148, 17],
        9 => [192, 58, 128, 30],
        10 => [193, 0, 14, 129],
        11 => [199, 7, 83, 42],
        _ => [202, 12, 27, 33],
    };
    assert(ip@ =~= root_servers()[i as int]);
    let r = PeerAddr { ip: IpAddress::V4(ipv4_from_octets(ip)), port: 53 };
    assert(is_upstream(r, root_servers()[i as int]));
    r
}

/// Whether `s` is among `names`.
fn contains_name(names: &Vec<String>, s: &String) -> (r: bool)
    ensures
        r == exists|j: int| 0 <= j < names@.len() && (#[trigger] names@[j])@ == s@,
{
    let mut j: usize = 0;
    while j < names.len()
        invariant
            0 <= j <= names@.len(),
            forall|k: int| 0 <= k < j ==> (#[trigger] names@[k])@ != s@,
        decreases names@.len() - j,
    {
        if names[j] == *s {
            return true;
        }
        j += 1;
    }
    false
}

/// What the NS-address analysis found: an address, or the NS names without glue.
pub open spec fn ns_addr_ok(m: PacketView, r: Either<[u8; 4], Vec<DomainName>>) -> bool {
    match r {
        Either::Left(ip) => glue_has(m, ip@),
        Either::Right(names) => {
            &&& forall|i: int| 0 <= i < m.additionals.len() ==> !is_glue(m, #[trigger] m.additionals[i])
            &&& forall|j: int| 0 <= j < names@.len() ==> is_ns_target(m, labels_view((#[trigger] names@[j])@))
            &&& names@.len() > 0 <==> has_ns_entry(m)
        },
    }
}

/// Every pending resolution has at least one outstanding query.
pub open spec fn pending_wf(v: RdnsView) -> bool {
    forall|id: u16| #[trigger] v.pending.contains_key(id) ==> v.pending[id].stack.len() >= 1
}

/// Every query held by a pending resolution can be written to the wire.
pub open spec fn pending_ok(v: RdnsView) -> bool {
    forall|id: u16, i: int|
        v.pending.contains_key(id) && 0 <= i < v.pending[id].stack.len() ==> packet_ok(
            #[trigger] v.pending[id].stack[i],
        )
}

/// Every cached record can be written to the wire.
pub open spec fn cache_ok(c: Map<CacheKey, CacheValue>) -> bool {
    forall|k: CacheKey| #[trigger] c.contains_key(k) ==> record_ok(c[k].1)
}

/// What the engine keeps true of its state between datagrams.
pub open spec fn engine_inv(v: RdnsView) -> bool {
    pending_wf(v) && pending_ok(v) && cache_ok(v.cache)
}

/// The datagram to send, if any, can be written to the wire.
pub open spec fn out_ok(r: Option<Outgoing>) -> bool {
    r matches Some(o) ==> packet_ok(o.packet@)
}

proof fn lemma_inv_insert(v: RdnsView, id: u16, e: PendingView)
    requires
        engine_inv(v),
        e.stack.len() >= 1,
        forall|i: int| 0 <= i < e.stack.len() ==> packet_ok(#[trigger] e.stack[i]),
    ensures
        engine_inv(RdnsView { pending: v.pending.insert(id, e), cache: v.cache }),
{
    let w = RdnsView { pending: v.pending.insert(id, e), cache: v.cache };
    assert forall|j: u16, i: int|
        w.pending.contains_key(j) && 0 <= i < w.pending[j].stack.len() implies packet_ok(
        #[trigger] w.pending[j].stack[i],
    ) by {
        if j != id {
            assert(v.pending[j] == w.pending[j]);
        }
    }
}

proof fn lemma_inv_remove(v: RdnsView, id: u16)
    requires
        engine_inv(v),
    ensures
        engine_inv(RdnsView { pending: v.pending.remove(id), cache: v.cache }),
{
    let w = RdnsView { pending: v.pending.remove(id), cache: v.cache };
    assert forall|j: u16, i: int|
        w.pending.contains_key(j) && 0 <= i < w.pending[j].stack.len() implies packet_ok(
        #[trigger] w.pending[j].stack[i],
    ) by {
        assert(v.pending[j] == w.pending[j]);
    }
}

proof fn lemma_cache_ok_insert(c: Map<CacheKey, CacheValue>, r: RecordView, now: u64)
    requires
        cache_ok(c),
        record_ok(r),
    ensures
        cache_ok(after_insert(c, r, now)),
{
}

proof fn lemma_cache_ok_lookup(c: Map<CacheKey, CacheValue>, k: CacheKey, now: u64)
    requires
        cache_ok(c),
    ensures
        cache_ok(after_lookup(c, k, now)),
        lookup_result(c, k, now) matches Some(r) ==> record_ok(r),
{
}

/// The resolver engine: in-flight resolutions keyed by transaction id, and the answer cache.
pub struct Rdns {
    id_map: HashMap<u16, RdnsData>,
    cache: DnsCache,
}

impl View for Rdns {
    type V = RdnsView;

    closed spec fn view(&self) -> RdnsView {
        RdnsView { pending: self.id_map@.map_values(|d: RdnsData| d@), cache: self.cache@ }
    }
}

impl Rdns {
    pub closed spec fn wf(&self) -> bool {
        self.cache.wf() && engine_inv(self@)
    }

    /// An engine with nothing pending and an empty cache.
    pub fn new() -> (r: Self)
        ensures
            r.wf(),
            r@.pending == Map::<u16, PendingView>::empty(),
            r@.cache == Map::<CacheKey, CacheValue>::empty(),
    {
        let r = Rdns { id_map: HashMap::new(), cache: DnsCache::new() };
        assert(r@.pending =~= Map::<u16, PendingView>::empty());
        r
    }

    /// Looks at the authority and additional sections: the address of a glue A record for
    /// one of the NS names, drawn at random, or else the NS names, one per presentation form.
    /// The names seen are kept in a `Vec` searched in order, where a `HashSet<String>` would
    /// do: vstd proves nothing of a `HashSet` keyed by `String`.
    fn check_for_ns_addr(pkt: &DNSPacket) -> (r: Either<[u8; 4], Vec<DomainName>>)
        ensures
            ns_addr_ok(pkt@, r),
    {
        let ghost m = pkt@;
        let mut names: Vec<String> = Vec::new();
        let mut targets: Vec<DomainName> = Vec::new();
        let mut i: usize = 0;
        while i < pkt.authorities.len()
            invariant
                m == pkt@,
                0 <= i <= m.authorities.len(),
                targets@.len() == names@.len(),
                forall|j: int| 0 <= j < targets@.len() ==> is_ns_target(m, labels_view((#[trigger] targets@[j])@)),
                names@.map_values(|s: String| s@).no_duplicates(),
                forall|j: int| 0 <= j < names@.len() ==> ns_names(m).contains(#[trigger] names@[j]@),
                forall|k: int|
                    0 <= k < i && is_ns_entry(#[trigger] m.authorities[k]) ==> exists|j: int|
                        0 <= j < names@.len() && (#[trigger] names@[j])@ == presentation(
                            m.authorities[k].rdata->Ns_0,
                        ),
            decreases m.authorities.len() - i,
        {
            let x = &pkt.authorities[i];
            assert(m.authorities[i as int] == x@);
            if x.rtype == DNSType::NS.to_num() {
                if let DNSRdata::Ns(dn) = &x.rdata {
                    let n = dn.to_domain_name();
                    if !contains_name(&names, &n) {
                        let ghost prev = names@;
                        let ghost prev_t = targets@;
                        names.push(n);
                        targets.push(copy_name(dn));
                        proof {
                            assert(m.authorities[i as int].rdata->Ns_0 == labels_view(dn@));
                            assert forall|j: int| 0 <= j < targets@.len() implies is_ns_target(
                                m,
                                labels_view((#[trigger] targets@[j])@),
                            ) by {
                                if j < prev_t.len() {
                                    assert(targets@[j] == prev_t[j]);
                                } else {
                                    assert(is_ns_entry(m.authorities[i as int]));
                                }
                            }
                            assert(names@.map_values(|s: String| s@) =~= prev.map_values(
                                |s: String| s@,
                            ).push(n@));
                            assert(names@[prev.len() as int] == n);
                            assert forall|j: int| 0 <= j < names@.len() implies ns_names(m).contains(
                                #[trigger] names@[j]@,
                            ) by {
                                if j < prev.len() {
                                    assert(names@[j] == prev[j]);
                                } else {
                                    assert(is_ns_entry(m.authorities[i as int]));
                                }
                            }
                            assert forall|k: int|
                                0 <= k < i + 1 && is_ns_entry(#[trigger] m.authorities[k]) implies exists|j: int|
                                0 <= j < names@.len() && (#[trigger] names@[j])@ == presentation(
                                    m.authorities[k].rdata->Ns_0,
                                ) by {
                                if k < i {
                                    let j = choose|j: int|
                                        0 <= j < prev.len() && (#[trigger] prev[j])@ == presentation(
                                            m.authorities[k].rdata->Ns_0,
                                        );
                                    assert(names@[j] == prev[j]);
                                } else {
                                    assert(names@[prev.len() as int]@ == presentation(
                                        m.authorities[k].rdata->Ns_0,
                                    ));
                                }
                            }
                        }
                    }
                }
            }
            i += 1;
        }
        let ghost nv = names@.map_values(|s: String| s@);
        proof {
            assert forall|s: Seq<char>| nv.to_set().contains(s) <==> ns_names(m).contains(s) by {
                if nv.to_set().contains(s) {
                    let j = choose|j: int| 0 <= j < nv.len() && nv[j] == s;
                    assert(names@[j]@ == s);
                }
                if ns_names(m).contains(s) {
                    let k = choose|k: int|
                        0 <= k < m.authorities.len() && is_ns_entry(#[trigger] m.authorities[k])
                            && presentation(m.authorities[k].rdata->Ns_0) == s;
                    let j = choose|j: int|
                        0 <= j < names@.len() && (#[trigger] names@[j])@ == presentation(
                            m.authorities[k].rdata->Ns_0,
                        );
                    assert(nv[j] == s);
                }
            }
            assert(nv.to_set() =~= ns_names(m));
        }
        let mut v: Vec<[u8; 4]> = Vec::new();
        let mut i: usize = 0;
        while i < pkt.additionals.len()
            invariant
                m == pkt@,
                0 <= i <= m.additionals.len(),
                nv.to_set() == ns_names(m),
                nv == names@.map_values(|s: String| s@),
                forall|j: int| 0 <= j < v@.len() ==> glue_has(m, (#[trigger] v@[j])@),
                forall|k: int| 0 <= k < i && is_glue(m, #[trigger] m.additionals[k]) ==> v@.len() > 0,
                targets@.len() == names@.len(),
                forall|j: int| 0 <= j < targets@.len() ==> is_ns_target(m, labels_view((#[trigger] targets@[j])@)),
            decreases m.additionals.len() - i,
        {
            let x = &pkt.additionals[i];
            assert(m.additionals[i as int] == x@);
            if let DNSRdata::A(ip) = &x.rdata {
                let n = x.name.to_domain_name();
                if contains_name(&names, &n) {
                    let ghost prev = v@;
                    v.push(*ip);
                    proof {
                        let j = choose|j: int| 0 <= j < names@.len() && (#[trigger] names@[j])@ == n@;
                        assert(nv[j] == n@);
                        assert(nv.to_set().contains(n@));
                        assert(is_glue(m, m.additionals[i as int]));
                        assert forall|j: int| 0 <= j < v@.len() implies glue_has(m, (#[trigger] v@[j])@) by {
                            if j < prev.len() {
                                assert(v@[j] == prev[j]);
                            } else {
                                assert(m.additionals[i as int].rdata == RdataView::A(v@[j]@));
                            }
                        }
                    }
                } else {
                    proof {
                        if nv.to_set().contains(n@) {
                            let j = choose|j: int| 0 <= j < nv.len() && nv[j] == n@;
                            assert(names@[j]@ == n@);
                        }
                    }
                }
            }
            i += 1;
        }
        if v.len() == 0 {
            proof {
                if has_ns_entry(m) {
                    let k = choose|k: int| 0 <= k < m.authorities.len() && is_ns_entry(#[trigger] m.authorities[k]);
                    assert(ns_names(m).contains(presentation(m.authorities[k].rdata->Ns_0)));
                    assert(nv.to_set().contains(presentation(m.authorities[k].rdata->Ns_0)));
                }
                if targets@.len() > 0 {
                    assert(is_ns_target(m, labels_view(targets@[0]@)));
                }
            }
            Either::Right(targets)
        } else {
            let k = random_below(v.len());
            Either::Left(v[k])
        }
    }

    /// Advances the resolution `entry`, just taken out of the table, on a datagram that
    /// carries its transaction id.
    fn advance(&mut self, received: DNSPacket, entry: RdnsData, from: PeerAddr, now: u64) -> (r: Option<Outgoing>)
        requires
            old(self).wf(),
            !old(self)@.pending.contains_key(received.header.id),
            entry@.stack.len() >= 1,
            forall|i: int| 0 <= i < entry@.stack.len() ==> packet_ok(#[trigger] entry@.stack[i]),
            packet_ok(received@),
        ensures
            final(self).wf(),
            out_ok(r),
            step(
                RdnsView {
                    pending: old(self)@.pending.insert(received.header.id, entry@),
                    cache: old(self)@.cache,
                },
                received@,
                from,
                now,
                final(self)@,
                out_view(r),
            ),
    {
        reveal(step);
        let ghost m = received@;
        let id = received.id();
        let ghost s = RdnsView { pending: self@.pending.insert(id, entry@), cache: self@.cache };
        assert(self.id_map@ == old(self).id_map@);
        assert(s.pending.remove(id) =~= old(self)@.pending);
        assert(s.pending.contains_key(id) && s.pending[id] == entry@);
        if entry.src_addr == from {
            let mut pkt = received;
            pkt.header.set_rcode(DNSRcode::Refused);
            self.id_map.insert(id, entry);
            proof {
                assert(self@.pending =~= s.pending);
                assert(pkt@ =~= refused(m));
            }
            return Some(Outgoing { to: from, packet: pkt });
        }
        if received.answers.len() != 0 {
            if entry.packet_stack.len() > 1 {
                match &received.answers[0].rdata {
                    DNSRdata::A(ip) => {
                        let ip = *ip;
                        assert(m.answers[0].rdata == RdataView::A(ip@));
                        let mut e = entry;
                        e.packet_stack.pop();
                        let top = e.packet_stack[e.packet_stack.len() - 1].clone();
                        let ghost ev = e@;
                        self.id_map.insert(id, e);
                        proof {
                            assert(ev.stack =~= s.pending[id].stack.drop_last());
                            assert(top@ == ev.stack[ev.stack.len() - 1]);
                            assert(packet_ok(s.pending[id].stack[ev.stack.len() - 1]));
                            assert(self@.pending =~= s.pending.insert(
                                id,
                                PendingView { src: s.pending[id].src, stack: s.pending[id].stack.drop_last() },
                            ));
                        }
                        let to = PeerAddr { ip: IpAddress::V4(ipv4_from_octets(ip)), port: 53 };
                        return Some(Outgoing { to, packet: top });
                    },
                    _ => {
                        proof {
                            assert(self@.pending =~= s.pending.remove(id));
                            assert(!(m.answers[0].rdata is A));
                        }
                        return None;
                    },
                }
            }
            let mut i: usize = 0;
            while i < received.answers.len()
                invariant
                    0 <= i <= m.answers.len(),
                    m == received@,
                    self.cache.wf(),
                    self.cache@ == insert_all(s.cache, m.answers.subrange(0, i as int), now),
                    cache_ok(self.cache@),
                    packet_ok(m),
                    self.id_map@ == old(self).id_map@,
                decreases m.answers.len() - i,
            {
                let rec = received.answers[i].clone();
                assert(rec@ == m.answers[i as int]);
                assert(record_ok(m.answers[i as int]));
                proof {
                    lemma_cache_ok_insert(self.cache@, rec@, now);
                }
                self.cache.insert(rec, now);
                i += 1;
                proof {
                    assert(m.answers.subrange(0, i as int).drop_last() =~= m.answers.subrange(0, i - 1));
                }
            }
            proof {
                assert(m.answers.subrange(0, i as int) =~= m.answers);
                assert(self@.pending =~= s.pending.remove(id));
                assert(self@.pending =~= old(self)@.pending);
            }
            return Some(Outgoing { to: entry.src_addr, packet: received });
        }
        match Self::check_for_ns_addr(&received) {
            Either::Left(ip) => {
                let top = entry.packet_stack[entry.packet_stack.len() - 1].clone();
                assert(packet_ok(entry@.stack[entry@.stack.len() - 1]));
                self.id_map.insert(id, entry);
                let to = PeerAddr { ip: IpAddress::V4(ipv4_from_octets(ip)), port: 53 };
                proof {
                    assert(self@.pending =~= s.pending);
                    assert(is_upstream(to, ip@));
                    let k = choose|k: int|
                        0 <= k < m.additionals.len() && is_glue(m, #[trigger] m.additionals[k])
                            && m.additionals[k].rdata == RdataView::A(ip@);
                    assert(is_glue(m, m.additionals[k]));
                }
                Some(Outgoing { to, packet: top })
            },
            Either::Right(names) => {
                if names.len() == 0 {
                    proof {
                        assert(self@.pending =~= s.pending.remove(id));
                    }
                    return Some(Outgoing { to: entry.src_addr, packet: received });
                }
                let k = random_below(names.len());
                let ghost n = labels_view(names@[k as int]@);
                assert(is_ns_target(m, n));
                proof {
                    let j = choose|j: int|
                        0 <= j < m.authorities.len() && is_ns_entry(#[trigger] m.authorities[j])
                            && m.authorities[j].rdata->Ns_0 == n;
                    assert(record_ok(m.authorities[j]));
                }
                let mut pkt = DNSPacket::new(id, true);
                let q = DNSQuestion::new(copy_name(&names[k]), DNSType::A.to_num());
                let ghost qv = q@;
                pkt.questions.push(q);
                proof {
                    assert(pkt.questions@[0]@ == qv);
                    assert(pkt@.questions =~= seq![qv]);
                    assert(pkt@.answers =~= Seq::<RecordView>::empty());
                    assert(pkt@.authorities =~= Seq::<RecordView>::empty());
                    assert(pkt@.additionals =~= Seq::<RecordView>::empty());
                    assert(pkt@ =~= query_for_name(id, n));
                }
                let to = get_a_root_addr();
                let mut e = entry;
                let ghost before = e@;
                e.packet_stack.push(pkt.clone());
                let ghost ev = e@;
                self.id_map.insert(id, e);
                proof {
                    assert(ev.stack =~= before.stack.push(query_for_name(id, n)));
                    assert(self@.pending =~= s.pending.insert(
                        id,
                        PendingView { src: before.src, stack: before.stack.push(query_for_name(id, n)) },
                    ));
                }
                Some(Outgoing { to, packet: pkt })
            },
        }
    }

    /// Handles a datagram whose transaction id has no resolution in flight.
    fn start_query(&mut self, received: DNSPacket, from: PeerAddr, now: u64) -> (r: Option<Outgoing>)
        requires
            old(self).wf(),
            !old(self)@.pending.contains_key(received.header.id),
            packet_ok(received@),
        ensures
            final(self).wf(),
            out_ok(r),
            step(old(self)@, received@, from, now, final(self)@, out_view(r)),
    {
        reveal(step);
        let ghost m = received@;
        let ghost s = self@;
        let id = received.id();
        if !received.header.is_query() || received.answers.len() != 0
            || received.questions.len() == 0 {
            return None;
        }
        let q = &received.questions[0];
        assert(q@ == m.questions[0]);
        let name = q.qname.to_domain_name();
        match self.cache.lookup(q.qtype, &name, now) {
            Some(rec) => {
                let mut questions: Vec<DNSQuestion> = Vec::new();
                questions.push(q.clone());
                let ghost rv = rec@;
                let mut answers = Vec::new();
                answers.push(rec);
                proof {
                    assert(questions@[0]@ == m.questions[0]);
                    assert(answers@[0]@ == rv);
                    assert(questions_view(questions@) =~= seq![m.questions[0]]);
                    assert(records_view(answers@) =~= seq![rv]);
                }
                let reply = DNSPacket {
                    header: DNSHeader::new(id, false),
                    questions,
                    answers,
                    authorities: Vec::new(),
                    additionals: Vec::new(),
                };
                proof {
                    assert(reply@.authorities =~= Seq::<RecordView>::empty());
                    assert(reply@.additionals =~= Seq::<RecordView>::empty());
                    assert(reply@ =~= cached_reply(m, rv));
                    assert(self@ =~= s);
                }
                Some(Outgoing { to: from, packet: reply })
            },
            None => {
                let to = get_a_root_addr();
                let pkt = received.clone();
                let mut stack: Vec<DNSPacket> = Vec::new();
                stack.push(received);
                let d = RdnsData { src_addr: from, packet_stack: stack };
                assert(d@.stack =~= seq![m]);
                self.id_map.insert(id, d);
                proof {
                    assert(self@.pending =~= s.pending.insert(id, PendingView { src: from, stack: seq![m] }));
                }
                Some(Outgoing { to, packet: pkt })
            },
        }
    }

    /// Takes the resolution for `id` out of the table.
    fn take_entry(&mut self, id: u16) -> (r: Option<RdnsData>)
        requires
            old(self).wf(),
        ensures
            final(self).wf(),
            match r {
                Some(e) => {
                    &&& old(self)@.pending.contains_key(id)
                    &&& old(self)@.pending[id] == e@
                    &&& e@.stack.len() >= 1
                    &&& forall|i: int| 0 <= i < e@.stack.len() ==> packet_ok(#[trigger] e@.stack[i])
                    &&& final(self)@ == (RdnsView { pending: old(self)@.pending.remove(id), cache: old(self)@.cache })
                },
                None => !old(self)@.pending.contains_key(id) && final(self)@ == old(self)@,
            },
    {
        let ghost s = self@;
        let removed = self.id_map.remove(&id);
        match removed {
            Some(entry) => {
                proof {
                    assert(old(self).id_map@.contains_key(id));
                    assert(s.pending[id] == entry@);
                    assert(self@.pending =~= s.pending.remove(id));
                    assert(s.pending.contains_key(id));
                    assert(entry@.stack.len() >= 1);
                    assert(self@ == (RdnsView { pending: s.pending.remove(id), cache: s.cache }));
                    assert(pending_wf(self@));
                    lemma_inv_remove(s, id);
                    assert(forall|i: int| 0 <= i < entry@.stack.len() ==> packet_ok(#[trigger] s.pending[id].stack[i]));
                }
                Some(entry)
            },
            None => {
                proof {
                    assert(self.id_map@ =~= old(self).id_map@);
                    assert(self@ =~= s);
                }
                None
            },
        }
    }

    /// Handles one datagram from `from` at time `now` (milliseconds): decodes it and advances
    /// the matching resolution, or starts a new one; returns the datagram to send, if any.
    /// A datagram that does not decode is dropped and changes nothing.
    pub fn handle(&mut self, buf: &[u8], from: PeerAddr, now: u64) -> (r: Option<Outgoing>)
        requires
            old(self).wf(),
        ensures
            final(self).wf(),
            pending_wf(final(self)@),
            engine_inv(final(self)@),
            out_ok(r),
            match parse_packet(buf@) {
                None => final(self)@ == old(self)@ && r is None,
                Some(m) => step(old(self)@, m, from, now, final(self)@, out_view(r)),
            },
    {
        let received = match DNSPacket::from_raw(buf) {
            Ok(p) => p,
            Err(_) => return None,
        };
        proof {
            lemma_round_trip(buf@);
        }
        let id = received.id();
        let ghost s = self@;
        match self.take_entry(id) {
            Some(entry) => {
                proof {
                    assert(s.pending =~= self@.pending.insert(id, entry@));
                }
                self.advance(received, entry, from, now)
            },
            None => self.start_query(received, from, now),
        }
    }

    /// Handles one datagram from `from`, at the current time of the clock.
    pub fn receive(&mut self, buf: &[u8], from: PeerAddr) -> (r: Option<Outgoing>)
        requires
            old(self).wf(),
        ensures
            final(self).wf(),
            pending_wf(final(self)@),
            engine_inv(final(self)@),
            out_ok(r),
            match parse_packet(buf@) {
                None => final(self)@ == old(self)@ && r is None,
                Some(m) => exists|now: u64| #[trigger] step(old(self)@, m, from, now, final(self)@, out_view(r)),
            },
    {
        let now = now_millis();
        self.handle(buf, from, now)
    }
}

/// While a resolution is pending its stack of queries is never empty: every step from a
/// state where each stack holds a query leads to such a state.
pub proof fn lemma_stacks_stay_nonempty(
    s: RdnsView,
    m: PacketView,
    from: PeerAddr,
    now: u64,
    after: RdnsView,
    out: Option<OutView>,
)
    requires
        pending_wf(s),
        step(s, m, from, now, after, out),
    ensures
        pending_wf(after),
{
    reveal(step);
    let id = m.header.id;
    if s.pending.contains_key(id) && from != s.pending[id].src && m.answers.len() == 0
        && !(exists|i: int| 0 <= i < m.additionals.len() && is_glue(m, #[trigger] m.additionals[i]))
        && has_ns_entry(m) {
        let n = choose|n: Seq<Seq<char>>|
            #![trigger is_ns_target(m, n)]
            {
                &&& is_ns_target(m, n)
                &&& after == RdnsView {
                    pending: s.pending.insert(
                        id,
                        PendingView { src: s.pending[id].src, stack: s.pending[id].stack.push(query_for_name(id, n)) },
                    ),
                    cache: s.cache,
                }
                &&& out matches Some(o) && o.packet == query_for_name(id, n) && is_root(o.to)
            };
        assert(after.pending[id].stack.len() >= 1);
    }
}

/// An A-record answer to a sub-query pops exactly one query off the resolution's stack, and
/// the query below it is sent to that address.
pub proof fn lemma_sub_answer_pops(
    s: RdnsView,
    m: PacketView,
    from: PeerAddr,
    now: u64,
    after: RdnsView,
    out: Option<OutView>,
)
    requires
        step(s, m, from, now, after, out),
        s.pending.contains_key(m.header.id),
        from != s.pending[m.header.id].src,
        m.answers.len() > 0,
        s.pending[m.header.id].stack.len() > 1,
        m.answers[0].rdata is A,
    ensures
        after.pending.contains_key(m.header.id),
        after.pending[m.header.id].stack.len() == s.pending[m.header.id].stack.len() - 1,
        after.pending[m.header.id].stack == s.pending[m.header.id].stack.drop_last(),
        out matches Some(o) && o.packet == after.pending[m.header.id].stack.last()
            && is_upstream(o.to, m.answers[0].rdata->A_0),
{
    reveal(step);
}

/// A client query answered from the cache gets the stored record with its TTL rewritten to
/// the whole seconds left: a record stored at time `t0` (milliseconds) with TTL `ttl`, asked for
/// at `t` before `t0 + ttl` seconds, comes back with TTL `(t0 + ttl * 1000 - t) / 1000`, which is
/// at most `ttl` once `t0 <= t`; nothing else changes.
pub proof fn lemma_cache_hit_reply(
    s: RdnsView,
    c: Map<CacheKey, CacheValue>,
    rec: RecordView,
    t0: u64,
    m: PacketView,
    from: PeerAddr,
    t: u64,
    after: RdnsView,
    out: Option<OutView>,
)
    requires
        step(s, m, from, t, after, out),
        s.cache == after_insert(c, rec, t0),
        !s.pending.contains_key(m.header.id),
        m.header.qr == 0,
        m.answers.len() == 0,
        m.questions.len() > 0,
        question_key(m.questions[0]) == cache_key(rec),
        t0 + rec.ttl * 1000 <= u64::MAX,
        t < t0 + rec.ttl * 1000,
    ensures
        after == s,
        out == Some(
            OutView {
                to: from,
                packet: cached_reply(m, RecordView { ttl: ((t0 + rec.ttl * 1000 - t) / 1000) as u32, ..rec }),
            },
        ),
        t0 <= t ==> (t0 + rec.ttl * 1000 - t) / 1000 <= rec.ttl,
{
    reveal(step);
    lemma_ttl_counts_down(c, rec, t0, t);
}

/// The final answer of a resolution goes to the client that asked, the resolution ends, and
/// the answer records are stored at the time of arrival; a single record is then cached to
/// expire `ttl` seconds later.
pub proof fn lemma_final_answer(
    s: RdnsView,
    m: PacketView,
    from: PeerAddr,
    now: u64,
    after: RdnsView,
    out: Option<OutView>,
)
    requires
        step(s, m, from, now, after, out),
        s.pending.contains_key(m.header.id),
        from != s.pending[m.header.id].src,
        m.answers.len() > 0,
        s.pending[m.header.id].stack.len() == 1,
    ensures
        out == Some(OutView { to: s.pending[m.header.id].src, packet: m }),
        !after.pending.contains_key(m.header.id),
        after.cache == insert_all(s.cache, m.answers, now),
        m.answers.len() == 1 ==> after.cache == after_insert(s.cache, m.answers[0], now),
{
    reveal(step);
    if m.answers.len() == 1 {
        assert(m.answers.drop_last() =~= Seq::<RecordView>::empty());
        assert(insert_all(s.cache, m.answers.drop_last(), now) == s.cache);
        assert(m.answers.last() == m.answers[0]);
        assert(insert_all(s.cache, m.answers, now) == after_insert(s.cache, m.answers[0], now));
    }
}

} // verus!

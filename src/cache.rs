use vstd::prelude::*;
use crate::domain_name::{presentation, ToReadableName};
use crate::records::{DNSResourceRecord, RecordView};

verus! {

/// A cache key: a type number and a name in presentation form.
pub type CacheKey = (u16, Seq<char>);

/// What the cache holds for a key: the expiration time in milliseconds, and the record.
pub type CacheValue = (u64, RecordView);

/// The key under which a record is cached.
pub open spec fn cache_key(r: RecordView) -> CacheKey {
    (r.rtype, presentation(r.name))
}

/// `now + ttl` seconds, in milliseconds, saturating at the largest time.
pub open spec fn expiry(now: u64, ttl: u32) -> u64 {
    if now + ttl * 1000 > u64::MAX {
        u64::MAX
    } else {
        (now + ttl * 1000) as u64
    }
}

/// The cache after a record is stored at time `now`.
pub open spec fn after_insert(m: Map<CacheKey, CacheValue>, r: RecordView, now: u64) -> Map<CacheKey, CacheValue> {
    m.insert(cache_key(r), (expiry(now, r.ttl), r))
}

/// Whether a lookup at `now` finds a live entry for `k`.
pub open spec fn is_live(m: Map<CacheKey, CacheValue>, k: CacheKey, now: u64) -> bool {
    m.contains_key(k) && now < m[k].0
}

/// What a lookup at `now` returns: the stored record with its TTL rewritten to the whole
/// seconds left, or nothing.
pub open spec fn lookup_result(m: Map<CacheKey, CacheValue>, k: CacheKey, now: u64) -> Option<RecordView> {
    if is_live(m, k, now) {
        Some(RecordView { ttl: ((m[k].0 - now) / 1000) as u32, ..m[k].1 })
    } else {
        None
    }
}

/// The cache after a lookup at `now`: an expired entry for `k` is gone.
pub open spec fn after_lookup(m: Map<CacheKey, CacheValue>, k: CacheKey, now: u64) -> Map<CacheKey, CacheValue> {
    if m.contains_key(k) && now >= m[k].0 {
        m.remove(k)
    } else {
        m
    }
}

/// One cached record, with its expiration time in milliseconds.
pub struct RdnsCacheEntry {
    pub expiration: u64,
    /// The presentation form of the record's name.
    pub name: String,
    pub record: DNSResourceRecord,
}

pub open spec fn entry_key(e: RdnsCacheEntry) -> CacheKey {
    (e.record.rtype, presentation(e.record@.name))
}

pub open spec fn entry_value(e: RdnsCacheEntry) -> CacheValue {
    (e.expiration, e.record@)
}

/// The entries as a map; a later entry wins over an earlier one with the same key.
pub open spec fn entries_map(es: Seq<RdnsCacheEntry>) -> Map<CacheKey, CacheValue>
    decreases es.len(),
{
    if es.len() == 0 {
        Map::empty()
    } else {
        entries_map(es.drop_last()).insert(entry_key(es.last()), entry_value(es.last()))
    }
}

/// No two entries share a key, and each stored name is its record's presentation form.
pub open spec fn entries_wf(es: Seq<RdnsCacheEntry>) -> bool {
    &&& forall|i: int| 0 <= i < es.len() ==> (#[trigger] es[i]).name@ == presentation(es[i].record@.name)
    &&& forall|i: int, j: int|
        0 <= i < es.len() && 0 <= j < es.len() && i != j ==> entry_key(#[trigger] es[i]) != entry_key(#[trigger] es[j])
}

proof fn lemma_entries_map_contains(es: Seq<RdnsCacheEntry>, k: CacheKey)
    ensures
        entries_map(es).contains_key(k) <==> exists|i: int| 0 <= i < es.len() && entry_key(#[trigger] es[i]) == k,
    decreases es.len(),
{
    if es.len() > 0 {
        lemma_entries_map_contains(es.drop_last(), k);
        if entries_map(es.drop_last()).contains_key(k) {
            let i = choose|i: int| 0 <= i < es.drop_last().len() && entry_key(#[trigger] es.drop_last()[i]) == k;
            assert(es[i] == es.drop_last()[i]);
        }
        if exists|i: int| 0 <= i < es.len() && entry_key(#[trigger] es[i]) == k {
            let i = choose|i: int| 0 <= i < es.len() && entry_key(#[trigger] es[i]) == k;
            if i < es.len() - 1 {
                assert(es.drop_last()[i] == es[i]);
            }
        }
    }
}

proof fn lemma_entries_map_value(es: Seq<RdnsCacheEntry>, i: int)
    requires
        entries_wf(es),
        0 <= i < es.len(),
    ensures
        entries_map(es).contains_key(entry_key(es[i])),
        entries_map(es)[entry_key(es[i])] == entry_value(es[i]),
    decreases es.len(),
{
    if i < es.len() - 1 {
        let d = es.drop_last();
        assert(d[i] == es[i]);
        assert(entries_wf(d)) by {
            assert forall|a: int, b: int|
                0 <= a < d.len() && 0 <= b < d.len() && a != b implies entry_key(#[trigger] d[a]) != entry_key(#[trigger] d[b]) by {
                assert(d[a] == es[a] && d[b] == es[b]);
            }
            assert forall|a: int| 0 <= a < d.len() implies (#[trigger] d[a]).name@ == presentation(d[a].record@.name) by {
                assert(d[a] == es[a]);
            }
        }
        lemma_entries_map_value(d, i);
        assert(entry_key(es[i]) != entry_key(es[es.len() - 1]));
    }
}

proof fn lemma_entries_map_remove(es: Seq<RdnsCacheEntry>, i: int)
    requires
        entries_wf(es),
        0 <= i < es.len(),
    ensures
        entries_map(es.remove(i)) == entries_map(es).remove(entry_key(es[i])),
        entries_wf(es.remove(i)),
{
    let r = es.remove(i);
    let k = entry_key(es[i]);
    assert forall|a: int| 0 <= a < r.len() implies (#[trigger] r[a]).name@ == presentation(r[a].record@.name) by {
        if a < i {
            assert(r[a] == es[a]);
        } else {
            assert(r[a] == es[a + 1]);
        }
    }
    assert forall|a: int, b: int|
        0 <= a < r.len() && 0 <= b < r.len() && a != b implies entry_key(#[trigger] r[a]) != entry_key(#[trigger] r[b]) by {
        let a2 = if a < i { a } else { a + 1 };
        let b2 = if b < i { b } else { b + 1 };
        assert(r[a] == es[a2] && r[b] == es[b2]);
    }
    assert forall|kk: CacheKey| #[trigger] entries_map(r).contains_key(kk) <==> entries_map(es).remove(k).contains_key(kk) by {
        lemma_entries_map_contains(r, kk);
        lemma_entries_map_contains(es, kk);
        if exists|a: int| 0 <= a < r.len() && entry_key(#[trigger] r[a]) == kk {
            let a = choose|a: int| 0 <= a < r.len() && entry_key(#[trigger] r[a]) == kk;
            let a2 = if a < i { a } else { a + 1 };
            assert(r[a] == es[a2]);
        }
        if kk != k && exists|a: int| 0 <= a < es.len() && entry_key(#[trigger] es[a]) == kk {
            let a = choose|a: int| 0 <= a < es.len() && entry_key(#[trigger] es[a]) == kk;
            if a < i {
                assert(r[a] == es[a]);
            } else {
                assert(a != i);
                assert(r[a - 1] == es[a]);
            }
        }
    }
    assert forall|kk: CacheKey| #[trigger] entries_map(r).contains_key(kk) implies entries_map(r)[kk] == entries_map(es).remove(k)[kk] by {
        lemma_entries_map_contains(r, kk);
        let a = choose|a: int| 0 <= a < r.len() && entry_key(#[trigger] r[a]) == kk;
        let a2 = if a < i { a } else { a + 1 };
        assert(r[a] == es[a2]);
        lemma_entries_map_value(r, a);
        lemma_entries_map_value(es, a2);
    }
    assert(entries_map(r) =~= entries_map(es).remove(k));
}

/// The answer cache: records keyed by type and presentation name, each with an expiration time.
/// The entries are a `Vec` with unique keys, searched in order, where a `HashMap<(u16, String), _>`
/// would do: vstd proves nothing of the lookups of a `HashMap` keyed by a `String`, so the map
/// that the contracts speak of is this `Vec`'s view instead.
pub struct DnsCache {
    entries: Vec<RdnsCacheEntry>,
}

impl View for DnsCache {
    type V = Map<CacheKey, CacheValue>;

    closed spec fn view(&self) -> Map<CacheKey, CacheValue> {
        entries_map(self.entries@)
    }
}

impl DnsCache {
    pub closed spec fn wf(&self) -> bool {
        entries_wf(self.entries@)
    }

    pub fn new() -> (r: Self)
        ensures
            r.wf(),
            r@ == Map::<CacheKey, CacheValue>::empty(),
    {
        DnsCache { entries: Vec::new() }
    }

    /// The index of the entry for a key, if any.
    fn find(&self, rtype: u16, name: &String) -> (r: Option<usize>)
        requires
            self.wf(),
        ensures
            match r {
                Some(i) => i < self.entries@.len() && entry_key(self.entries@[i as int]) == (rtype, name@),
                None => !self@.contains_key((rtype, name@)),
            },
    {
        let mut i: usize = 0;
        while i < self.entries.len()
            invariant
                0 <= i <= self.entries@.len(),
                self.wf(),
                forall|j: int| 0 <= j < i ==> entry_key(#[trigger] self.entries@[j]) != (rtype, name@),
            decreases self.entries@.len() - i,
        {
            let e = &self.entries[i];
            if e.record.rtype == rtype && e.name == *name {
                return Some(i);
            }
            i += 1;
        }
        proof {
            lemma_entries_map_contains(self.entries@, (rtype, name@));
        }
        None
    }

    /// Stores a record received at time `now` (milliseconds), replacing any entry with its key.
    pub fn insert(&mut self, record: DNSResourceRecord, now: u64)
        requires
            old(self).wf(),
        ensures
            final(self).wf(),
            final(self)@ == after_insert(old(self)@, record@, now),
    {
        let name = record.name.to_domain_name();
        match self.find(record.rtype, &name) {
            Some(i) => {
                proof {
                    lemma_entries_map_remove(self.entries@, i as int);
                }
                self.entries.remove(i);
            },
            None => {},
        }
        let ghost before = self.entries@;
        let ttl_ms: u64 = record.ttl as u64 * 1000;
        let expiration = now.saturating_add(ttl_ms);
        let e = RdnsCacheEntry { expiration, name, record };
        self.entries.push(e);
        proof {
            assert(self.entries@.drop_last() =~= before);
            assert forall|a: int, b: int|
                0 <= a < self.entries@.len() && 0 <= b < self.entries@.len() && a != b
                implies entry_key(#[trigger] self.entries@[a]) != entry_key(#[trigger] self.entries@[b]) by {
                if a < before.len() && b < before.len() {
                    assert(self.entries@[a] == before[a] && self.entries@[b] == before[b]);
                } else if a < before.len() {
                    assert(self.entries@[a] == before[a]);
                    lemma_entries_map_contains(before, entry_key(before[a]));
                } else {
                    assert(self.entries@[b] == before[b]);
                    lemma_entries_map_contains(before, entry_key(before[b]));
                }
            }
            assert forall|a: int| 0 <= a < self.entries@.len() implies (#[trigger] self.entries@[a]).name@
                == presentation(self.entries@[a].record@.name) by {
                if a < before.len() {
                    assert(self.entries@[a] == before[a]);
                }
            }
            assert(self@ =~= after_insert(old(self)@, record@, now));
        }
    }

    /// Looks up `(rtype, name)` at time `now` (milliseconds): a live entry comes back with its
    /// TTL rewritten to the seconds left; an expired one is removed and reported as a miss.
    pub fn lookup(&mut self, rtype: u16, name: &String, now: u64) -> (r: Option<DNSResourceRecord>)
        requires
            old(self).wf(),
        ensures
            final(self).wf(),
            final(self)@ == after_lookup(old(self)@, (rtype, name@), now),
            match r {
                Some(rec) => lookup_result(old(self)@, (rtype, name@), now) == Some(rec@),
                None => lookup_result(old(self)@, (rtype, name@), now) is None,
            },
    {
        match self.find(rtype, name) {
            None => None,
            Some(i) => {
                proof {
                    lemma_entries_map_value(self.entries@, i as int);
                }
                if now >= self.entries[i].expiration {
                    proof {
                        lemma_entries_map_remove(self.entries@, i as int);
                    }
                    self.entries.remove(i);
                    None
                } else {
                    let mut rec = self.entries[i].record.clone();
                    rec.ttl = ((self.entries[i].expiration - now) / 1000) as u32;
                    Some(rec)
                }
            },
        }
    }
}

/// A record stored at time `t0` (milliseconds) and looked up at `t` before it expires comes
/// back with its TTL rewritten to the whole seconds left, `(t0 + ttl * 1000 - t) / 1000`,
/// which never exceeds the TTL it was stored with once `t0 <= t`.
pub proof fn lemma_ttl_counts_down(m: Map<CacheKey, CacheValue>, rec: RecordView, t0: u64, t: u64)
    requires
        t0 + rec.ttl * 1000 <= u64::MAX,
        t < t0 + rec.ttl * 1000,
    ensures
        lookup_result(after_insert(m, rec, t0), cache_key(rec), t) == Some(
            RecordView { ttl: ((t0 + rec.ttl * 1000 - t) / 1000) as u32, ..rec },
        ),
        t0 <= t ==> (t0 + rec.ttl * 1000 - t) / 1000 <= rec.ttl,
{
}

/// A lookup at or after the expiration time `t0 + ttl` of a record stored at `t0` is a
/// miss, and the entry is gone afterwards.
pub proof fn lemma_no_stale_serve(m: Map<CacheKey, CacheValue>, rec: RecordView, t0: u64, t: u64)
    requires
        t >= expiry(t0, rec.ttl),
    ensures
        lookup_result(after_insert(m, rec, t0), cache_key(rec), t) is None,
        !after_lookup(after_insert(m, rec, t0), cache_key(rec), t).contains_key(cache_key(rec)),
{
}

} // verus!

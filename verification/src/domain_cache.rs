//! The response cache: full DNS responses keyed by the queried name, with
//! TTL clamping at insertion, lazy expiry on read, and eviction of the
//! earliest-expiring entry when full.

use vstd::prelude::*;
use vstd::string::*;
use hickory_proto::op::Message;
use crate::config::CacheConfig;
use crate::text::str_eq;

verus! {

/// One cached response. `message` is `None` for placeholder entries read
/// back from disk: they never answer a query and exist only to drive
/// cold-start and warm-up.
#[derive(Debug, Clone)]
pub struct CachedDnsRecord {
    /// Cache id, copied from the rule cache.
    pub cache_id: String,
    /// The matched domain that links this entry to the rule cache.
    pub matched_domain: String,
    /// The queried name; the cache key.
    pub domain: String,
    /// Upstream name, copied from the rule cache.
    pub upstream: String,
    /// The TTL the response carried.
    pub original_ttl: u64,
    /// Expiry instant, in seconds of a monotonic clock.
    pub expire_at: u64,
    /// Wall-clock insertion time, for export ordering.
    pub timestamp: u64,
    /// The cached response.
    pub message: Option<Message>,
}

impl CachedDnsRecord {
    /// Expired iff the clock has reached the expiry instant.
    pub open spec fn spec_is_expired(self, now: u64) -> bool {
        now >= self.expire_at
    }

    /// Whether this record is expired at `now`.
    pub fn is_expired(&self, now: u64) -> (r: bool)
        ensures
            r == self.spec_is_expired(now),
    {
        now >= self.expire_at
    }

    /// Seconds until expiry, 0 once expired.
    pub fn remaining_ttl(&self, now: u64) -> (r: u64)
        ensures
            r == if now >= self.expire_at {
                0u64
            } else {
                (self.expire_at - now) as u64
            },
    {
        if now >= self.expire_at {
            0
        } else {
            self.expire_at - now
        }
    }
}

/// An equal copy of a record; the message is cloned through the codec
/// boundary, everything else field by field.
pub fn clone_record(rec: &CachedDnsRecord) -> (r: CachedDnsRecord)
    ensures
        r == *rec,
{
    CachedDnsRecord {
        cache_id: rec.cache_id.clone(),
        matched_domain: rec.matched_domain.clone(),
        domain: rec.domain.clone(),
        upstream: rec.upstream.clone(),
        original_ttl: rec.original_ttl,
        expire_at: rec.expire_at,
        timestamp: rec.timestamp,
        message: match &rec.message {
            Some(m) => Some(crate::dns::clone_message(m)),
            None => None,
        },
    }
}

/// Whether the (matched-domain, upstream) pair appears among the validated
/// rule-cache triples.
pub open spec fn spec_pair_valid(
    valid: Seq<(Seq<char>, Seq<char>, Seq<char>)>,
    md: Seq<char>,
    up: Seq<char>,
) -> bool {
    exists|j: int| 0 <= j < valid.len() && (#[trigger] valid[j]).0 == md && valid[j].1 == up
}

fn pair_valid(valid: &Vec<(String, String, String)>, md: &str, up: &str) -> (r: bool)
    ensures
        r == spec_pair_valid(valid.deep_view(), md@, up@),
{
    let mut j: usize = 0;
    while j < valid.len()
        invariant
            j <= valid@.len(),
            forall|a: int|
                0 <= a < j ==> !((#[trigger] valid.deep_view()[a]).0 == md@ && valid.deep_view()[a].1
                    == up@),
        decreases valid@.len() - j,
    {
        if str_eq(valid[j].0.as_str(), md) && str_eq(valid[j].1.as_str(), up) {
            assert(valid.deep_view()[j as int].0 == md@ && valid.deep_view()[j as int].1 == up@);
            return true;
        }
        j += 1;
    }
    false
}

/// Every element of a filtered sequence comes from the original.
proof fn lemma_filter_elem<A>(s: Seq<A>, pred: spec_fn(A) -> bool, i: int)
    requires
        0 <= i < s.filter(pred).len(),
    ensures
        exists|j: int| 0 <= j < s.len() && s[j] == s.filter(pred)[i],
    decreases s.len(),
{
    reveal(Seq::filter);
    if s.len() == 0 {
    } else {
        let rest = s.drop_last();
        let frest = rest.filter(pred);
        if pred(s.last()) {
            if i < frest.len() {
                lemma_filter_elem(rest, pred, i);
                let j = choose|j: int| 0 <= j < rest.len() && rest[j] == frest[i];
                assert(s[j] == s.filter(pred)[i]);
            } else {
                assert(s.filter(pred)[i] == s.last());
                assert(s[s.len() - 1] == s.filter(pred)[i]);
            }
        } else {
            lemma_filter_elem(rest, pred, i);
            let j = choose|j: int| 0 <= j < rest.len() && rest[j] == frest[i];
            assert(s[j] == s.filter(pred)[i]);
        }
    }
}

/// Filtering keeps keys pairwise distinct.
proof fn lemma_filter_distinct_keys<A>(
    s: Seq<A>,
    pred: spec_fn(A) -> bool,
    key: spec_fn(A) -> Seq<char>,
)
    requires
        forall|i: int, j: int| 0 <= i < j < s.len() ==> key(#[trigger] s[i]) != key(#[trigger] s[j]),
    ensures
        forall|i: int, j: int|
            0 <= i < j < s.filter(pred).len() ==> key(#[trigger] s.filter(pred)[i]) != key(
                #[trigger] s.filter(pred)[j],
            ),
    decreases s.len(),
{
    reveal(Seq::filter);
    if s.len() == 0 {
    } else {
        let rest = s.drop_last();
        assert(forall|i: int, j: int|
            0 <= i < j < rest.len() ==> key(#[trigger] rest[i]) != key(#[trigger] rest[j]));
        lemma_filter_distinct_keys(rest, pred, key);
        let frest = rest.filter(pred);
        let f = s.filter(pred);
        if pred(s.last()) {
            assert(f == frest.push(s.last()));
            assert forall|i: int, j: int|
                0 <= i < j < f.len() implies key(#[trigger] f[i]) != key(#[trigger] f[j]) by {
                if j < frest.len() {
                    assert(f[i] == frest[i] && f[j] == frest[j]);
                } else {
                    assert(f[j] == s.last());
                    assert(f[i] == frest[i]);
                    lemma_filter_elem(rest, pred, i);
                    let a = choose|a: int| 0 <= a < rest.len() && rest[a] == frest[i];
                    assert(key(s[a]) != key(s[s.len() - 1]));
                }
            }
        } else {
            assert(f == frest);
        }
    }
}

/// Totals of a response cache at one instant.
#[derive(Debug)]
pub struct CacheStats {
    pub total: usize,
    pub valid: usize,
    pub expired: usize,
}

/// The TTL a response is stored with: raised to `min_ttl` and lowered to
/// `max_ttl` where those are set.
pub open spec fn spec_clamp_ttl(ttl: u64, min_ttl: Option<u64>, max_ttl: Option<u64>) -> u64 {
    let raised = match min_ttl {
        Some(m) => if ttl < m {
            m
        } else {
            ttl
        },
        None => ttl,
    };
    match max_ttl {
        Some(m) => if raised > m {
            m
        } else {
            raised
        },
        None => raised,
    }
}

/// Addition that stops at the top of `u64`.
pub open spec fn spec_sat_add(a: u64, b: u64) -> u64 {
    if a + b > u64::MAX {
        u64::MAX
    } else {
        (a + b) as u64
    }
}

/// The response cache. `records` is exposed so that contracts elsewhere can
/// speak of its contents; keys are kept pairwise distinct (`wf`).
#[derive(Debug)]
pub struct DomainCache {
    pub records: Vec<CachedDnsRecord>,
    pub cache_id: String,
    pub max_size: usize,
    pub min_ttl: Option<u64>,
    pub max_ttl: Option<u64>,
    pub output_path: Option<String>,
}

impl DomainCache {
    /// Keys are pairwise distinct.
    pub open spec fn wf(self) -> bool {
        forall|i: int, j: int|
            0 <= i < j < self.records@.len() ==> (#[trigger] self.records@[i]).domain@ != (
            #[trigger] self.records@[j]).domain@
    }

    /// Whether some record has this key.
    pub open spec fn spec_has_key(self, key: Seq<char>) -> bool {
        exists|i: int|
            0 <= i < self.records@.len() && (#[trigger] self.records@[i]).domain@ == key
    }

    /// The record stored under this key.
    pub open spec fn spec_record(self, key: Seq<char>) -> CachedDnsRecord {
        let i = choose|i: int|
            0 <= i < self.records@.len() && (#[trigger] self.records@[i]).domain@ == key;
        self.records@[i]
    }

    /// The settings of two cache states agree.
    pub open spec fn same_config(self, other: Self) -> bool {
        &&& self.cache_id == other.cache_id
        &&& self.max_size == other.max_size
        &&& self.min_ttl == other.min_ttl
        &&& self.max_ttl == other.max_ttl
        &&& self.output_path == other.output_path
    }

    /// In a well-formed cache, the record at index `i` is what lookup of its
    /// key yields.
    pub proof fn lemma_record_at(self, i: int)
        requires
            self.wf(),
            0 <= i < self.records@.len(),
        ensures
            self.spec_has_key(self.records@[i].domain@),
            self.spec_record(self.records@[i].domain@) == self.records@[i],
    {
        let key = self.records@[i].domain@;
        assert(self.spec_has_key(key));
        let j = choose|j: int|
            0 <= j < self.records@.len() && (#[trigger] self.records@[j]).domain@ == key;
        if i != j {
            assert(self.records@[i].domain@ != self.records@[j].domain@);
        }
    }

    /// An empty response cache.
    pub fn new(cache_id: String, max_size: usize, min_ttl: Option<u64>, max_ttl: Option<u64>) -> (r:
        Self)
        ensures
            r.records@.len() == 0,
            r.wf(),
            r.cache_id == cache_id,
            r.max_size == max_size,
            r.min_ttl == min_ttl,
            r.max_ttl == max_ttl,
            r.output_path is None,
    {
        DomainCache { records: Vec::new(), cache_id, max_size, min_ttl, max_ttl, output_path: None }
    }

    /// An empty response cache with the given settings. A `size` of `None`
    /// means an unbounded cache in name only: the largest possible bound.
    /// Persisted contents are brought in separately, from the file's text.
    pub fn from_config(config: &CacheConfig, cache_id: String) -> (r: Self)
        ensures
            r.records@.len() == 0,
            r.wf(),
            r.cache_id == cache_id,
            r.max_size == match config.size {
                Some(s) => s,
                None => usize::MAX,
            },
            r.min_ttl == config.min_ttl,
            r.max_ttl == config.max_ttl,
            match config.output {
                Some(p) => r.output_path matches Some(q) && q@ == p@,
                None => r.output_path is None,
            },
    {
        let max_size = match config.size {
            Some(s) => s,
            None => usize::MAX,
        };
        let output_path = match &config.output {
            Some(p) => Some(p.clone()),
            None => None,
        };
        DomainCache {
            records: Vec::new(),
            cache_id,
            max_size,
            min_ttl: config.min_ttl,
            max_ttl: config.max_ttl,
            output_path,
        }
    }

    /// The stored TTL for a raw TTL: clamped by `min_ttl` and `max_ttl`.
    pub fn adjust_ttl(&self, ttl: u64) -> (r: u64)
        ensures
            r == spec_clamp_ttl(ttl, self.min_ttl, self.max_ttl),
    {
        let mut adjusted = ttl;
        match self.min_ttl {
            Some(m) => {
                if adjusted < m {
                    adjusted = m;
                }
            },
            None => {},
        }
        match self.max_ttl {
            Some(m) => {
                if adjusted > m {
                    adjusted = m;
                }
            },
            None => {},
        }
        adjusted
    }

    /// Find the index of this key.
    fn find_index(&self, domain: &str) -> (r: Option<usize>)
        ensures
            match r {
                Some(i) => i < self.records@.len() && self.records@[i as int].domain@ == domain@,
                None => !self.spec_has_key(domain@),
            },
    {
        let mut i: usize = 0;
        while i < self.records.len()
            invariant
                i <= self.records@.len(),
                forall|j: int| 0 <= j < i ==> (#[trigger] self.records@[j]).domain@ != domain@,
            decreases self.records@.len() - i,
        {
            if str_eq(self.records[i].domain.as_str(), domain) {
                return Some(i);
            }
            i += 1;
        }
        None
    }

    /// Remove this key if present; every other record stays.
    pub fn remove(&mut self, domain: &str)
        requires
            old(self).wf(),
        ensures
            final(self).wf(),
            final(self).same_config(*old(self)),
            !final(self).spec_has_key(domain@),
            forall|k: Seq<char>|
                k != domain@ ==> final(self).spec_has_key(k) == old(self).spec_has_key(k),
            forall|k: Seq<char>|
                k != domain@ && old(self).spec_has_key(k) ==> final(self).spec_record(k) == old(self).spec_record(k),
            final(self).records@.len() <= old(self).records@.len(),
            old(self).spec_has_key(domain@) ==> final(self).records@.len() < old(self).records@.len(),
    {
        match self.find_index(domain) {
            Some(i) => {
                let ghost prev = *self;
                self.records.remove(i);
                proof {
                    let cur = *self;
                    assert(cur.records@ == prev.records@.remove(i as int));
                    assert forall|a: int, b: int|
                        0 <= a < b < cur.records@.len() implies (
                    #[trigger] cur.records@[a]).domain@ != (#[trigger] cur.records@[b]).domain@ by {
                        let pa = if a < i as int {
                            a
                        } else {
                            a + 1
                        };
                        let pb = if b < i as int {
                            b
                        } else {
                            b + 1
                        };
                        assert(cur.records@[a] == prev.records@[pa]);
                        assert(cur.records@[b] == prev.records@[pb]);
                    }
                    assert forall|k: Seq<char>| #![auto] cur.spec_has_key(k) implies k != domain@
                        && prev.spec_has_key(k) by {
                        let a = choose|a: int|
                            0 <= a < cur.records@.len() && (#[trigger] cur.records@[a]).domain@
                                == k;
                        let pa = if a < i as int {
                            a
                        } else {
                            a + 1
                        };
                        assert(cur.records@[a] == prev.records@[pa]);
                        assert(prev.records@[pa].domain@ == k);
                        if k == domain@ {
                            assert(prev.records@[pa].domain@ == prev.records@[i as int].domain@);
                            assert(pa == i as int);
                        }
                    }
                    assert forall|k: Seq<char>|
                        k != domain@ && prev.spec_has_key(k) implies cur.spec_has_key(k)
                        && cur.spec_record(k) == prev.spec_record(k) by {
                        let pa = choose|pa: int|
                            0 <= pa < prev.records@.len() && (#[trigger] prev.records@[pa]).domain@
                                == k;
                        assert(pa != i as int);
                        let a = if pa < i as int {
                            pa
                        } else {
                            pa - 1
                        };
                        assert(cur.records@[a] == prev.records@[pa]);
                        cur.lemma_record_at(a);
                        prev.lemma_record_at(pa);
                    }
                }
            },
            None => {},
        }
    }

    /// Wipe all records; the settings stay.
    pub fn clear(&mut self)
        ensures
            final(self).records@.len() == 0,
            final(self).wf(),
            final(self).same_config(*old(self)),
    {
        self.records.clear();
    }

    /// The index of a record with the smallest expiry instant.
    fn find_earliest_expiry(&self) -> (r: usize)
        requires
            self.records@.len() > 0,
        ensures
            r < self.records@.len(),
            forall|j: int|
                0 <= j < self.records@.len() ==> (#[trigger] self.records@[j]).expire_at
                    >= self.records@[r as int].expire_at,
    {
        let mut best: usize = 0;
        let mut i: usize = 1;
        while i < self.records.len()
            invariant
                best < i <= self.records@.len(),
                forall|j: int|
                    0 <= j < i ==> (#[trigger] self.records@[j]).expire_at
                        >= self.records@[best as int].expire_at,
            decreases self.records@.len() - i,
        {
            if self.records[i].expire_at < self.records[best].expire_at {
                best = i;
            }
            i += 1;
        }
        best
    }

    /// Store this record under its key: afterwards the key holds exactly it
    /// and every other key is unchanged.
    pub(crate) fn upsert(&mut self, rec: CachedDnsRecord)
        requires
            old(self).wf(),
        ensures
            final(self).wf(),
            final(self).same_config(*old(self)),
            final(self).spec_has_key(rec.domain@),
            final(self).spec_record(rec.domain@) == rec,
            forall|k: Seq<char>|
                k != rec.domain@ ==> final(self).spec_has_key(k) == old(self).spec_has_key(k),
            forall|k: Seq<char>|
                k != rec.domain@ && old(self).spec_has_key(k) ==> final(self).spec_record(k)
                    == old(self).spec_record(k),
            final(self).records@.len() <= old(self).records@.len() + 1,
            old(self).spec_has_key(rec.domain@) ==> final(self).records@.len() == old(self).records@.len(),
    {
        let ghost g_rec = rec;
        match self.find_index(rec.domain.as_str()) {
            Some(i) => {
                let ghost idx = i as int;
                let ghost prev = *self;
                self.records[i] = rec;
                proof {
                    let cur = *self;
                    assert(cur.records@ == prev.records@.update(idx, cur.records@[idx]));
                    assert(cur.records@[idx] == g_rec);
                    assert forall|a: int, b: int|
                        0 <= a < b < cur.records@.len() implies (
                    #[trigger] cur.records@[a]).domain@ != (#[trigger] cur.records@[b]).domain@ by {
                        assert(prev.records@[a].domain@ != prev.records@[b].domain@);
                        if a != idx {
                            assert(cur.records@[a] == prev.records@[a]);
                        }
                        if b != idx {
                            assert(cur.records@[b] == prev.records@[b]);
                        }
                    }
                    cur.lemma_record_at(idx);
                    assert forall|k: Seq<char>|
                        k != g_rec.domain@ implies cur.spec_has_key(k) == prev.spec_has_key(k) by {
                        if cur.spec_has_key(k) {
                            let a = choose|a: int|
                                0 <= a < cur.records@.len() && (#[trigger] cur.records@[a]).domain@
                                    == k;
                            assert(a != idx);
                            assert(prev.records@[a].domain@ == k);
                        }
                        if prev.spec_has_key(k) {
                            let a = choose|a: int|
                                0 <= a < prev.records@.len()
                                    && (#[trigger] prev.records@[a]).domain@ == k;
                            assert(a != idx);
                            assert(cur.records@[a].domain@ == k);
                        }
                    }
                    assert forall|k: Seq<char>|
                        k != g_rec.domain@ && prev.spec_has_key(k) implies cur.spec_record(k)
                        == prev.spec_record(k) by {
                        let a = choose|a: int|
                            0 <= a < prev.records@.len() && (#[trigger] prev.records@[a]).domain@
                                == k;
                        assert(a != idx);
                        assert(cur.records@[a] == prev.records@[a]);
                        prev.lemma_record_at(a);
                        cur.lemma_record_at(a);
                    }
                }
            },
            None => {
                let ghost n = self.records@.len() as int;
                let ghost prev = *self;
                self.records.push(rec);
                proof {
                    let cur = *self;
                    assert(cur.records@ == prev.records@.push(cur.records@[n]));
                    assert(cur.records@[n] == g_rec);
                    assert forall|a: int, b: int|
                        0 <= a < b < cur.records@.len() implies (
                    #[trigger] cur.records@[a]).domain@ != (#[trigger] cur.records@[b]).domain@ by {
                        if b == n {
                            assert(cur.records@[a] == prev.records@[a]);
                            assert(prev.records@[a].domain@ != g_rec.domain@) by {
                                if prev.records@[a].domain@ == g_rec.domain@ {
                                    assert(prev.spec_has_key(g_rec.domain@));
                                }
                            }
                        } else {
                            assert(cur.records@[a] == prev.records@[a]);
                            assert(cur.records@[b] == prev.records@[b]);
                        }
                    }
                    cur.lemma_record_at(n);
                    assert forall|k: Seq<char>|
                        k != g_rec.domain@ implies cur.spec_has_key(k) == prev.spec_has_key(k) by {
                        if cur.spec_has_key(k) {
                            let a = choose|a: int|
                                0 <= a < cur.records@.len() && (#[trigger] cur.records@[a]).domain@
                                    == k;
                            assert(a != n);
                            assert(prev.records@[a].domain@ == k);
                        }
                        if prev.spec_has_key(k) {
                            let a = choose|a: int|
                                0 <= a < prev.records@.len()
                                    && (#[trigger] prev.records@[a]).domain@ == k;
                            assert(cur.records@[a].domain@ == k);
                        }
                    }
                    assert forall|k: Seq<char>|
                        k != g_rec.domain@ && prev.spec_has_key(k) implies cur.spec_record(k)
                        == prev.spec_record(k) by {
                        let a = choose|a: int|
                            0 <= a < prev.records@.len() && (#[trigger] prev.records@[a]).domain@
                                == k;
                        assert(cur.records@[a] == prev.records@[a]);
                        prev.lemma_record_at(a);
                        cur.lemma_record_at(a);
                    }
                }
            },
        }
    }

    /// Insert a response under `domain`, clamping its TTL; when the cache is
    /// full and the key is new, an entry with the earliest expiry makes room.
    pub fn insert(
        &mut self,
        domain: String,
        cache_id: String,
        matched_domain: String,
        upstream: String,
        message: Message,
        ttl: u64,
        now: u64,
        wall: u64,
    )
        requires
            old(self).wf(),
        ensures
            final(self).wf(),
            final(self).same_config(*old(self)),
            final(self).spec_has_key(domain@),
            ({
                let r = final(self).spec_record(domain@);
                &&& r.domain@ == domain@
                &&& r.cache_id@ == cache_id@
                &&& r.matched_domain@ == matched_domain@
                &&& r.upstream@ == upstream@
                &&& r.original_ttl == ttl
                &&& r.expire_at == spec_sat_add(
                    now,
                    spec_clamp_ttl(ttl, old(self).min_ttl, old(self).max_ttl),
                )
                &&& r.timestamp == wall
                &&& r.message == Some(message)
            }),
            forall|k: Seq<char>|
                k != domain@ && final(self).spec_has_key(k) ==> old(self).spec_has_key(k) && final(self).spec_record(k) == old(self).spec_record(k),
            (old(self).spec_has_key(domain@) || old(self).records@.len() < old(self).max_size) ==> forall|k: Seq<char>|
                k != domain@ && old(self).spec_has_key(k) ==> final(self).spec_has_key(k),
            (!old(self).spec_has_key(domain@) && old(self).records@.len() >= old(self).max_size
                && old(self).records@.len() > 0) ==> exists|v: Seq<char>|
                #![auto]
                old(self).spec_has_key(v) && v != domain@ && !final(self).spec_has_key(v) && (forall|
                    j: int,
                |
                    0 <= j < old(self).records@.len() ==> (#[trigger] old(self).records@[j]).expire_at >= old(self).spec_record(v).expire_at) && (forall|
                    k: Seq<char>,
                |
                    k != domain@ && k != v && old(self).spec_has_key(k) ==> final(self).spec_has_key(k)),
            final(self).records@.len() <= old(self).records@.len() + 1,
            (!old(self).spec_has_key(domain@) && old(self).records@.len() >= old(self).max_size
                && old(self).records@.len() > 0) ==> final(self).records@.len() <= old(self).records@.len(),
            (old(self).max_size > 0 && old(self).records@.len() <= old(self).max_size) ==> final(self).records@.len() <= old(self).max_size,
    {
        let present = match self.find_index(domain.as_str()) {
            Some(_) => true,
            None => false,
        };
        if !present && self.records.len() >= self.max_size && self.records.len() > 0 {
            let v = self.find_earliest_expiry();
            let vkey = self.records[v].domain.clone();
            proof {
                self.lemma_record_at(v as int);
            }
            let ghost mid0 = *self;
            self.remove(vkey.as_str());
            proof {
                assert(old(self).spec_has_key(vkey@));
                assert(old(self).spec_record(vkey@).expire_at == mid0.records@[v as int].expire_at);
            }
        }
        let adjusted = self.adjust_ttl(ttl);
        let expire_at = if now > u64::MAX - adjusted {
            u64::MAX
        } else {
            now + adjusted
        };
        let rec = CachedDnsRecord {
            cache_id,
            matched_domain,
            domain,
            upstream,
            original_ttl: ttl,
            expire_at,
            timestamp: wall,
            message: Some(message),
        };
        self.upsert(rec);
    }

    /// Look the key up; a live entry answers, an expired one is removed.
    pub fn get(&mut self, domain: &str, now: u64) -> (r: Option<Message>)
        requires
            old(self).wf(),
        ensures
            final(self).wf(),
            final(self).same_config(*old(self)),
            match r {
                Some(m) => old(self).spec_has_key(domain@) && !old(self).spec_record(
                    domain@,
                ).spec_is_expired(now) && old(self).spec_record(domain@).message == Some(m) && *final(self) == *old(self),
                None => !old(self).spec_has_key(domain@) || old(self).spec_record(
                    domain@,
                ).spec_is_expired(now) || old(self).spec_record(domain@).message is None,
            },
            forall|k: Seq<char>|
                k != domain@ ==> final(self).spec_has_key(k) == old(self).spec_has_key(k),
            forall|k: Seq<char>|
                k != domain@ && old(self).spec_has_key(k) ==> final(self).spec_record(k) == old(self).spec_record(k),
            old(self).spec_has_key(domain@) && old(self).spec_record(domain@).spec_is_expired(now)
                ==> !final(self).spec_has_key(domain@),
            old(self).spec_has_key(domain@) && !old(self).spec_record(domain@).spec_is_expired(now)
                ==> *final(self) == *old(self),
            !old(self).spec_has_key(domain@) ==> *final(self) == *old(self),
    {
        let idx = self.find_index(domain);
        match idx {
            Some(i) => {
                proof {
                    self.lemma_record_at(i as int);
                }
                if self.records[i].is_expired(now) {
                    self.remove(domain);
                    None
                } else {
                    match &self.records[i].message {
                        Some(m) => Some(crate::dns::clone_message(m)),
                        None => None,
                    }
                }
            },
            None => None,
        }
    }

    /// Look up by the full tuple (cache-id, matched-domain, upstream, qname):
    /// a live entry with all four fields matching answers; an expired entry
    /// under the queried name is removed.
    pub fn get_by_key(
        &mut self,
        cache_id: &str,
        match_domain: &str,
        upstream: &str,
        qname: &str,
        now: u64,
    ) -> (r: Option<Message>)
        requires
            old(self).wf(),
        ensures
            final(self).wf(),
            final(self).same_config(*old(self)),
            match r {
                Some(m) => ({
                    let rec = old(self).spec_record(qname@);
                    &&& old(self).spec_has_key(qname@)
                    &&& !rec.spec_is_expired(now)
                    &&& rec.cache_id@ == cache_id@
                    &&& rec.matched_domain@ == match_domain@
                    &&& rec.upstream@ == upstream@
                    &&& rec.message == Some(m)
                    &&& *final(self) == *old(self)
                }),
                None => !old(self).spec_has_key(qname@) || old(self).spec_record(
                    qname@,
                ).spec_is_expired(now) || old(self).spec_record(qname@).cache_id@ != cache_id@
                    || old(self).spec_record(qname@).matched_domain@ != match_domain@ || old(self).spec_record(qname@).upstream@ != upstream@ || old(self).spec_record(
                    qname@,
                ).message is None,
            },
            forall|k: Seq<char>|
                k != qname@ ==> final(self).spec_has_key(k) == old(self).spec_has_key(k),
            forall|k: Seq<char>|
                k != qname@ && old(self).spec_has_key(k) ==> final(self).spec_record(k) == old(self).spec_record(k),
            old(self).spec_has_key(qname@) && !old(self).spec_record(qname@).spec_is_expired(now)
                ==> *final(self) == *old(self),
            !old(self).spec_has_key(qname@) ==> *final(self) == *old(self),
            old(self).spec_has_key(qname@) && old(self).spec_record(qname@).spec_is_expired(now)
                ==> !final(self).spec_has_key(qname@),
    {
        let idx = self.find_index(qname);
        match idx {
            Some(i) => {
                proof {
                    self.lemma_record_at(i as int);
                }
                if self.records[i].is_expired(now) {
                    self.remove(qname);
                    None
                } else if str_eq(self.records[i].cache_id.as_str(), cache_id) && str_eq(
                    self.records[i].matched_domain.as_str(),
                    match_domain,
                ) && str_eq(self.records[i].upstream.as_str(), upstream) {
                    match &self.records[i].message {
                        Some(m) => Some(crate::dns::clone_message(m)),
                        None => None,
                    }
                } else {
                    None
                }
            },
            None => None,
        }
    }

    /// Drop every expired record; the live ones stay, in order.
    pub fn cleanup_expired(&mut self, now: u64)
        requires
            old(self).wf(),
        ensures
            final(self).wf(),
            final(self).same_config(*old(self)),
            final(self).records@ == old(self).records@.filter(
                |rec: CachedDnsRecord| !rec.spec_is_expired(now),
            ),
    {
        broadcast use vstd::seq_lib::group_filter_ensures;

        let mut kept: Vec<CachedDnsRecord> = Vec::new();
        let mut i: usize = 0;
        proof {
            assert(self.records@.subrange(0, 0) =~= Seq::<CachedDnsRecord>::empty());
            reveal(Seq::filter);
        }
        while i < self.records.len()
            invariant
                i <= self.records@.len(),
                old(self).wf(),
                *self == *old(self),
                kept@ == self.records@.subrange(0, i as int).filter(
                    |rec: CachedDnsRecord| !rec.spec_is_expired(now),
                ),
                forall|a: int|
                    0 <= a < kept@.len() ==> exists|j: int|
                        0 <= j < i && #[trigger] kept@[a] == self.records@[j],
                forall|a: int, b: int|
                    0 <= a < b < kept@.len() ==> (#[trigger] kept@[a]).domain@ != (
                    #[trigger] kept@[b]).domain@,
            decreases self.records@.len() - i,
        {
            let ghost prefix = self.records@.subrange(0, i as int);
            let ghost old_kept = kept@;
            let keep = !self.records[i].is_expired(now);
            if keep {
                let rec = clone_record(&self.records[i]);
                kept.push(rec);
            }
            proof {
                let pred = |rec: CachedDnsRecord| !rec.spec_is_expired(now);
                assert(prefix.push(self.records@[i as int]) =~= self.records@.subrange(0, i + 1));
                Seq::lemma_filter_push(prefix, self.records@[i as int], pred);
                if keep {
                    assert(kept@ =~= old_kept.push(self.records@[i as int]));
                    assert forall|a: int, b: int|
                        0 <= a < b < kept@.len() implies (#[trigger] kept@[a]).domain@ != (
                    #[trigger] kept@[b]).domain@ by {
                        if b == old_kept.len() as int {
                            let j = choose|j: int|
                                0 <= j < i && #[trigger] old_kept[a] == self.records@[j];
                            assert(kept@[a] == self.records@[j]);
                            assert(kept@[b] == self.records@[i as int]);
                            assert(self.records@[j].domain@ != self.records@[i as int].domain@);
                        }
                    }
                }
            }
            i += 1;
        }
        proof {
            assert(self.records@.subrange(0, self.records@.len() as int) =~= self.records@);
        }
        self.records = kept;
    }

    /// Keep a record iff its (matched-domain, upstream) pair appears among
    /// the validated rule-cache entries; the survivors are the warm-up
    /// candidates.
    pub fn validate_against_rule_cache(&self, valid_rule_entries: &Vec<(String, String, String)>)
        -> (r: (Vec<CachedDnsRecord>, usize, Vec<(String, String, String, String)>))
        ensures
            r.0@ == self.records@.filter(
                |rec: CachedDnsRecord| spec_pair_valid(
                    valid_rule_entries.deep_view(),
                    rec.matched_domain@,
                    rec.upstream@,
                ),
            ),
            r.1 == self.records@.len() - r.0@.len(),
            r.2.deep_view() == r.0@.map_values(
                |rec: CachedDnsRecord| (rec.domain@, rec.matched_domain@, rec.upstream@, rec.cache_id@),
            ),
    {
        broadcast use vstd::seq_lib::group_filter_ensures;

        let mut kept: Vec<CachedDnsRecord> = Vec::new();
        let mut warm: Vec<(String, String, String, String)> = Vec::new();
        let mut i: usize = 0;
        proof {
            assert(self.records@.subrange(0, 0) =~= Seq::<CachedDnsRecord>::empty());
            reveal(Seq::filter);
            assert(warm.deep_view() =~= kept@.map_values(
                |rec: CachedDnsRecord| (rec.domain@, rec.matched_domain@, rec.upstream@, rec.cache_id@),
            ));
        }
        while i < self.records.len()
            invariant
                i <= self.records@.len(),
                kept@ == self.records@.subrange(0, i as int).filter(
                    |rec: CachedDnsRecord| spec_pair_valid(
                        valid_rule_entries.deep_view(),
                        rec.matched_domain@,
                        rec.upstream@,
                    ),
                ),
                kept@.len() <= i,
                warm.deep_view() == kept@.map_values(
                    |rec: CachedDnsRecord| (rec.domain@, rec.matched_domain@, rec.upstream@, rec.cache_id@),
                ),
            decreases self.records@.len() - i,
        {
            let ghost prefix = self.records@.subrange(0, i as int);
            let ghost old_kept = kept@;
            let ghost old_warm = warm.deep_view();
            let keep = pair_valid(
                valid_rule_entries,
                self.records[i].matched_domain.as_str(),
                self.records[i].upstream.as_str(),
            );
            if keep {
                let rec = clone_record(&self.records[i]);
                warm.push(
                    (
                        rec.domain.clone(),
                        rec.matched_domain.clone(),
                        rec.upstream.clone(),
                        rec.cache_id.clone(),
                    ),
                );
                kept.push(rec);
            }
            proof {
                let pred2 = |rec: CachedDnsRecord| spec_pair_valid(
                    valid_rule_entries.deep_view(),
                    rec.matched_domain@,
                    rec.upstream@,
                );
                let tup2 = |rec: CachedDnsRecord| (rec.domain@, rec.matched_domain@, rec.upstream@, rec.cache_id@);
                assert(prefix.push(self.records@[i as int]) =~= self.records@.subrange(0, i + 1));
                Seq::lemma_filter_push(prefix, self.records@[i as int], pred2);
                if keep {
                    assert(kept@ =~= old_kept.push(self.records@[i as int]));
                    assert(warm.deep_view() =~= old_warm.push(tup2(self.records@[i as int])));
                    assert(warm.deep_view() =~= kept@.map_values(tup2));
                }
            }
            i += 1;
        }
        proof {
            assert(self.records@.subrange(0, self.records@.len() as int) =~= self.records@);
        }
        let invalid = self.records.len() - kept.len();
        (kept, invalid, warm)
    }


    /// The mutating form of cold-start validation: drop every record whose
    /// (matched-domain, upstream) pair is not among the validated rule-cache
    /// triples, and return the dropped count and the warm-up candidates.
    pub fn validate_and_retain(&mut self, valid_rule_entries: &Vec<(String, String, String)>) -> (r:
        (usize, Vec<(String, String, String, String)>))
        requires
            old(self).wf(),
        ensures
            final(self).wf(),
            final(self).same_config(*old(self)),
            final(self).records@ == old(self).records@.filter(
                |rec: CachedDnsRecord| spec_pair_valid(
                    valid_rule_entries.deep_view(),
                    rec.matched_domain@,
                    rec.upstream@,
                ),
            ),
            r.0 == old(self).records@.len() - final(self).records@.len(),
            r.1.deep_view() == final(self).records@.map_values(
                |rec: CachedDnsRecord| (rec.domain@, rec.matched_domain@, rec.upstream@, rec.cache_id@),
            ),
    {
        let (kept, dropped, warm) = self.validate_against_rule_cache(valid_rule_entries);
        proof {
            broadcast use vstd::seq_lib::group_filter_ensures;

            let pred = |rec: CachedDnsRecord| spec_pair_valid(
                valid_rule_entries.deep_view(),
                rec.matched_domain@,
                rec.upstream@,
            );
            lemma_filter_distinct_keys(
                self.records@,
                pred,
                |rec: CachedDnsRecord| rec.domain@,
            );
        }
        self.records = kept;
        (dropped, warm)
    }

    /// Totals at one instant.
    pub fn stats(&self, now: u64) -> (r: CacheStats)
        ensures
            r.total == self.records@.len(),
            r.expired == self.records@.filter(
                |rec: CachedDnsRecord| rec.spec_is_expired(now),
            ).len(),
            r.valid == r.total - r.expired,
    {
        broadcast use vstd::seq_lib::group_filter_ensures;

        let mut expired: usize = 0;
        let mut i: usize = 0;
        proof {
            assert(self.records@.subrange(0, 0) =~= Seq::<CachedDnsRecord>::empty());
            reveal(Seq::filter);
        }
        while i < self.records.len()
            invariant
                i <= self.records@.len(),
                expired == self.records@.subrange(0, i as int).filter(
                    |rec: CachedDnsRecord| rec.spec_is_expired(now),
                ).len(),
                expired <= i,
            decreases self.records@.len() - i,
        {
            let ghost prefix = self.records@.subrange(0, i as int);
            proof {
                let pred = |rec: CachedDnsRecord| rec.spec_is_expired(now);
                assert(prefix.push(self.records@[i as int]) =~= self.records@.subrange(0, i + 1));
                Seq::lemma_filter_push(prefix, self.records@[i as int], pred);
            }
            if self.records[i].is_expired(now) {
                expired += 1;
            }
            i += 1;
        }
        proof {
            assert(self.records@.subrange(0, self.records@.len() as int) =~= self.records@);
        }
        let total = self.records.len();
        CacheStats { total, valid: total - expired, expired }
    }
}

} // verus!

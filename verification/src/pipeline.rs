//! The query pipeline's cache orchestration: depth-ordered two-level
//! lookup, the cache fill after a dispatch, and the cache manager with its
//! cold-start protocol.

use vstd::prelude::*;
use vstd::string::*;
use hickory_proto::op::Message;
use crate::config::{CacheConfig, CacheType, Config};
use crate::dns::{spec_extract_min_ttl, extract_min_ttl};
use crate::domain::spec_domain_matches;
use crate::domain_cache::{spec_clamp_ttl, spec_sat_add, DomainCache};
use crate::engine::Selection;
use crate::rule_cache::{spec_key_valid, RuleCache};
use crate::text::str_eq;

verus! {

/// The response cache can answer `q`: it holds a live, non-placeholder
/// record for `q` whose matched domain matches `q` and is routed exactly
/// this way by the rule cache.
pub open spec fn spec_cache_qualifies(rc: RuleCache, dc: DomainCache, q: Seq<char>, now: u64) -> bool {
    &&& dc.spec_has_key(q)
    &&& !dc.spec_record(q).spec_is_expired(now)
    &&& dc.spec_record(q).message is Some
    &&& spec_domain_matches(q, dc.spec_record(q).matched_domain@)
    &&& rc.spec_has_key(dc.spec_record(q).matched_domain@)
    &&& rc.spec_get(dc.spec_record(q).matched_domain@) == (
        dc.spec_record(q).upstream@,
        dc.spec_record(q).cache_id@,
    )
}

/// The two-level lookup: ask the rule cache for all matching suffixes,
/// deepest first, and answer from the first live response-cache record
/// keyed by the full tuple. A hit is always consistent: the record's
/// matched domain routes to its (upstream, cache-id) in the rule cache.
pub fn cache_lookup(rc: &RuleCache, dc: &mut DomainCache, qname: &str, now: u64) -> (r: Option<
    Message,
>)
    requires
        rc.wf(),
        old(dc).wf(),
    ensures
        final(dc).wf(),
        final(dc).same_config(*old(dc)),
        match r {
            Some(m) => {
                &&& spec_cache_qualifies(*rc, *old(dc), qname@, now)
                &&& old(dc).spec_record(qname@).message == Some(m)
                &&& *final(dc) == *old(dc)
            },
            None => !spec_cache_qualifies(*rc, *old(dc), qname@, now),
        },
        forall|k: Seq<char>|
            k != qname@ ==> final(dc).spec_has_key(k) == old(dc).spec_has_key(k),
        forall|k: Seq<char>|
            k != qname@ && old(dc).spec_has_key(k) ==> final(dc).spec_record(k) == old(
                dc,
            ).spec_record(k),
{
    let matches = rc.get_matches_by_depth(qname);
    let mut i: usize = 0;
    while i < matches.len()
        invariant
            rc.wf(),
            dc.wf(),
            dc.same_config(*old(dc)),
            i <= matches.deep_view().len(),
            forall|k: int|
                0 <= k < matches.deep_view().len() ==> {
                    let t = #[trigger] matches.deep_view()[k];
                    &&& spec_domain_matches(qname@, t.0)
                    &&& rc.spec_has_key(t.0)
                    &&& rc.spec_get(t.0) == (t.1, t.2)
                },
            forall|j: int|
                0 <= j < rc.entries@.len() && spec_domain_matches(
                    qname@,
                    (#[trigger] rc.entries@[j]).domain@,
                ) ==> exists|k: int|
                    0 <= k < matches.deep_view().len() && (#[trigger] matches.deep_view()[k]).0
                        == rc.entries@[j].domain@,
            // the cache is unchanged, or the expired record under qname left
            *dc == *old(dc) || (old(dc).spec_has_key(qname@) && old(dc).spec_record(
                qname@,
            ).spec_is_expired(now) && !dc.spec_has_key(qname@)),
            forall|k: Seq<char>| k != qname@ ==> dc.spec_has_key(k) == old(dc).spec_has_key(k),
            forall|k: Seq<char>|
                k != qname@ && old(dc).spec_has_key(k) ==> dc.spec_record(k) == old(
                    dc,
                ).spec_record(k),
            // the processed tuples did not qualify
            forall|k: int|
                0 <= k < i ==> !({
                    let t = #[trigger] matches.deep_view()[k];
                    &&& old(dc).spec_has_key(qname@)
                    &&& !old(dc).spec_record(qname@).spec_is_expired(now)
                    &&& old(dc).spec_record(qname@).message is Some
                    &&& old(dc).spec_record(qname@).matched_domain@ == t.0
                    &&& old(dc).spec_record(qname@).upstream@ == t.1
                    &&& old(dc).spec_record(qname@).cache_id@ == t.2
                }),
        decreases matches.deep_view().len() - i,
    {
        let t = &matches[i];
        let ghost pre = *dc;
        let hit = dc.get_by_key(t.2.as_str(), t.0.as_str(), t.1.as_str(), qname, now);
        proof {
            assert(matches.deep_view()[i as int] == (t.0@, t.1@, t.2@));
        }
        match hit {
            Some(m) => {
                proof {
                    assert(pre.spec_has_key(qname@));
                    assert(pre == *old(dc));
                    let rec = old(dc).spec_record(qname@);
                    assert(rec.matched_domain@ == t.0@);
                    assert(rec.upstream@ == t.1@ && rec.cache_id@ == t.2@);
                    assert(rc.spec_has_key(t.0@) && rc.spec_get(t.0@) == (t.1@, t.2@));
                    assert(spec_cache_qualifies(*rc, *old(dc), qname@, now));
                }
                return Some(m);
            },
            None => {},
        }
        proof {
            if pre != *old(dc) {
                // the expired record under qname was removed in an earlier pass
                assert(old(dc).spec_record(qname@).spec_is_expired(now));
            } else {
                if old(dc).spec_has_key(qname@) && !old(dc).spec_record(qname@).spec_is_expired(now) {
                    assert(*dc == pre);
                }
            }
        }
        i += 1;
    }
    proof {
        if spec_cache_qualifies(*rc, *old(dc), qname@, now) {
            let rec = old(dc).spec_record(qname@);
            let md = rec.matched_domain@;
            let j = choose|j: int|
                0 <= j < rc.entries@.len() && (#[trigger] rc.entries@[j]).domain@ == md;
            let k = choose|k: int|
                0 <= k < matches.deep_view().len() && (#[trigger] matches.deep_view()[k]).0
                    == rc.entries@[j].domain@;
            let t = matches.deep_view()[k];
            assert(rc.spec_get(md) == (t.1, t.2));
            assert(t.1 == rec.upstream@ && t.2 == rec.cache_id@);
            assert(false);
        }
    }
    None
}

/// Whether a selection is cached at all: `servers` and `final` selections
/// never are.
pub open spec fn spec_selection_cached(sel: Selection) -> bool {
    match sel {
        Selection::Servers { .. } => false,
        Selection::Final { .. } => false,
        _ => true,
    }
}

/// The rule-cache key a selection is stored under: the matched domain of a
/// group hit, the root for the default and fallback paths.
pub open spec fn spec_selection_key(sel: Selection) -> Seq<char> {
    match sel {
        Selection::Group { matched_domain, .. } => if matched_domain@.len() == 0 {
            seq!['.']
        } else {
            matched_domain@
        },
        _ => seq!['.'],
    }
}

/// The upstream name a selection routes to, for the cached kinds.
pub open spec fn spec_selection_upstream(sel: Selection) -> Seq<char> {
    match sel {
        Selection::Group { upstream, .. } => upstream@,
        Selection::Servers { upstream } => upstream@,
        Selection::Default { upstream } => upstream@,
        Selection::Fallback { upstream } => upstream@,
        Selection::Final { .. } => Seq::<char>::empty(),
    }
}

/// Fill both caches after a successful dispatch. `servers` and `final`
/// selections leave both caches exactly as they were; the other kinds
/// store the routing under the matched domain and the response under the
/// queried name, with the response's smallest TTL clamped by the response
/// cache's bounds.
pub fn record_result(
    rc: &mut RuleCache,
    dc: &mut DomainCache,
    sel: &Selection,
    qname: &str,
    response: &Message,
    now: u64,
    wall: u64,
) -> (cached: bool)
    requires
        old(rc).wf(),
        old(dc).wf(),
    ensures
        final(rc).wf(),
        final(dc).wf(),
        final(dc).same_config(*old(dc)),
        cached == spec_selection_cached(*sel),
        !spec_selection_cached(*sel) ==> *final(rc) == *old(rc) && *final(dc) == *old(dc),
        spec_selection_cached(*sel) ==> {
            let key = spec_selection_key(*sel);
            let up = spec_selection_upstream(*sel);
            &&& final(rc).spec_has_key(key)
            &&& final(rc).spec_get(key) == (up, up)
            &&& forall|k: Seq<char>|
                final(rc).spec_has_key(k) == (old(rc).spec_has_key(k) || k == key)
            &&& forall|k: Seq<char>|
                k != key && old(rc).spec_has_key(k) ==> final(rc).spec_get(k) == old(rc).spec_get(
                    k,
                )
            &&& final(dc).spec_has_key(qname@)
            &&& ({
                let r = final(dc).spec_record(qname@);
                &&& r.matched_domain@ == key
                &&& r.upstream@ == up
                &&& r.cache_id@ == up
                &&& r.original_ttl == spec_extract_min_ttl(*response)
                &&& r.expire_at == spec_sat_add(
                    now,
                    spec_clamp_ttl(
                        spec_extract_min_ttl(*response),
                        old(dc).min_ttl,
                        old(dc).max_ttl,
                    ),
                )
                &&& r.timestamp == wall
                &&& r.message is Some
                &&& final(rc).spec_get(r.matched_domain@) == (r.upstream@, r.cache_id@)
            })
        },
{
    match sel {
        Selection::Servers { .. } => false,
        Selection::Final { .. } => false,
        Selection::Group { upstream, matched_domain, .. } => {
            let key = if matched_domain.as_str().is_empty() {
                let mut dot = String::new();
                crate::text::string_push(&mut dot, '.');
                proof {
                    assert(dot@ =~= seq!['.']);
                }
                dot
            } else {
                matched_domain.clone()
            };
            fill_caches(rc, dc, key, upstream.clone(), qname, response, now, wall);
            true
        },
        Selection::Default { upstream } => {
            let mut dot = String::new();
            crate::text::string_push(&mut dot, '.');
            proof {
                assert(dot@ =~= seq!['.']);
            }
            fill_caches(rc, dc, dot, upstream.clone(), qname, response, now, wall);
            true
        },
        Selection::Fallback { upstream } => {
            let mut dot = String::new();
            crate::text::string_push(&mut dot, '.');
            proof {
                assert(dot@ =~= seq!['.']);
            }
            fill_caches(rc, dc, dot, upstream.clone(), qname, response, now, wall);
            true
        },
    }
}

/// The shared cache fill: the rule cache learns `key -> (upstream,
/// upstream)` and the response cache stores the response under `qname`.
fn fill_caches(
    rc: &mut RuleCache,
    dc: &mut DomainCache,
    key: String,
    upstream: String,
    qname: &str,
    response: &Message,
    now: u64,
    wall: u64,
)
    requires
        old(rc).wf(),
        old(dc).wf(),
    ensures
        final(rc).wf(),
        final(dc).wf(),
        final(dc).same_config(*old(dc)),
        final(rc).spec_has_key(key@),
        final(rc).spec_get(key@) == (upstream@, upstream@),
        forall|k: Seq<char>| final(rc).spec_has_key(k) == (old(rc).spec_has_key(k) || k == key@),
        forall|k: Seq<char>|
            k != key@ && old(rc).spec_has_key(k) ==> final(rc).spec_get(k) == old(rc).spec_get(k),
        final(dc).spec_has_key(qname@),
        ({
            let r = final(dc).spec_record(qname@);
            &&& r.matched_domain@ == key@
            &&& r.upstream@ == upstream@
            &&& r.cache_id@ == upstream@
            &&& r.original_ttl == spec_extract_min_ttl(*response)
            &&& r.expire_at == spec_sat_add(
                now,
                spec_clamp_ttl(spec_extract_min_ttl(*response), old(dc).min_ttl, old(dc).max_ttl),
            )
            &&& r.timestamp == wall
            &&& r.message is Some
        }),
{
    let ttl = extract_min_ttl(response);
    rc.insert(key.clone(), upstream.clone(), upstream.clone());
    let msg = crate::dns::clone_message(response);
    dc.insert(
        String::from_str(qname),
        upstream.clone(),
        key,
        upstream,
        msg,
        ttl,
        now,
        wall,
    );
}

/// The cold-start survivors of a rule cache under a configuration: its
/// entries whose key is not the root and is covered by some routing
/// group's list, as (matched-domain, upstream, cache-id) triples.
pub open spec fn spec_kept_triples(rc: RuleCache, cfg: Config) -> Seq<
    (Seq<char>, Seq<char>, Seq<char>),
> {
    rc.entries@.filter(
        |e: crate::rule_cache::RuleEntry| e.domain@ != seq!['.'] && spec_key_valid(cfg, e.domain@),
    ).map_values(|e: crate::rule_cache::RuleEntry| (e.domain@, e.upstream@, e.cache_id@))
}

/// The warm-up candidates one response cache contributes: its records whose
/// (matched-domain, upstream) pair survives, as (qname, matched-domain,
/// upstream, cache-id) tuples.
pub open spec fn spec_warm_of(
    records: Seq<crate::domain_cache::CachedDnsRecord>,
    kept: Seq<(Seq<char>, Seq<char>, Seq<char>)>,
) -> Seq<(Seq<char>, Seq<char>, Seq<char>, Seq<char>)> {
    records.filter(
        |rec: crate::domain_cache::CachedDnsRecord| crate::domain_cache::spec_pair_valid(
            kept,
            rec.matched_domain@,
            rec.upstream@,
        ),
    ).map_values(
        |rec: crate::domain_cache::CachedDnsRecord| (rec.domain@, rec.matched_domain@, rec.upstream@, rec.cache_id@),
    )
}

/// The whole warm-up list: each response cache's candidates, in cache
/// order.
pub open spec fn spec_warm_list(
    caches: Seq<(String, DomainCache)>,
    kept: Seq<(Seq<char>, Seq<char>, Seq<char>)>,
) -> Seq<(Seq<char>, Seq<char>, Seq<char>, Seq<char>)>
    decreases caches.len(),
{
    if caches.len() == 0 {
        Seq::empty()
    } else {
        spec_warm_of(caches[0].1.records@, kept) + spec_warm_list(
            caches.subrange(1, caches.len() as int),
            kept,
        )
    }
}

/// One more cache appends its candidates.
proof fn lemma_warm_list_push(
    caches: Seq<(String, DomainCache)>,
    x: (String, DomainCache),
    kept: Seq<(Seq<char>, Seq<char>, Seq<char>)>,
)
    ensures
        spec_warm_list(caches.push(x), kept) == spec_warm_list(caches, kept) + spec_warm_of(
            x.1.records@,
            kept,
        ),
    decreases caches.len(),
{
    if caches.len() == 0 {
        let whole = caches.push(x);
        assert(whole[0] == x);
        assert(whole.subrange(1, 1) =~= Seq::<(String, DomainCache)>::empty());
        assert(spec_warm_list(whole.subrange(1, 1), kept) =~= Seq::<
            (Seq<char>, Seq<char>, Seq<char>, Seq<char>),
        >::empty());
        assert(spec_warm_list(whole, kept) =~= spec_warm_list(caches, kept) + spec_warm_of(
            x.1.records@,
            kept,
        ));
    } else {
        let tail = caches.subrange(1, caches.len() as int);
        lemma_warm_list_push(tail, x, kept);
        let whole = caches.push(x);
        assert(whole[0] == caches[0]);
        assert(whole.subrange(1, whole.len() as int) =~= tail.push(x));
        assert(spec_warm_list(whole, kept) =~= spec_warm_list(caches, kept) + spec_warm_of(
            x.1.records@,
            kept,
        ));
    }
}

/// The Domain-kind entries of the cache section, in order.
pub open spec fn spec_domain_entries(cache_configs: Seq<(String, CacheConfig)>) -> Seq<
    (String, CacheConfig),
> {
    cache_configs.filter(|p: (String, CacheConfig)| p.1.kind == CacheType::Domain)
}

/// The rule cache and the named response caches, built from the cache
/// section of the configuration.
#[derive(Debug)]
pub struct CacheManager {
    /// The single rule cache; present only when an entry named `rule` of
    /// the rule kind is configured.
    pub rule_cache: Option<RuleCache>,
    /// The response caches, by name, in configuration order.
    pub domain_caches: Vec<(String, DomainCache)>,
}

impl CacheManager {
    /// Both levels are well-formed.
    pub open spec fn wf(self) -> bool {
        &&& match self.rule_cache {
            Some(rc) => rc.wf(),
            None => true,
        }
        &&& forall|j: int|
            0 <= j < self.domain_caches@.len() ==> (#[trigger] self.domain_caches@[j]).1.wf()
    }

    /// Build the caches: the entry named `rule` of the rule kind becomes
    /// the rule cache, every domain-kind entry becomes a response cache.
    pub fn new(cache_configs: &Vec<(String, CacheConfig)>, default_upstream: String) -> (r: Self)
        ensures
            r.wf(),
            (r.rule_cache is Some) == exists|i: int|
                0 <= i < cache_configs@.len() && (#[trigger] cache_configs@[i]).1.kind
                    == CacheType::Rule && cache_configs@[i].0@ == "rule"@,
            match r.rule_cache {
                Some(rc) => rc.entries@.len() == 0,
                None => true,
            },
            forall|j: int|
                0 <= j < r.domain_caches@.len() ==> (#[trigger] r.domain_caches@[j]).1.records@.len()
                    == 0,
            r.domain_caches@.len() == spec_domain_entries(cache_configs@).len(),
            forall|j: int|
                0 <= j < r.domain_caches@.len() ==> {
                    let p = #[trigger] spec_domain_entries(cache_configs@)[j];
                    &&& r.domain_caches@[j].0 == p.0
                    &&& r.domain_caches@[j].1.cache_id == p.0
                    &&& r.domain_caches@[j].1.max_size == (match p.1.size {
                        Some(s) => s,
                        None => usize::MAX,
                    })
                    &&& r.domain_caches@[j].1.min_ttl == p.1.min_ttl
                    &&& r.domain_caches@[j].1.max_ttl == p.1.max_ttl
                    &&& (match p.1.output {
                        Some(q) => r.domain_caches@[j].1.output_path matches Some(o) && o@ == q@,
                        None => r.domain_caches@[j].1.output_path is None,
                    })
                },
    {
        broadcast use vstd::seq_lib::group_filter_ensures;

        proof {
            reveal(Seq::filter);
        }
        let mut rule_cache: Option<RuleCache> = None;
        let mut domain_caches: Vec<(String, DomainCache)> = Vec::new();
        let mut i: usize = 0;
        while i < cache_configs.len()
            invariant
                i <= cache_configs@.len(),
                (rule_cache is Some) == exists|a: int|
                    0 <= a < i && (#[trigger] cache_configs@[a]).1.kind == CacheType::Rule
                        && cache_configs@[a].0@ == "rule"@,
                match rule_cache {
                    Some(rc) => rc.wf() && rc.entries@.len() == 0,
                    None => true,
                },
                forall|j: int|
                    0 <= j < domain_caches@.len() ==> (#[trigger] domain_caches@[j]).1.wf() && (
                    domain_caches@[j]).1.records@.len() == 0,
                domain_caches@.len() == spec_domain_entries(
                    cache_configs@.subrange(0, i as int),
                ).len(),
                forall|j: int|
                    0 <= j < domain_caches@.len() ==> {
                        let p = #[trigger] spec_domain_entries(
                            cache_configs@.subrange(0, i as int),
                        )[j];
                        &&& domain_caches@[j].0 == p.0
                        &&& domain_caches@[j].1.cache_id == p.0
                        &&& domain_caches@[j].1.max_size == (match p.1.size {
                            Some(s) => s,
                            None => usize::MAX,
                        })
                        &&& domain_caches@[j].1.min_ttl == p.1.min_ttl
                        &&& domain_caches@[j].1.max_ttl == p.1.max_ttl
                        &&& (match p.1.output {
                            Some(q) => domain_caches@[j].1.output_path matches Some(o) && o@
                                == q@,
                            None => domain_caches@[j].1.output_path is None,
                        })
                    },
            decreases cache_configs@.len() - i,
        {
            let entry = &cache_configs[i];
            let ghost domf = |p: (String, CacheConfig)| p.1.kind == CacheType::Domain;
            let ghost prefix = cache_configs@.subrange(0, i as int);
            proof {
                reveal(Seq::filter);
                assert(prefix.push(cache_configs@[i as int]) =~= cache_configs@.subrange(
                    0,
                    i + 1,
                ));
                Seq::lemma_filter_push(prefix, cache_configs@[i as int], domf);
            }
            match entry.1.kind {
                CacheType::Rule => {
                    if str_eq(entry.0.as_str(), "rule") {
                        let already = match &rule_cache {
                            Some(_) => true,
                            None => false,
                        };
                        if !already {
                            rule_cache = Some(
                                RuleCache::from_config(&entry.1, default_upstream.clone()),
                            );
                        }
                        proof {
                            assert(cache_configs@[i as int].1.kind == CacheType::Rule
                                && cache_configs@[i as int].0@ == "rule"@);
                        }
                    }
                    proof {
                        assert(!domf(cache_configs@[i as int]));
                    }
                },
                CacheType::Domain => {
                    let dc = DomainCache::from_config(&entry.1, entry.0.clone());
                    domain_caches.push((entry.0.clone(), dc));
                    proof {
                        assert(domf(cache_configs@[i as int]));
                        assert(cache_configs@.subrange(0, i + 1).filter(domf) =~= prefix.filter(
                            domf,
                        ).push(cache_configs@[i as int]));
                    }
                },
                CacheType::Cache => {
                    proof {
                        assert(!domf(cache_configs@[i as int]));
                    }
                },
            }
            i += 1;
        }
        proof {
            assert(cache_configs@.subrange(0, cache_configs@.len() as int) =~= cache_configs@);
        }
        CacheManager { rule_cache, domain_caches }
    }

    /// The cold-start protocol: validate the rule cache against the
    /// configuration; if nothing survives, the rule cache is emptied and
    /// the protocol ends; otherwise the rule cache is rebuilt from the
    /// survivors, every response cache drops the records they do not cover,
    /// and the surviving records become the warm-up list. Afterwards the
    /// root is never a rule-cache key, and every surviving response record
    /// is routed by the rule cache.
    pub fn cold_start(&mut self, cfg: &Config) -> (warm: Vec<(String, String, String, String)>)
        requires
            cfg.lists_wf(),
            old(self).wf(),
        ensures
            final(self).wf(),
            match final(self).rule_cache {
                Some(rc) => forall|i: int|
                    0 <= i < rc.entries@.len() ==> (#[trigger] rc.entries@[i]).domain@ != seq!['.'],
                None => true,
            },
            (old(self).rule_cache is None) ==> *final(self) == *old(self) && warm@.len() == 0,
            match old(self).rule_cache {
                Some(orc) => {
                    let kept = spec_kept_triples(orc, *cfg);
                    if kept.len() == 0 {
                        &&& final(self).rule_cache matches Some(rc2) && rc2.entries@.len() == 0
                        &&& final(self).domain_caches == old(self).domain_caches
                        &&& warm@.len() == 0
                    } else {
                        &&& final(self).rule_cache matches Some(rc2) && rc2.entries@.len()
                            == kept.len() && (forall|i: int|
                            0 <= i < kept.len() ==> rc2.entries@[i].domain@ == (
                            #[trigger] kept[i]).0 && rc2.entries@[i].upstream@ == kept[i].1
                                && rc2.entries@[i].cache_id@ == kept[i].2)
                        &&& final(self).domain_caches@.len() == old(self).domain_caches@.len()
                        &&& (forall|j: int|
                            0 <= j < final(self).domain_caches@.len() ==> {
                                &&& (#[trigger] final(self).domain_caches@[j]).0 == old(
                                    self,
                                ).domain_caches@[j].0
                                &&& final(self).domain_caches@[j].1.same_config(
                                    old(self).domain_caches@[j].1,
                                )
                                &&& final(self).domain_caches@[j].1.records@ == old(
                                    self,
                                ).domain_caches@[j].1.records@.filter(
                                    |rec: crate::domain_cache::CachedDnsRecord| crate::domain_cache::spec_pair_valid(
                                        kept,
                                        rec.matched_domain@,
                                        rec.upstream@,
                                    ),
                                )
                            })
                        &&& warm.deep_view() == spec_warm_list(old(self).domain_caches@, kept)
                    }
                },
                None => true,
            },
            match final(self).rule_cache {
                Some(rc) => rc.entries@.len() > 0 ==> forall|j: int, a: int|
                    0 <= j < final(self).domain_caches@.len() && 0 <= a
                        < final(self).domain_caches@[j].1.records@.len() ==> {
                        let rec = #[trigger] final(self).domain_caches@[j].1.records@[a];
                        rc.spec_has_key(rec.matched_domain@) && rc.spec_get(
                            rec.matched_domain@,
                        ).0 == rec.upstream@
                    },
                None => true,
            },
    {
        broadcast use vstd::seq_lib::group_filter_ensures;

        let valid: Vec<(String, String, String)> = match &self.rule_cache {
            Some(rc) => {
                let (v, _dropped) = rc.validate_against_rules(cfg);
                v
            },
            None => {
                return Vec::new();
            },
        };
        let ghost old_rc = old(self).rule_cache->0;
        let ghost kept = spec_kept_triples(old_rc, *cfg);
        proof {
            reveal(Seq::filter);
            assert(valid.deep_view() == kept);
            assert forall|a: int| 0 <= a < valid.deep_view().len() implies (
            #[trigger] valid.deep_view()[a]).0 != seq!['.'] by {
                let pred = |e: crate::rule_cache::RuleEntry|
                    e.domain@ != seq!['.'] && spec_key_valid(*cfg, e.domain@);
                old_rc.entries@.lemma_filter_pred(pred, a);
            }
        }
        if valid.len() == 0 {
            match &mut self.rule_cache {
                Some(rc) => {
                    rc.clear();
                },
                None => {},
            }
            return Vec::new();
        }
        let mut warm: Vec<(String, String, String, String)> = Vec::new();
        let mut j: usize = 0;
        proof {
            assert(old(self).domain_caches@.subrange(0, 0) =~= Seq::<(String, DomainCache)>::empty());
            assert(warm.deep_view() =~= spec_warm_list(
                old(self).domain_caches@.subrange(0, 0),
                kept,
            ));
        }
        while j < self.domain_caches.len()
            invariant
                j <= self.domain_caches@.len(),
                self.rule_cache == old(self).rule_cache,
                valid.deep_view() == kept,
                kept.len() > 0,
                self.domain_caches@.len() == old(self).domain_caches@.len(),
                forall|jj: int|
                    j <= jj < self.domain_caches@.len() ==> (#[trigger] self.domain_caches@[jj])
                        == old(self).domain_caches@[jj],
                forall|jj: int|
                    0 <= jj < j ==> {
                        &&& (#[trigger] self.domain_caches@[jj]).0 == old(
                            self,
                        ).domain_caches@[jj].0
                        &&& self.domain_caches@[jj].1.same_config(old(self).domain_caches@[jj].1)
                        &&& self.domain_caches@[jj].1.records@ == old(
                            self,
                        ).domain_caches@[jj].1.records@.filter(
                            |rec: crate::domain_cache::CachedDnsRecord| crate::domain_cache::spec_pair_valid(
                                kept,
                                rec.matched_domain@,
                                rec.upstream@,
                            ),
                        )
                    },
                warm.deep_view() == spec_warm_list(
                    old(self).domain_caches@.subrange(0, j as int),
                    kept,
                ),
                forall|a: int, b: int|
                    0 <= a < b < valid.deep_view().len() ==> (#[trigger] valid.deep_view()[a]).0
                        != (#[trigger] valid.deep_view()[b]).0,
                forall|a: int|
                    0 <= a < valid.deep_view().len() ==> (#[trigger] valid.deep_view()[a]).0
                        != seq!['.'],
                forall|jj: int|
                    0 <= jj < self.domain_caches@.len() ==> (
                    #[trigger] self.domain_caches@[jj]).1.wf(),
                forall|jj: int, a: int|
                    0 <= jj < j && 0 <= a < self.domain_caches@[jj].1.records@.len() ==> {
                        let rec = #[trigger] self.domain_caches@[jj].1.records@[a];
                        crate::domain_cache::spec_pair_valid(
                            valid.deep_view(),
                            rec.matched_domain@,
                            rec.upstream@,
                        )
                    },
            decreases self.domain_caches@.len() - j,
        {
            let ghost pre_records = self.domain_caches@[j as int].1.records@;
            let (_dropped, w) = self.domain_caches[j].1.validate_and_retain(&valid);
            let ghost jj = j as int;
            proof {
                broadcast use vstd::seq_lib::group_filter_ensures;

                reveal(Seq::filter);
                assert forall|a: int|
                    0 <= a < self.domain_caches@[jj].1.records@.len() implies {
                    let rec = #[trigger] self.domain_caches@[jj].1.records@[a];
                    crate::domain_cache::spec_pair_valid(
                        valid.deep_view(),
                        rec.matched_domain@,
                        rec.upstream@,
                    )
                } by {
                    let pred = |rec: crate::domain_cache::CachedDnsRecord|
                        crate::domain_cache::spec_pair_valid(
                            valid.deep_view(),
                            rec.matched_domain@,
                            rec.upstream@,
                        );
                    pre_records.lemma_filter_pred(pred, a);
                    assert(self.domain_caches@[jj].1.records@ == pre_records.filter(pred));
                }
            }
            let ghost old_warm = warm.deep_view();
            let mut w = w;
            let ghost w_view = w.deep_view();
            warm.append(&mut w);
            proof {
                assert(warm.deep_view() =~= old_warm + w_view);
                let prefix = old(self).domain_caches@.subrange(0, jj);
                lemma_warm_list_push(prefix, old(self).domain_caches@[jj], kept);
                assert(prefix.push(old(self).domain_caches@[jj]) =~= old(
                    self,
                ).domain_caches@.subrange(0, jj + 1));
                assert(w_view =~= spec_warm_of(pre_records, kept));
                assert(warm.deep_view() =~= spec_warm_list(
                    old(self).domain_caches@.subrange(0, jj + 1),
                    kept,
                ));
            }
            j += 1;
        }
        match &mut self.rule_cache {
            Some(rc) => {
                rc.rebuild_from_validated(valid);
            },
            None => {},
        }
        proof {
            assert(old(self).domain_caches@.subrange(0, old(self).domain_caches@.len() as int)
                =~= old(self).domain_caches@);
            let rc = self.rule_cache->0;
            assert forall|i: int|
                0 <= i < rc.entries@.len() implies (#[trigger] rc.entries@[i]).domain@
                != seq!['.'] by {
                assert(rc.entries@[i].domain@ == valid.deep_view()[i].0);
            }
            assert forall|jj: int, a: int|
                0 <= jj < self.domain_caches@.len() && 0 <= a
                    < self.domain_caches@[jj].1.records@.len() implies {
                let rec = #[trigger] self.domain_caches@[jj].1.records@[a];
                rc.spec_has_key(rec.matched_domain@) && rc.spec_get(rec.matched_domain@).0
                    == rec.upstream@
            } by {
                let rec = self.domain_caches@[jj].1.records@[a];
                let v = choose|v: int|
                    0 <= v < valid.deep_view().len() && (#[trigger] valid.deep_view()[v]).0
                        == rec.matched_domain@ && valid.deep_view()[v].1 == rec.upstream@;
                assert(rc.entries@[v].domain@ == rec.matched_domain@);
                rc.lemma_get_at(v);
            }
        }
        warm
    }

    /// The rule cache, if configured.
    pub fn get_rule_cache(&self) -> (r: Option<&RuleCache>)
        ensures
            match r {
                Some(rc) => self.rule_cache == Some(*rc),
                None => self.rule_cache is None,
            },
    {
        match &self.rule_cache {
            Some(rc) => Some(rc),
            None => None,
        }
    }

    /// The response cache of the given name, if configured.
    pub fn get_domain_cache(&self, name: &str) -> (r: Option<&DomainCache>)
        ensures
            match r {
                Some(dc) => exists|j: int|
                    0 <= j < self.domain_caches@.len() && (#[trigger] self.domain_caches@[j]).0@
                        == name@ && self.domain_caches@[j].1 == *dc,
                None => forall|j: int|
                    0 <= j < self.domain_caches@.len() ==> (#[trigger] self.domain_caches@[j]).0@
                        != name@,
            },
    {
        let mut j: usize = 0;
        while j < self.domain_caches.len()
            invariant
                j <= self.domain_caches@.len(),
                forall|a: int|
                    0 <= a < j ==> (#[trigger] self.domain_caches@[a]).0@ != name@,
            decreases self.domain_caches@.len() - j,
        {
            if str_eq(self.domain_caches[j].0.as_str(), name) {
                return Some(&self.domain_caches[j].1);
            }
            j += 1;
        }
        None
    }

    /// Run the expiry sweep on every response cache.
    pub fn cleanup_all_expired(&mut self, now: u64)
        requires
            old(self).wf(),
        ensures
            final(self).wf(),
            final(self).rule_cache == old(self).rule_cache,
            final(self).domain_caches@.len() == old(self).domain_caches@.len(),
            forall|j: int|
                0 <= j < final(self).domain_caches@.len() ==> (
                #[trigger] final(self).domain_caches@[j]).1.records@ == old(
                    self,
                ).domain_caches@[j].1.records@.filter(
                    |rec: crate::domain_cache::CachedDnsRecord| !rec.spec_is_expired(now),
                ),
    {
        let mut j: usize = 0;
        while j < self.domain_caches.len()
            invariant
                j <= self.domain_caches@.len(),
                self.rule_cache == old(self).rule_cache,
                self.domain_caches@.len() == old(self).domain_caches@.len(),
                match self.rule_cache {
                    Some(rc) => rc.wf(),
                    None => true,
                },
                forall|a: int|
                    0 <= a < self.domain_caches@.len() ==> (
                    #[trigger] self.domain_caches@[a]).1.wf(),
                forall|a: int|
                    j <= a < self.domain_caches@.len() ==> (#[trigger] self.domain_caches@[a])
                        == old(self).domain_caches@[a],
                forall|a: int|
                    0 <= a < j ==> (#[trigger] self.domain_caches@[a]).1.records@ == old(
                        self,
                    ).domain_caches@[a].1.records@.filter(
                        |rec: crate::domain_cache::CachedDnsRecord| !rec.spec_is_expired(now),
                    ),
            decreases self.domain_caches@.len() - j,
        {
            self.domain_caches[j].1.cleanup_expired(now);
            j += 1;
        }
    }
}

} // verus!

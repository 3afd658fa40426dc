//! The rule cache: a map from matched domains to the upstream that rule
//! matching chose for them, with depth-ordered lookup. It has no TTL; it is
//! wiped on reload and validated against the configuration at cold start.

use vstd::prelude::*;
use vstd::string::*;
use crate::config::{CacheConfig, Config, spec_parse_rule};
use crate::domain::{
    domain_depth, domain_matches, lemma_matches_depth_le, spec_domain_depth, spec_domain_matches,
};
use crate::text::str_eq;

verus! {

/// One rule-cache entry: a matched domain and what it routes to.
#[derive(Debug, Clone)]
pub struct RuleEntry {
    pub domain: String,
    pub upstream: String,
    pub cache_id: String,
}

/// The rule cache itself. `entries` is exposed so that contracts elsewhere
/// can speak of its contents; keys are kept pairwise distinct (`wf`).
#[derive(Debug)]
pub struct RuleCache {
    pub entries: Vec<RuleEntry>,
    /// Persistence file, if configured.
    pub output_path: Option<String>,
    /// Default upstream name (the last one in configuration order).
    pub default_upstream: String,
}

#[derive(Debug)]
pub struct RuleCacheStats {
    pub total: usize,
}

impl RuleCache {
    /// Keys are pairwise distinct.
    pub open spec fn wf(self) -> bool {
        forall|i: int, j: int|
            0 <= i < j < self.entries@.len() ==> (#[trigger] self.entries@[i]).domain@ != (
            #[trigger] self.entries@[j]).domain@
    }

    /// Whether some entry has this key.
    pub open spec fn spec_has_key(self, key: Seq<char>) -> bool {
        exists|i: int|
            0 <= i < self.entries@.len() && (#[trigger] self.entries@[i]).domain@ == key
    }

    /// The (upstream, cache-id) pair stored under this key.
    pub open spec fn spec_get(self, key: Seq<char>) -> (Seq<char>, Seq<char>) {
        let i = choose|i: int|
            0 <= i < self.entries@.len() && (#[trigger] self.entries@[i]).domain@ == key;
        (self.entries@[i].upstream@, self.entries@[i].cache_id@)
    }

    /// In a well-formed cache, the entry at index `i` is what lookup of its
    /// key yields.
    pub proof fn lemma_get_at(self, i: int)
        requires
            self.wf(),
            0 <= i < self.entries@.len(),
        ensures
            self.spec_has_key(self.entries@[i].domain@),
            self.spec_get(self.entries@[i].domain@) == (
                self.entries@[i].upstream@,
                self.entries@[i].cache_id@,
            ),
    {
        let key = self.entries@[i].domain@;
        assert(self.spec_has_key(key));
        let j = choose|j: int|
            0 <= j < self.entries@.len() && (#[trigger] self.entries@[j]).domain@ == key;
        if i != j {
            assert(self.entries@[i].domain@ != self.entries@[j].domain@);
        }
    }

    /// An empty rule cache.
    pub fn new() -> (r: Self)
        ensures
            r.entries@.len() == 0,
            r.wf(),
            r.output_path is None,
            r.default_upstream@ == Seq::<char>::empty(),
    {
        RuleCache { entries: Vec::new(), output_path: None, default_upstream: String::new() }
    }

    /// An empty rule cache with the persistence file and default upstream of
    /// the given configuration. Any persisted contents are brought in
    /// separately, from the file's text.
    pub fn from_config(config: &CacheConfig, default_upstream: String) -> (r: Self)
        ensures
            r.entries@.len() == 0,
            r.wf(),
            match config.output {
                Some(p) => r.output_path matches Some(q) && q@ == p@,
                None => r.output_path is None,
            },
            r.default_upstream == default_upstream,
    {
        let output_path = match &config.output {
            Some(p) => Some(p.clone()),
            None => None,
        };
        RuleCache { entries: Vec::new(), output_path, default_upstream }
    }

    /// Look a key up exactly.
    pub fn get(&self, domain: &str) -> (r: Option<(String, String)>)
        requires
            self.wf(),
        ensures
            match r {
                Some(p) => self.spec_has_key(domain@) && (p.0@, p.1@) == self.spec_get(domain@),
                None => !self.spec_has_key(domain@),
            },
    {
        let mut i: usize = 0;
        while i < self.entries.len()
            invariant
                self.wf(),
                i <= self.entries@.len(),
                forall|j: int| 0 <= j < i ==> (#[trigger] self.entries@[j]).domain@ != domain@,
            decreases self.entries@.len() - i,
        {
            if str_eq(self.entries[i].domain.as_str(), domain) {
                proof {
                    self.lemma_get_at(i as int);
                }
                return Some((self.entries[i].upstream.clone(), self.entries[i].cache_id.clone()));
            }
            i += 1;
        }
        None
    }

    /// Insert or overwrite: afterwards the key maps to exactly this pair and
    /// every other key is unchanged.
    pub fn insert(&mut self, domain: String, upstream: String, cache_id: String)
        requires
            old(self).wf(),
        ensures
            final(self).wf(),
            forall|k: Seq<char>|
                final(self).spec_has_key(k) == (old(self).spec_has_key(k) || k == domain@),
            final(self).spec_get(domain@) == (upstream@, cache_id@),
            forall|k: Seq<char>|
                k != domain@ && old(self).spec_has_key(k) ==> final(self).spec_get(k) == old(self).spec_get(k),
            final(self).entries@.len() <= old(self).entries@.len() + 1,
            final(self).output_path == old(self).output_path,
            final(self).default_upstream == old(self).default_upstream,
    {
        let ghost g_up = upstream@;
        let ghost g_cid = cache_id@;
        let entry = RuleEntry { domain, upstream, cache_id };
        let ghost key = entry.domain@;
        let mut i: usize = 0;
        while i < self.entries.len()
            invariant
                old(self).wf(),
                i <= self.entries@.len(),
                forall|j: int| 0 <= j < i ==> (#[trigger] self.entries@[j]).domain@ != key,
                *self == *old(self),
                entry.domain@ == key,
                entry.upstream@ == g_up,
                entry.cache_id@ == g_cid,
                key == domain@,
                g_up == upstream@,
                g_cid == cache_id@,
            decreases self.entries@.len() - i,
        {
            if str_eq(self.entries[i].domain.as_str(), entry.domain.as_str()) {
                proof {
                    old(self).lemma_get_at(i as int);
                }
                let ghost idx = i as int;
                let ghost prev = *self;
                let ghost g_entry = entry;
                self.entries[i] = entry;
                proof {
                    let cur = *self;
                    assert(cur.entries@ == prev.entries@.update(idx, cur.entries@[idx]));
                    assert(cur.entries@[idx] == g_entry);
                    assert(g_entry.domain@ == key && g_entry.upstream@ == g_up && g_entry.cache_id@ == g_cid);
                    assert(cur.entries@[idx].domain@ == prev.entries@[idx].domain@);
                    assert forall|a: int, b: int|
                        0 <= a < b < cur.entries@.len() implies (#[trigger] cur.entries@[a]).domain@
                        != (#[trigger] cur.entries@[b]).domain@ by {
                        assert(prev.entries@[a].domain@ != prev.entries@[b].domain@);
                        if a != idx {
                            assert(cur.entries@[a] == prev.entries@[a]);
                        }
                        if b != idx {
                            assert(cur.entries@[b] == prev.entries@[b]);
                        }
                    }
                    assert(cur.wf());
                    assert forall|k: Seq<char>|
                        cur.spec_has_key(k) == (prev.spec_has_key(k) || k == key) by {
                        if cur.spec_has_key(k) {
                            let a = choose|a: int|
                                0 <= a < cur.entries@.len() && (#[trigger] cur.entries@[a]).domain@
                                    == k;
                            if a != idx {
                                assert(prev.entries@[a].domain@ == k);
                            }
                        }
                        if prev.spec_has_key(k) {
                            let a = choose|a: int|
                                0 <= a < prev.entries@.len()
                                    && (#[trigger] prev.entries@[a]).domain@ == k;
                            if a != idx {
                                assert(cur.entries@[a].domain@ == k);
                            } else {
                                assert(k == key);
                            }
                        }
                    }
                    cur.lemma_get_at(idx);
                    assert forall|k: Seq<char>|
                        k != key && prev.spec_has_key(k) implies cur.spec_get(k) == prev.spec_get(
                        k,
                    ) by {
                        let a = choose|a: int|
                            0 <= a < prev.entries@.len() && (#[trigger] prev.entries@[a]).domain@
                                == k;
                        assert(a != idx);
                        assert(cur.entries@[a].domain@ == k);
                        prev.lemma_get_at(a);
                        cur.lemma_get_at(a);
                    }
                    assert(prev == *old(self));
                    assert(cur == *self);
                    assert(self.spec_get(key) == (g_up, g_cid));
                }
                return ;
            }
            i += 1;
        }
        let ghost n = self.entries@.len() as int;
        let ghost prev = *self;
        let ghost g_entry = entry;
        self.entries.push(entry);
        proof {
            let cur = *self;
            assert(cur.entries@ == prev.entries@.push(cur.entries@[n]));
            assert(cur.entries@[n] == g_entry);
            assert(g_entry.domain@ == key && g_entry.upstream@ == g_up && g_entry.cache_id@ == g_cid);
            assert forall|a: int, b: int|
                0 <= a < b < cur.entries@.len() implies (#[trigger] cur.entries@[a]).domain@ != (
            #[trigger] cur.entries@[b]).domain@ by {
                if b == n {
                    assert(cur.entries@[a] == prev.entries@[a]);
                }
            }
            assert(cur.wf());
            assert forall|k: Seq<char>|
                cur.spec_has_key(k) == (prev.spec_has_key(k) || k == key) by {
                if cur.spec_has_key(k) {
                    let a = choose|a: int|
                        0 <= a < cur.entries@.len() && (#[trigger] cur.entries@[a]).domain@ == k;
                    if a != n {
                        assert(prev.entries@[a].domain@ == k);
                    }
                }
                if prev.spec_has_key(k) {
                    let a = choose|a: int|
                        0 <= a < prev.entries@.len() && (#[trigger] prev.entries@[a]).domain@ == k;
                    assert(cur.entries@[a].domain@ == k);
                }
            }
            cur.lemma_get_at(n);
            assert forall|k: Seq<char>|
                k != key && prev.spec_has_key(k) implies cur.spec_get(k) == prev.spec_get(k) by {
                let a = choose|a: int|
                    0 <= a < prev.entries@.len() && (#[trigger] prev.entries@[a]).domain@ == k;
                assert(cur.entries@[a].domain@ == k);
                prev.lemma_get_at(a);
                cur.lemma_get_at(a);
            }
            assert(prev == *old(self));
            assert(cur == *self);
            assert(self.spec_get(key) == (g_up, g_cid));
        }
    }

    /// Wipe all entries; the configuration fields stay.
    pub fn clear(&mut self)
        ensures
            final(self).entries@.len() == 0,
            final(self).wf(),
            final(self).output_path == old(self).output_path,
            final(self).default_upstream == old(self).default_upstream,
    {
        self.entries.clear();
    }

    pub fn stats(&self) -> (r: RuleCacheStats)
        ensures
            r.total == self.entries@.len(),
    {
        RuleCacheStats { total: self.entries.len() }
    }

    /// All entries whose key matches `qname` in the longest-suffix sense, as
    /// (matched-domain, upstream, cache-id) triples, deepest keys first.
    pub fn get_matches_by_depth(&self, qname: &str) -> (r: Vec<(String, String, String)>)
        requires
            self.wf(),
        ensures
            forall|k: int|
                0 <= k < r.deep_view().len() ==> {
                    let t = #[trigger] r.deep_view()[k];
                    &&& spec_domain_matches(qname@, t.0)
                    &&& self.spec_has_key(t.0)
                    &&& self.spec_get(t.0) == (t.1, t.2)
                },
            forall|k1: int, k2: int|
                0 <= k1 < k2 < r.deep_view().len() ==> spec_domain_depth(
                    #[trigger] r.deep_view()[k1].0,
                ) >= spec_domain_depth(#[trigger] r.deep_view()[k2].0),
            forall|i: int|
                0 <= i < self.entries@.len() && spec_domain_matches(
                    qname@,
                    (#[trigger] self.entries@[i]).domain@,
                ) ==> exists|k: int|
                    0 <= k < r.deep_view().len() && (#[trigger] r.deep_view()[k]).0
                        == self.entries@[i].domain@,
    {
        let qd = domain_depth(qname);
        let mut r: Vec<(String, String, String)> = Vec::new();
        let mut d = qd;
        proof {
            assert forall|i: int|
                0 <= i < self.entries@.len() && spec_domain_matches(
                    qname@,
                    (#[trigger] self.entries@[i]).domain@,
                ) implies spec_domain_depth(self.entries@[i].domain@) <= qd as int by {
                lemma_matches_depth_le(qname@, self.entries@[i].domain@);
            }
        }
        loop
            invariant_except_break
                forall|k: int|
                    0 <= k < r.deep_view().len() ==> {
                        let t = #[trigger] r.deep_view()[k];
                        &&& spec_domain_matches(qname@, t.0)
                        &&& self.spec_has_key(t.0)
                        &&& self.spec_get(t.0) == (t.1, t.2)
                        &&& spec_domain_depth(t.0) >= d + 1
                    },
                forall|i: int|
                    0 <= i < self.entries@.len() && spec_domain_matches(
                        qname@,
                        (#[trigger] self.entries@[i]).domain@,
                    ) && spec_domain_depth(self.entries@[i].domain@) >= d + 1 ==> exists|k: int|
                        0 <= k < r.deep_view().len() && (#[trigger] r.deep_view()[k]).0
                            == self.entries@[i].domain@,
            invariant
                d <= qd,
                self.wf(),
                qd == spec_domain_depth(qname@),
                forall|i: int|
                    0 <= i < self.entries@.len() && spec_domain_matches(
                        qname@,
                        (#[trigger] self.entries@[i]).domain@,
                    ) ==> spec_domain_depth(self.entries@[i].domain@) <= qd as int,
                forall|k1: int, k2: int|
                    0 <= k1 < k2 < r.deep_view().len() ==> spec_domain_depth(
                        #[trigger] r.deep_view()[k1].0,
                    ) >= spec_domain_depth(#[trigger] r.deep_view()[k2].0),
            ensures
                forall|k: int|
                    0 <= k < r.deep_view().len() ==> {
                        let t = #[trigger] r.deep_view()[k];
                        &&& spec_domain_matches(qname@, t.0)
                        &&& self.spec_has_key(t.0)
                        &&& self.spec_get(t.0) == (t.1, t.2)
                    },
                forall|k1: int, k2: int|
                    0 <= k1 < k2 < r.deep_view().len() ==> spec_domain_depth(
                        #[trigger] r.deep_view()[k1].0,
                    ) >= spec_domain_depth(#[trigger] r.deep_view()[k2].0),
                forall|i: int|
                    0 <= i < self.entries@.len() && spec_domain_matches(
                        qname@,
                        (#[trigger] self.entries@[i]).domain@,
                    ) ==> exists|k: int|
                        0 <= k < r.deep_view().len() && (#[trigger] r.deep_view()[k]).0
                            == self.entries@[i].domain@,
            decreases d + 1,
        {
            let mut i: usize = 0;
            while i < self.entries.len()
                invariant
                    i <= self.entries@.len(),
                    self.wf(),
                    qd == spec_domain_depth(qname@),
                    forall|k: int|
                        0 <= k < r.deep_view().len() ==> {
                            let t = #[trigger] r.deep_view()[k];
                            &&& spec_domain_matches(qname@, t.0)
                            &&& self.spec_has_key(t.0)
                            &&& self.spec_get(t.0) == (t.1, t.2)
                            &&& spec_domain_depth(t.0) >= d
                        },
                    forall|k1: int, k2: int|
                        0 <= k1 < k2 < r.deep_view().len() ==> spec_domain_depth(
                            #[trigger] r.deep_view()[k1].0,
                        ) >= spec_domain_depth(#[trigger] r.deep_view()[k2].0),
                    forall|ii: int|
                        0 <= ii < self.entries@.len() && spec_domain_matches(
                            qname@,
                            (#[trigger] self.entries@[ii]).domain@,
                        ) && (spec_domain_depth(self.entries@[ii].domain@) >= d + 1
                            || spec_domain_depth(self.entries@[ii].domain@) == d && ii < i)
                        ==> exists|k: int|
                            0 <= k < r.deep_view().len() && (#[trigger] r.deep_view()[k]).0
                                == self.entries@[ii].domain@,
                decreases self.entries@.len() - i,
            {
                let e = &self.entries[i];
                if domain_matches(qname, e.domain.as_str()) && domain_depth(e.domain.as_str())
                    == d {
                    let ghost old_r = r.deep_view();
                    proof {
                        self.lemma_get_at(i as int);
                    }
                    r.push((e.domain.clone(), e.upstream.clone(), e.cache_id.clone()));
                    proof {
                        assert(r.deep_view() =~= old_r.push(
                            (e.domain@, e.upstream@, e.cache_id@),
                        ));
                        assert forall|ii: int|
                            0 <= ii < self.entries@.len() && spec_domain_matches(
                                qname@,
                                (#[trigger] self.entries@[ii]).domain@,
                            ) && (spec_domain_depth(self.entries@[ii].domain@) >= d + 1
                                || spec_domain_depth(self.entries@[ii].domain@) == d && ii < i
                                    + 1) implies exists|k: int|
                            0 <= k < r.deep_view().len() && (#[trigger] r.deep_view()[k]).0
                                == self.entries@[ii].domain@ by {
                            if ii == i {
                                assert(r.deep_view()[old_r.len() as int].0
                                    == self.entries@[ii].domain@);
                            } else {
                                let k = choose|k: int|
                                    0 <= k < old_r.len() && (#[trigger] old_r[k]).0
                                        == self.entries@[ii].domain@;
                                assert(r.deep_view()[k].0 == self.entries@[ii].domain@);
                            }
                        }
                    }
                }
                i += 1;
            }
            if d == 0 {
                break ;
            }
            d -= 1;
        }
        r
    }
}

/// Whether a key is a configured name or a dot-separated extension of one:
/// the retention rule of cold-start validation.
pub open spec fn spec_suffix_of(key: Seq<char>, d: Seq<char>) -> bool {
    key == d || crate::text::spec_ends_with(key, seq!['.'] + d)
}

/// Whether entry `di` of the list named by rule `i` of group `g` covers
/// this key; `servers` and `final` groups cover nothing.
pub open spec fn spec_rule_covers(cfg: Config, key: Seq<char>, g: int, i: int, di: int) -> bool {
    &&& 0 <= g < cfg.rules@.len()
    &&& cfg.rules@[g].name@ != "servers"@
    &&& cfg.rules@[g].name@ != "final"@
    &&& 0 <= i < cfg.rules@[g].rules.deep_view().len()
    &&& match spec_parse_rule(cfg.rules@[g].rules.deep_view()[i]) {
        Some(pr) => {
            &&& cfg.spec_has_list(pr.0)
            &&& 0 <= di < cfg.spec_list(pr.0).domains.deep_view().len()
            &&& spec_suffix_of(key, cfg.spec_list(pr.0).domains.deep_view()[di])
        },
        None => false,
    }
}

/// Whether some routing group's list covers this key.
pub open spec fn spec_key_valid(cfg: Config, key: Seq<char>) -> bool {
    exists|g: int, i: int, di: int| spec_rule_covers(cfg, key, g, i, di)
}

/// Whether `key` is covered by some list name of some routing group.
fn key_valid(cfg: &Config, key: &str) -> (r: bool)
    requires
        cfg.lists_wf(),
    ensures
        r == spec_key_valid(*cfg, key@),
{
    let mut g: usize = 0;
    while g < cfg.rules.len()
        invariant
            cfg.lists_wf(),
            g <= cfg.rules@.len(),
            forall|gg: int, i: int, di: int|
                gg < g ==> !#[trigger] spec_rule_covers(*cfg, key@, gg, i, di),
        decreases cfg.rules@.len() - g,
    {
        let group = &cfg.rules[g];
        let skip = str_eq(group.name.as_str(), "servers") || str_eq(group.name.as_str(), "final");
        if !skip {
            let mut i: usize = 0;
            while i < group.rules.len()
                invariant
                    cfg.lists_wf(),
                    i <= group.rules@.len(),
                    *group == cfg.rules@[g as int],
                    g < cfg.rules@.len(),
                    group.name@ != "servers"@ && group.name@ != "final"@,
                    forall|ii: int, di: int|
                        ii < i ==> !#[trigger] spec_rule_covers(*cfg, key@, g as int, ii, di),
                decreases group.rules@.len() - i,
            {
                proof {
                    assert(group.rules.deep_view()[i as int] == group.rules@[i as int]@);
                }
                match crate::config::parse_rule_string(group.rules[i].as_str()) {
                    Some(pr) => {
                        match cfg.find_list(pr.0.as_str()) {
                            Some(list) => {
                                let mut di: usize = 0;
                                while di < list.domains.len()
                                    invariant
                                        di <= list.domains@.len(),
                                        *list == cfg.spec_list(pr.0@),
                                        cfg.spec_has_list(pr.0@),
                                        g < cfg.rules@.len(),
                                        i < cfg.rules@[g as int].rules@.len(),
                                        spec_parse_rule(
                                            cfg.rules@[g as int].rules.deep_view()[i as int],
                                        ) matches Some(p) && p.0 == pr.0@,
                                        cfg.rules@[g as int].name@ != "servers"@,
                                        cfg.rules@[g as int].name@ != "final"@,
                                        forall|dd: int|
                                            0 <= dd < di ==> !spec_suffix_of(
                                                key@,
                                                #[trigger] list.domains.deep_view()[dd],
                                            ),
                                    decreases list.domains@.len() - di,
                                {
                                    let d = &list.domains[di];
                                    proof {
                                        assert(list.domains.deep_view()[di as int] == d@);
                                    }
                                    if str_eq(key, d.as_str()) {
                                        proof {
                                            assert(spec_rule_covers(
                                                *cfg,
                                                key@,
                                                g as int,
                                                i as int,
                                                di as int,
                                            ));
                                        }
                                        return true;
                                    }
                                    let mut dotted = String::new();
                                    crate::text::string_push(&mut dotted, '.');
                                    dotted.append(d.as_str());
                                    proof {
                                        assert(dotted@ =~= seq!['.'] + d@);
                                    }
                                    if crate::text::str_ends_with(key, dotted.as_str()) {
                                        proof {
                                            assert(spec_rule_covers(
                                                *cfg,
                                                key@,
                                                g as int,
                                                i as int,
                                                di as int,
                                            ));
                                        }
                                        return true;
                                    }
                                    di += 1;
                                }
                                proof {
                                    assert forall|di: int|
                                        !spec_rule_covers(*cfg, key@, g as int, i as int, di) by {
                                        if 0 <= di < list.domains.deep_view().len() {
                                            assert(!spec_suffix_of(
                                                key@,
                                                list.domains.deep_view()[di],
                                            ));
                                        }
                                    }
                                }
                            },
                            None => {
                                proof {
                                    assert(forall|di: int|
                                        !spec_rule_covers(*cfg, key@, g as int, i as int, di));
                                }
                            },
                        }
                    },
                    None => {
                        proof {
                            assert(forall|di: int|
                                !spec_rule_covers(*cfg, key@, g as int, i as int, di));
                        }
                    },
                }
                i += 1;
            }
        } else {
            proof {
                assert forall|ii: int, di: int|
                    !spec_rule_covers(*cfg, key@, g as int, ii, di) by {
                    assert(cfg.rules@[g as int].name@ == group.name@);
                }
            }
        }
        g += 1;
    }
    false
}

impl RuleCache {
    /// The retention rule of cold start: keep an entry iff its key is not
    /// the root and some routing group's list covers it. Returns the kept
    /// (matched-domain, upstream, cache-id) triples and the dropped count.
    pub fn validate_against_rules(&self, cfg: &Config) -> (r: (
        Vec<(String, String, String)>,
        usize,
    ))
        requires
            cfg.lists_wf(),
        ensures
            r.0.deep_view() == self.entries@.filter(
                |e: RuleEntry| e.domain@ != seq!['.'] && spec_key_valid(*cfg, e.domain@),
            ).map_values(|e: RuleEntry| (e.domain@, e.upstream@, e.cache_id@)),
            r.1 == self.entries@.len() - r.0.deep_view().len(),
            self.wf() ==> forall|a: int, b: int|
                0 <= a < b < r.0.deep_view().len() ==> (#[trigger] r.0.deep_view()[a]).0 != (
                #[trigger] r.0.deep_view()[b]).0,
    {
        broadcast use vstd::seq_lib::group_filter_ensures;

        let mut kept: Vec<(String, String, String)> = Vec::new();
        let mut i: usize = 0;
        proof {
            assert(self.entries@.subrange(0, 0) =~= Seq::<RuleEntry>::empty());
            reveal(Seq::filter);
            assert(kept.deep_view() =~= self.entries@.subrange(0, 0).filter(
                |e: RuleEntry| e.domain@ != seq!['.'] && spec_key_valid(*cfg, e.domain@),
            ).map_values(|e: RuleEntry| (e.domain@, e.upstream@, e.cache_id@)));
        }
        while i < self.entries.len()
            invariant
                cfg.lists_wf(),
                i <= self.entries@.len(),
                kept.deep_view() == self.entries@.subrange(0, i as int).filter(
                    |e: RuleEntry| e.domain@ != seq!['.'] && spec_key_valid(*cfg, e.domain@),
                ).map_values(|e: RuleEntry| (e.domain@, e.upstream@, e.cache_id@)),
                kept.deep_view().len() <= i,
                forall|a: int|
                    0 <= a < kept.deep_view().len() ==> exists|j: int|
                        0 <= j < i && (#[trigger] kept.deep_view()[a]).0
                            == self.entries@[j].domain@,
                self.wf() ==> forall|a: int, b: int|
                    0 <= a < b < kept.deep_view().len() ==> (#[trigger] kept.deep_view()[a]).0 != (
                    #[trigger] kept.deep_view()[b]).0,
            decreases self.entries@.len() - i,
        {
            let ghost prefix = self.entries@.subrange(0, i as int);
            let ghost old_kept = kept.deep_view();
            let e = &self.entries[i];
            let is_root = str_eq(e.domain.as_str(), ".");
            proof {
                reveal_strlit(".");
                assert("."@ =~= seq!['.']);
            }
            let keep = !is_root && key_valid(cfg, e.domain.as_str());
            if keep {
                kept.push((e.domain.clone(), e.upstream.clone(), e.cache_id.clone()));
            }
            proof {
                let pred = |e: RuleEntry| e.domain@ != seq!['.'] && spec_key_valid(*cfg, e.domain@);
                let tup = |e: RuleEntry| (e.domain@, e.upstream@, e.cache_id@);
                assert(prefix.push(self.entries@[i as int]) =~= self.entries@.subrange(0, i + 1));
                Seq::lemma_filter_push(prefix, self.entries@[i as int], pred);
                if keep {
                    assert(kept.deep_view() =~= old_kept.push(tup(self.entries@[i as int])));
                    assert(kept.deep_view() =~= self.entries@.subrange(0, i + 1).filter(
                        pred,
                    ).map_values(tup));
                    if self.wf() {
                        assert forall|a: int, b: int|
                            0 <= a < b < kept.deep_view().len() implies (
                        #[trigger] kept.deep_view()[a]).0 != (#[trigger] kept.deep_view()[b]).0 by {
                            if b == old_kept.len() as int {
                                let j = choose|j: int|
                                    0 <= j < i && (#[trigger] old_kept[a]).0
                                        == self.entries@[j].domain@;
                                assert(self.entries@[j].domain@ != self.entries@[i as int].domain@);
                            }
                        }
                    }
                } else {
                    assert(kept.deep_view() =~= self.entries@.subrange(0, i + 1).filter(
                        pred,
                    ).map_values(tup));
                }
            }
            i += 1;
        }
        proof {
            assert(self.entries@.subrange(0, self.entries@.len() as int) =~= self.entries@);
        }
        let dropped = self.entries.len() - kept.len();
        (kept, dropped)
    }

    /// Replace the whole contents with validated triples.
    pub fn rebuild_from_validated(&mut self, valid_entries: Vec<(String, String, String)>)
        requires
            forall|a: int, b: int|
                0 <= a < b < valid_entries.deep_view().len() ==> (
                #[trigger] valid_entries.deep_view()[a]).0 != (
                #[trigger] valid_entries.deep_view()[b]).0,
        ensures
            final(self).wf(),
            final(self).entries@.len() == valid_entries.deep_view().len(),
            forall|i: int|
                0 <= i < valid_entries.deep_view().len() ==> {
                    let t = #[trigger] valid_entries.deep_view()[i];
                    &&& final(self).entries@[i].domain@ == t.0
                    &&& final(self).entries@[i].upstream@ == t.1
                    &&& final(self).entries@[i].cache_id@ == t.2
                },
            final(self).output_path == old(self).output_path,
            final(self).default_upstream == old(self).default_upstream,
    {
        self.entries.clear();
        let mut i: usize = 0;
        while i < valid_entries.len()
            invariant
                i <= valid_entries@.len(),
                self.entries@.len() == i,
                forall|a: int, b: int|
                    0 <= a < b < valid_entries.deep_view().len() ==> (
                    #[trigger] valid_entries.deep_view()[a]).0 != (
                    #[trigger] valid_entries.deep_view()[b]).0,
                forall|j: int|
                    0 <= j < i ==> {
                        let t = #[trigger] valid_entries.deep_view()[j];
                        &&& self.entries@[j].domain@ == t.0
                        &&& self.entries@[j].upstream@ == t.1
                        &&& self.entries@[j].cache_id@ == t.2
                    },
                self.output_path == old(self).output_path,
                self.default_upstream == old(self).default_upstream,
            decreases valid_entries@.len() - i,
        {
            let t = &valid_entries[i];
            proof {
                assert(valid_entries.deep_view()[i as int] == (t.0@, t.1@, t.2@));
            }
            self.entries.push(
                RuleEntry { domain: t.0.clone(), upstream: t.1.clone(), cache_id: t.2.clone() },
            );
            i += 1;
        }
        proof {
            assert forall|a: int, b: int|
                0 <= a < b < self.entries@.len() implies (#[trigger] self.entries@[a]).domain@ != (
            #[trigger] self.entries@[b]).domain@ by {
                assert(self.entries@[a].domain@ == valid_entries.deep_view()[a].0);
                assert(self.entries@[b].domain@ == valid_entries.deep_view()[b].0);
            }
        }
    }
}

} // verus!

//! The rule engine: from a queried name and the listener it arrived on to
//! the upstream that answers it. Groups are tried in configuration order;
//! within a group the deepest matching suffix wins and ties go to the rule
//! declared last; when nothing matches, the final rule or a default
//! upstream takes over.

use vstd::prelude::*;
use vstd::string::*;
use crate::config::{Config, ConfigError, DomainList, RuleGroup, spec_parse_rule, parse_rule_string};
use crate::domain::{domain_labels, spec_labels, spec_suffix_at_depth, suffix_at_depth, vec_contains_str};
use crate::text::str_eq;

verus! {

/// What the engine decided for a query.
#[derive(Debug)]
pub enum Selection {
    /// A domain-based group matched: `matched_domain` is the suffix that
    /// fired, at `depth`, by the rule at `rule_index` of the group at
    /// `group_index`.
    Group {
        group: String,
        group_index: usize,
        upstream: String,
        /// The domain list named by the winning rule.
        list: String,
        matched_domain: String,
        depth: usize,
        rule_index: usize,
    },
    /// A `servers` rule matched the listener name.
    Servers { upstream: String },
    /// No group matched and the final rule takes over.
    Final,
    /// No group matched: a well-known default upstream.
    Default { upstream: String },
    /// No group matched and no default exists: the first upstream.
    Fallback { upstream: String },
}

impl Config {
    /// List names are pairwise distinct.
    pub open spec fn lists_wf(self) -> bool {
        forall|i: int, j: int|
            0 <= i < j < self.lists@.len() ==> (#[trigger] self.lists@[i]).name@ != (
            #[trigger] self.lists@[j]).name@
    }

    /// Whether a list of this name exists.
    pub open spec fn spec_has_list(self, name: Seq<char>) -> bool {
        exists|i: int| 0 <= i < self.lists@.len() && (#[trigger] self.lists@[i]).name@ == name
    }

    /// The list of this name.
    pub open spec fn spec_list(self, name: Seq<char>) -> DomainList {
        let i = choose|i: int|
            0 <= i < self.lists@.len() && (#[trigger] self.lists@[i]).name@ == name;
        self.lists@[i]
    }

    /// Whether an upstream of this name exists.
    pub open spec fn spec_has_upstream(self, name: Seq<char>) -> bool {
        exists|i: int|
            0 <= i < self.upstreams@.len() && (#[trigger] self.upstreams@[i]).name@ == name
    }

    /// The first list of the given name.
    pub fn find_list(&self, name: &str) -> (r: Option<&DomainList>)
        requires
            self.lists_wf(),
        ensures
            match r {
                Some(l) => self.spec_has_list(name@) && *l == self.spec_list(name@),
                None => !self.spec_has_list(name@),
            },
    {
        let mut i: usize = 0;
        while i < self.lists.len()
            invariant
                self.lists_wf(),
                i <= self.lists@.len(),
                forall|j: int| 0 <= j < i ==> (#[trigger] self.lists@[j]).name@ != name@,
            decreases self.lists@.len() - i,
        {
            if str_eq(self.lists[i].name.as_str(), name) {
                proof {
                    let a = choose|a: int|
                        0 <= a < self.lists@.len() && (#[trigger] self.lists@[a]).name@ == name@;
                    if a != i as int {
                        assert(self.lists@[a].name@ != self.lists@[i as int].name@);
                    }
                }
                return Some(&self.lists[i]);
            }
            i += 1;
        }
        None
    }
}

/// Whether the rule at index `i` of a group's rule list matches the labels
/// of a queried name at depth `d`: the rule parses, names a configured
/// list, and the depth-`d` suffix of the name is an element of that list.
pub open spec fn spec_rule_match_at(
    cfg: Config,
    rules: Seq<Seq<char>>,
    qlabels: Seq<Seq<char>>,
    i: int,
    d: int,
) -> bool {
    &&& 0 <= i < rules.len()
    &&& 0 <= d <= qlabels.len()
    &&& match spec_parse_rule(rules[i]) {
        Some(pr) => cfg.spec_has_list(pr.0) && cfg.spec_list(pr.0).domains.deep_view().contains(
            spec_suffix_at_depth(qlabels, d),
        ),
        None => false,
    }
}

/// The deepest depth at which the queried name's suffix is in the list, if
/// any.
fn best_depth_in_list(list: &DomainList, qlabels: &Vec<String>) -> (r: Option<(usize, String)>)
    ensures
        match r {
            Some(p) => p.0 <= qlabels.deep_view().len() && p.1@ == spec_suffix_at_depth(
                qlabels.deep_view(),
                p.0 as int,
            ) && list.domains.deep_view().contains(p.1@) && forall|dd: int|
                p.0 < dd <= qlabels.deep_view().len() ==> !list.domains.deep_view().contains(
                    spec_suffix_at_depth(qlabels.deep_view(), dd),
                ),
            None => forall|dd: int|
                0 <= dd <= qlabels.deep_view().len() ==> !list.domains.deep_view().contains(
                    spec_suffix_at_depth(qlabels.deep_view(), dd),
                ),
        },
{
    let mut d = qlabels.len();
    loop
        invariant
            d <= qlabels.deep_view().len(),
            forall|dd: int|
                d < dd <= qlabels.deep_view().len() ==> !list.domains.deep_view().contains(
                    spec_suffix_at_depth(qlabels.deep_view(), dd),
                ),
        ensures
            forall|dd: int|
                0 <= dd <= qlabels.deep_view().len() ==> !list.domains.deep_view().contains(
                    spec_suffix_at_depth(qlabels.deep_view(), dd),
                ),
        decreases d + 1,
    {
        let candidate = suffix_at_depth(qlabels, d);
        if vec_contains_str(&list.domains, candidate.as_str()) {
            return Some((d, candidate));
        }
        if d == 0 {
            break ;
        }
        d -= 1;
    }
    None
}

/// The best match of a rule group for the labels of a queried name:
/// deepest first, and among equal depths the rule declared last. The
/// result carries (upstream, matched domain, depth, rule index).
pub fn find_best_match_in_group(cfg: &Config, qlabels: &Vec<String>, rules: &Vec<String>) -> (r:
    Option<(String, String, usize, usize)>)
    requires
        cfg.lists_wf(),
    ensures
        match r {
            Some(m) => {
                &&& spec_rule_match_at(
                    *cfg,
                    rules.deep_view(),
                    qlabels.deep_view(),
                    m.3 as int,
                    m.2 as int,
                )
                &&& m.1@ == spec_suffix_at_depth(qlabels.deep_view(), m.2 as int)
                &&& spec_parse_rule(rules.deep_view()[m.3 as int]) matches Some(pr) && m.0@ == pr.1
                &&& forall|i: int, dd: int|
                    spec_rule_match_at(*cfg, rules.deep_view(), qlabels.deep_view(), i, dd) ==> dd
                        < m.2 || (dd == m.2 && i <= m.3)
            },
            None => forall|i: int, dd: int|
                !spec_rule_match_at(*cfg, rules.deep_view(), qlabels.deep_view(), i, dd),
        },
{
    let mut best: Option<(String, String, usize, usize)> = None;
    let mut ri: usize = 0;
    while ri < rules.len()
        invariant
            cfg.lists_wf(),
            ri <= rules.deep_view().len(),
            match best {
                Some(m) => {
                    &&& m.3 < ri
                    &&& spec_rule_match_at(
                        *cfg,
                        rules.deep_view(),
                        qlabels.deep_view(),
                        m.3 as int,
                        m.2 as int,
                    )
                    &&& m.1@ == spec_suffix_at_depth(qlabels.deep_view(), m.2 as int)
                    &&& spec_parse_rule(rules.deep_view()[m.3 as int]) matches Some(pr) && m.0@
                        == pr.1
                    &&& forall|i: int, dd: int|
                        i < ri && spec_rule_match_at(
                            *cfg,
                            rules.deep_view(),
                            qlabels.deep_view(),
                            i,
                            dd,
                        ) ==> dd < m.2 || (dd == m.2 && i <= m.3)
                },
                None => forall|i: int, dd: int|
                    i < ri ==> !spec_rule_match_at(
                        *cfg,
                        rules.deep_view(),
                        qlabels.deep_view(),
                        i,
                        dd,
                    ),
            },
        decreases rules.deep_view().len() - ri,
    {
        let ghost rules_v = rules.deep_view();
        let ghost qv = qlabels.deep_view();
        let parsed = parse_rule_string(rules[ri].as_str());
        proof {
            assert(rules_v[ri as int] == rules@[ri as int]@);
        }
        match parsed {
            Some(pr) => {
                match cfg.find_list(pr.0.as_str()) {
                    Some(list) => {
                        match best_depth_in_list(list, qlabels) {
                            Some(dm) => {
                                proof {
                                    assert(spec_rule_match_at(
                                        *cfg,
                                        rules_v,
                                        qv,
                                        ri as int,
                                        dm.0 as int,
                                    ));
                                    assert forall|dd: int|
                                        spec_rule_match_at(*cfg, rules_v, qv, ri as int, dd)
                                            implies dd <= dm.0 as int by {
                                        if dd > dm.0 as int {
                                            assert(!list.domains.deep_view().contains(
                                                spec_suffix_at_depth(qv, dd),
                                            ));
                                        }
                                    }
                                }
                                let replace = match &best {
                                    Some(m) => dm.0 >= m.2,
                                    None => true,
                                };
                                if replace {
                                    best = Some((pr.1, dm.1, dm.0, ri));
                                }
                            },
                            None => {
                                proof {
                                    assert forall|dd: int|
                                        !spec_rule_match_at(*cfg, rules_v, qv, ri as int, dd) by {
                                        if 0 <= dd <= qv.len() {
                                            assert(!list.domains.deep_view().contains(
                                                spec_suffix_at_depth(qv, dd),
                                            ));
                                        }
                                    }
                                }
                            },
                        }
                    },
                    None => {
                        proof {
                            assert(forall|dd: int|
                                !spec_rule_match_at(*cfg, rules_v, qv, ri as int, dd));
                        }
                    },
                }
            },
            None => {
                proof {
                    assert(forall|dd: int|
                        !spec_rule_match_at(*cfg, rules_v, qv, ri as int, dd));
                }
            },
        }
        ri += 1;
    }
    best
}

/// Whether some rule of a `servers` group names this listener.
pub open spec fn spec_servers_match(rules: Seq<Seq<char>>, listener: Seq<char>) -> bool {
    exists|i: int|
        0 <= i < rules.len() && ((#[trigger] spec_parse_rule(rules[i])) matches Some(pr) && pr.0
            == listener)
}

/// The listener name as a character sequence, where one was given.
pub open spec fn spec_opt_view(o: Option<&str>) -> Option<Seq<char>> {
    match o {
        Some(l) => Some(l@),
        None => None,
    }
}

/// A group contributes nothing to this query: a `servers` group has no rule
/// for the listener, a `final` group is skipped here, and any other group
/// has no rule matching the name at any depth.
pub open spec fn spec_group_no_hit(
    cfg: Config,
    g: RuleGroup,
    qlabels: Seq<Seq<char>>,
    listener: Option<Seq<char>>,
) -> bool {
    if g.name@ == "servers"@ {
        match listener {
            Some(l) => !spec_servers_match(g.rules.deep_view(), l),
            None => true,
        }
    } else if g.name@ == "final"@ {
        true
    } else {
        forall|i: int, d: int| !spec_rule_match_at(cfg, g.rules.deep_view(), qlabels, i, d)
    }
}

/// The built-in fallback order of default upstream names.
pub open spec fn spec_default_order() -> Seq<Seq<char>> {
    seq!["default_dns"@, "cn_dns"@, "direct_dns"@, "global_dns"@]
}

/// The upstream of the first `servers` rule naming this listener, if any.
pub fn match_server_rule(rules: &Vec<String>, listener: &str) -> (r: Option<String>)
    ensures
        match r {
            Some(up) => exists|i: int|
                #![auto]
                0 <= i < rules.deep_view().len() && spec_parse_rule(rules.deep_view()[i]) == Some(
                    (listener@, up@),
                ) && forall|j: int|
                    0 <= j < i ==> !((#[trigger] spec_parse_rule(rules.deep_view()[j])) matches Some(
                        pr,
                    ) && pr.0 == listener@),
            None => !spec_servers_match(rules.deep_view(), listener@),
        },
{
    let mut i: usize = 0;
    while i < rules.len()
        invariant
            i <= rules.deep_view().len(),
            forall|j: int|
                0 <= j < i ==> !((#[trigger] spec_parse_rule(rules.deep_view()[j])) matches Some(
                    pr,
                ) && pr.0 == listener@),
        decreases rules.deep_view().len() - i,
    {
        proof {
            assert(rules.deep_view()[i as int] == rules@[i as int]@);
        }
        match parse_rule_string(rules[i].as_str()) {
            Some(pr) => {
                if str_eq(pr.0.as_str(), listener) {
                    return Some(pr.1);
                }
            },
            None => {},
        }
        i += 1;
    }
    None
}

impl Config {
    /// Whether an upstream of this name is configured.
    pub fn has_upstream(&self, name: &str) -> (r: bool)
        ensures
            r == self.spec_has_upstream(name@),
    {
        let mut i: usize = 0;
        while i < self.upstreams.len()
            invariant
                i <= self.upstreams@.len(),
                forall|j: int| 0 <= j < i ==> (#[trigger] self.upstreams@[j]).name@ != name@,
            decreases self.upstreams@.len() - i,
        {
            if str_eq(self.upstreams[i].name.as_str(), name) {
                return true;
            }
            i += 1;
        }
        false
    }
}

/// Pick the upstream for a query: groups in configuration order, then the
/// final rule, then the first existing default upstream, then the first
/// upstream of all; an error only when nothing is configured.
pub fn select_upstream(cfg: &Config, qname: &str, listener: Option<&str>) -> (r: Result<
    Selection,
    ConfigError,
>)
    requires
        cfg.lists_wf(),
    ensures
        match r {
            Ok(sel) => match sel {
                Selection::Group {
                    group,
                    group_index,
                    upstream,
                    list,
                    matched_domain,
                    depth,
                    rule_index,
                } => {
                    let gi = group_index as int;
                    &&& gi < cfg.rules@.len()
                    &&& group@ == cfg.rules@[gi].name@
                    &&& group@ != "servers"@ && group@ != "final"@
                    &&& spec_rule_match_at(
                        *cfg,
                        cfg.rules@[gi].rules.deep_view(),
                        spec_labels(qname@),
                        rule_index as int,
                        depth as int,
                    )
                    &&& matched_domain@ == spec_suffix_at_depth(spec_labels(qname@), depth as int)
                    &&& spec_parse_rule(cfg.rules@[gi].rules.deep_view()[rule_index as int])
                        matches Some(pr) && upstream@ == pr.1 && list@ == pr.0
                    &&& forall|i: int, dd: int|
                        spec_rule_match_at(
                            *cfg,
                            cfg.rules@[gi].rules.deep_view(),
                            spec_labels(qname@),
                            i,
                            dd,
                        ) ==> dd < depth || (dd == depth && i <= rule_index)
                    &&& forall|g: int|
                        0 <= g < gi ==> spec_group_no_hit(
                            *cfg,
                            #[trigger] cfg.rules@[g],
                            spec_labels(qname@),
                            spec_opt_view(listener),
                        )
                },
                Selection::Servers { upstream } => {
                    &&& listener matches Some(l)
                    &&& exists|gi: int|
                        #![auto]
                        0 <= gi < cfg.rules@.len() && cfg.rules@[gi].name@ == "servers"@ && (exists|
                            i: int,
                        |
                            #![auto]
                            0 <= i < cfg.rules@[gi].rules.deep_view().len() && spec_parse_rule(
                                cfg.rules@[gi].rules.deep_view()[i],
                            ) == Some((l@, upstream@)) && forall|j: int|
                                0 <= j < i ==> !((#[trigger] spec_parse_rule(
                                    cfg.rules@[gi].rules.deep_view()[j],
                                )) matches Some(pr) && pr.0 == l@)) && forall|g: int|
                            0 <= g < gi ==> spec_group_no_hit(
                                *cfg,
                                #[trigger] cfg.rules@[g],
                                spec_labels(qname@),
                                spec_opt_view(listener),
                            )
                },
                Selection::Final { .. } => {
                    &&& cfg.final_rule is Some
                    &&& forall|g: int|
                        0 <= g < cfg.rules@.len() ==> spec_group_no_hit(
                            *cfg,
                            #[trigger] cfg.rules@[g],
                            spec_labels(qname@),
                            spec_opt_view(listener),
                        )
                },
                Selection::Default { upstream } => {
                    &&& cfg.final_rule is None
                    &&& forall|g: int|
                        0 <= g < cfg.rules@.len() ==> spec_group_no_hit(
                            *cfg,
                            #[trigger] cfg.rules@[g],
                            spec_labels(qname@),
                            spec_opt_view(listener),
                        )
                    &&& exists|ci: int|
                        #![auto]
                        0 <= ci < 4 && upstream@ == spec_default_order()[ci]
                            && cfg.spec_has_upstream(upstream@) && forall|cj: int|
                            0 <= cj < ci ==> !cfg.spec_has_upstream(#[trigger] spec_default_order()[cj])
                },
                Selection::Fallback { upstream } => {
                    &&& cfg.final_rule is None
                    &&& forall|g: int|
                        0 <= g < cfg.rules@.len() ==> spec_group_no_hit(
                            *cfg,
                            #[trigger] cfg.rules@[g],
                            spec_labels(qname@),
                            spec_opt_view(listener),
                        )
                    &&& forall|cj: int|
                        0 <= cj < 4 ==> !cfg.spec_has_upstream(#[trigger] spec_default_order()[cj])
                    &&& cfg.upstreams@.len() > 0
                    &&& upstream@ == cfg.upstreams@[0].name@
                },
            },
            Err(e) => {
                &&& e == ConfigError::NoUpstreams
                &&& cfg.final_rule is None
                &&& forall|g: int|
                    0 <= g < cfg.rules@.len() ==> spec_group_no_hit(
                        *cfg,
                        #[trigger] cfg.rules@[g],
                        spec_labels(qname@),
                        spec_opt_view(listener),
                    )
                &&& forall|cj: int|
                    0 <= cj < 4 ==> !cfg.spec_has_upstream(#[trigger] spec_default_order()[cj])
                &&& cfg.upstreams@.len() == 0
            },
        },
{
    let qlabels = domain_labels(qname);
    let mut g: usize = 0;
    while g < cfg.rules.len()
        invariant
            cfg.lists_wf(),
            g <= cfg.rules@.len(),
            qlabels.deep_view() == spec_labels(qname@),
            forall|j: int|
                0 <= j < g ==> spec_group_no_hit(
                    *cfg,
                    #[trigger] cfg.rules@[j],
                    spec_labels(qname@),
                    spec_opt_view(listener),
                ),
        decreases cfg.rules@.len() - g,
    {
        let group = &cfg.rules[g];
        proof {
            assert(*group == cfg.rules@[g as int]);
        }
        if str_eq(group.name.as_str(), "final") {
            proof {
                reveal_strlit("final");
                reveal_strlit("servers");
                assert(group.name@ == "final"@);
                assert("final"@.len() == 5 && "servers"@.len() == 7);
                assert("final"@ != "servers"@);
                assert(spec_group_no_hit(*cfg, *group, spec_labels(qname@), spec_opt_view(listener)));
            }
        } else if str_eq(group.name.as_str(), "servers") {
            match listener {
                Some(l) => {
                    match match_server_rule(&group.rules, l) {
                        Some(up) => {
                            return Ok(Selection::Servers { upstream: up });
                        },
                        None => {
                            proof {
                                assert(spec_opt_view(listener) == Some(l@));
                                assert(!spec_servers_match(group.rules.deep_view(), l@));
                                assert(spec_group_no_hit(*cfg, *group, spec_labels(qname@), spec_opt_view(listener)));
                            }
                        },
                    }
                },
                None => {
                    proof {
                        assert(spec_group_no_hit(*cfg, *group, spec_labels(qname@), spec_opt_view(listener)));
                    }
                },
            }
        } else {
            match find_best_match_in_group(cfg, &qlabels, &group.rules) {
                Some(m) => {
                    proof {
                        assert(group.rules.deep_view()[m.3 as int] == group.rules@[m.3 as int]@);
                    }
                    let list = match parse_rule_string(group.rules[m.3].as_str()) {
                        Some(pr) => pr.0,
                        None => String::new(),
                    };
                    return Ok(
                        Selection::Group {
                            group: group.name.clone(),
                            group_index: g,
                            upstream: m.0,
                            list,
                            matched_domain: m.1,
                            depth: m.2,
                            rule_index: m.3,
                        },
                    );
                },
                None => {
                    proof {
                        assert(group.name@ != "servers"@ && group.name@ != "final"@);
                        assert(spec_group_no_hit(*cfg, *group, spec_labels(qname@), spec_opt_view(listener)));
                    }
                },
            }
        }
        proof {
            assert(spec_group_no_hit(
                *cfg,
                cfg.rules@[g as int],
                spec_labels(qname@),
                spec_opt_view(listener),
            ));
        }
        g += 1;
    }
    match &cfg.final_rule {
        Some(_) => {
            return Ok(Selection::Final);
        },
        None => {},
    }
    proof {
        assert(spec_default_order()[0] == "default_dns"@);
        assert(spec_default_order()[1] == "cn_dns"@);
        assert(spec_default_order()[2] == "direct_dns"@);
        assert(spec_default_order()[3] == "global_dns"@);
    }
    if cfg.has_upstream("default_dns") {
        return Ok(Selection::Default { upstream: String::from_str("default_dns") });
    }
    if cfg.has_upstream("cn_dns") {
        return Ok(Selection::Default { upstream: String::from_str("cn_dns") });
    }
    if cfg.has_upstream("direct_dns") {
        return Ok(Selection::Default { upstream: String::from_str("direct_dns") });
    }
    if cfg.has_upstream("global_dns") {
        return Ok(Selection::Default { upstream: String::from_str("global_dns") });
    }
    if cfg.upstreams.len() > 0 {
        let up = cfg.upstreams[0].name.clone();
        return Ok(Selection::Fallback { upstream: up });
    }
    Err(ConfigError::NoUpstreams)
}

} // verus!

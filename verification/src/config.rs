//! The typed configuration the forwarder core works from: listeners, domain
//! lists, upstreams, ordered rule groups, the final rule, and cache settings;
//! together with the pure validation and parsing rules on it.

use vstd::prelude::*;
use vstd::string::*;
use crate::text::{
    parse_u64, spec_all_digits, spec_contains_sub, spec_digits_val, spec_eq_ci, spec_split_char,
    spec_trim, split_char, str_contains_sub, str_eq, str_eq_ci, str_rfind_char, str_trim,
};

verus! {

/// A named domain list: either inline names or the contents of a text file,
/// one entry per line.
#[derive(Debug, Clone)]
pub struct DomainList {
    /// Name the rules refer to (the map key in the configuration file).
    pub name: String,
    /// List kind: `direct`, `proxy`, `ipcidr`, ...
    pub kind: String,
    /// On-disk format; only `text` is supported.
    pub format: String,
    /// Backing file, if any.
    pub path: Option<String>,
    /// Remote source, if any (not loaded by the core).
    pub url: Option<String>,
    /// The entries themselves.
    pub domains: Vec<String>,
    /// Reload interval in seconds; 0 reloads on any change of the file.
    pub interval: u64,
    /// Hit-log file, derived from `path`.
    pub hit_path: Option<String>,
}

/// Reload bookkeeping for one domain list.
#[derive(Debug, Clone)]
pub struct DomainListReloadState {
    pub last_modified: u64,
    pub last_loaded: u64,
    pub pending_update: bool,
}

/// A named upstream: ordered addresses, optional bootstrap resolvers, and an
/// optional SOCKS5 proxy.
#[derive(Debug, Clone)]
pub struct UpstreamList {
    /// Name the rules refer to (the map key in the configuration file).
    pub name: String,
    pub addr: Vec<String>,
    pub bootstrap: Option<Vec<String>>,
    pub proxy: Option<String>,
}

/// Log settings; carried for the surrounding program, not interpreted here.
#[derive(Debug, Clone)]
pub struct LogConfig {
    pub enabled: bool,
    pub path: String,
    pub level: String,
    pub max_time: String,
    pub max_size: String,
    pub max_backups: usize,
    pub format: String,
}

/// Cold-start settings of a cache.
#[derive(Debug, Clone)]
pub struct ColdStartConfig {
    pub enabled: bool,
    /// Per-query warm-up timeout in milliseconds.
    pub timeout: u64,
    /// Warm-up parallelism.
    pub parallel: usize,
}

#[derive(Debug, Clone, Copy, PartialEq, Eq, Structural)]
pub enum CacheType {
    Rule,
    Domain,
    Cache,
}

/// Settings of one cache.
#[derive(Debug, Clone)]
pub struct CacheConfig {
    pub kind: CacheType,
    pub size: Option<usize>,
    pub min_ttl: Option<u64>,
    pub max_ttl: Option<u64>,
    pub output: Option<String>,
    pub cold_start: Option<ColdStartConfig>,
    /// Persistence cadence, e.g. `5m`.
    pub interval: String,
}

/// The final rule: country-based branching between two upstreams.
#[derive(Debug, Clone)]
pub struct FinalRule {
    pub primary_upstream: String,
    pub fallback_upstream: String,
    /// Name of the CIDR list that decides the branch.
    pub ipcidr: String,
    /// File that collects the names the final rule handled.
    pub output: Option<String>,
}

/// An ordered rule group: rule strings of the form `<list>,<upstream>`.
#[derive(Debug, Clone)]
pub struct RuleGroup {
    pub name: String,
    pub rules: Vec<String>,
}

/// The whole configuration. Rule groups keep their configuration order.
#[derive(Debug, Clone)]
pub struct Config {
    pub log: LogConfig,
    /// Listener name and port pairs.
    pub listener: Vec<(String, u16)>,
    pub lists: Vec<DomainList>,
    pub upstreams: Vec<UpstreamList>,
    pub rules: Vec<RuleGroup>,
    pub final_rule: Option<FinalRule>,
    pub timeout_secs: u64,
    /// Cache name and settings pairs.
    pub cache: Vec<(String, CacheConfig)>,
}

/// Errors of configuration validation and parsing.
#[derive(Debug, Clone, Copy, PartialEq, Eq, Structural)]
pub enum ConfigError {
    UnknownUpstream,
    NoUpstreams,
    InvalidInterval,
    InvalidListenerPort,
}

// --- defaults ---

pub fn default_timeout() -> (r: u64)
    ensures
        r == 5,
{
    5
}

pub fn default_log_enabled() -> (r: bool)
    ensures
        r == true,
{
    true
}

pub fn default_log_path() -> String {
    String::from_str("./logs/creskyDNS.log")
}

pub fn default_log_level() -> String {
    String::from_str("info")
}

pub fn default_log_max_time() -> String {
    String::from_str("7d")
}

pub fn default_log_max_size() -> String {
    String::from_str("100MB")
}

pub fn default_log_max_backups() -> (r: usize)
    ensures
        r == 10,
{
    10
}

pub fn default_log_format() -> String {
    String::from_str("|{date}|{time}|{level}|{process}|{module}|{message}|")
}

pub fn default_cold_start_timeout() -> (r: u64)
    ensures
        r == 5000,
{
    5000
}

pub fn default_cold_start_parallel() -> (r: usize)
    ensures
        r == 10,
{
    10
}

pub fn default_cache_interval() -> String {
    String::from_str("5m")
}

impl Default for LogConfig {
    fn default() -> (r: Self)
        ensures
            r.enabled == true,
            r.max_backups == 10,
    {
        LogConfig {
            enabled: default_log_enabled(),
            path: default_log_path(),
            level: default_log_level(),
            max_time: default_log_max_time(),
            max_size: default_log_max_size(),
            max_backups: default_log_max_backups(),
            format: default_log_format(),
        }
    }
}

impl Default for ColdStartConfig {
    fn default() -> (r: Self)
        ensures
            r.enabled == false,
            r.timeout == 5000,
            r.parallel == 10,
    {
        ColdStartConfig { enabled: false, timeout: default_cold_start_timeout(), parallel: default_cold_start_parallel() }
    }
}

// --- rule strings ---

/// A rule string `<list>,<upstream>` parsed into its two trimmed halves;
/// any other shape is invalid.
pub open spec fn spec_parse_rule(s: Seq<char>) -> Option<(Seq<char>, Seq<char>)> {
    let parts = spec_split_char(s, ',');
    if parts.len() == 2 {
        Some((spec_trim(parts[0]), spec_trim(parts[1])))
    } else {
        None
    }
}

/// Parse a rule string `<list>,<upstream>`.
pub fn parse_rule_string(rule_str: &str) -> (r: Option<(String, String)>)
    ensures
        match r {
            Some(p) => spec_parse_rule(rule_str@) == Some((p.0@, p.1@)),
            None => spec_parse_rule(rule_str@) is None,
        },
{
    let parts = split_char(rule_str, ',');
    if parts.len() == 2 {
        assert(parts.deep_view()[0] == parts@[0]@ && parts.deep_view()[1] == parts@[1]@);
        let a = String::from_str(str_trim(parts[0].as_str()));
        let b = String::from_str(str_trim(parts[1].as_str()));
        Some((a, b))
    } else {
        None
    }
}

// --- intervals ---

pub open spec fn spec_is_ascii_alpha(c: char) -> bool {
    65 <= c as int <= 90 || 97 <= c as int <= 122
}

/// Index of the first ASCII letter, or the length if there is none.
pub open spec fn spec_first_alpha_idx(s: Seq<char>) -> int
    decreases s.len(),
{
    if s.len() == 0 {
        0
    } else if spec_is_ascii_alpha(s[0]) {
        0
    } else {
        1 + spec_first_alpha_idx(s.subrange(1, s.len() as int))
    }
}

proof fn lemma_first_alpha_at(s: Seq<char>, i: int)
    requires
        0 <= i <= s.len(),
        forall|j: int| 0 <= j < i ==> !spec_is_ascii_alpha(#[trigger] s[j]),
        i < s.len() ==> spec_is_ascii_alpha(s[i]),
    ensures
        spec_first_alpha_idx(s) == i,
    decreases i,
{
    if s.len() == 0 {
    } else if i == 0 {
    } else {
        let t = s.subrange(1, s.len() as int);
        assert(forall|j: int| 0 <= j < i - 1 ==> !spec_is_ascii_alpha(#[trigger] t[j]));
        assert(i - 1 < t.len() ==> spec_is_ascii_alpha(t[i - 1]));
        lemma_first_alpha_at(t, i - 1);
    }
}

/// Seconds per unit of an interval string, matched up to ASCII case.
pub open spec fn spec_unit_mult(u: Seq<char>) -> Option<u64> {
    if spec_eq_ci(u, "s"@) || spec_eq_ci(u, "sec"@) || spec_eq_ci(u, "second"@) || spec_eq_ci(
        u,
        "seconds"@,
    ) {
        Some(1u64)
    } else if spec_eq_ci(u, "m"@) || spec_eq_ci(u, "min"@) || spec_eq_ci(u, "minute"@)
        || spec_eq_ci(u, "minutes"@) {
        Some(60u64)
    } else if spec_eq_ci(u, "h"@) || spec_eq_ci(u, "hour"@) || spec_eq_ci(u, "hours"@) {
        Some(3600u64)
    } else if spec_eq_ci(u, "d"@) || spec_eq_ci(u, "day"@) || spec_eq_ci(u, "days"@) {
        Some(86400u64)
    } else {
        None
    }
}

/// The seconds an interval string such as `5m` or `1h` denotes: optional
/// whitespace, digits, and a unit (seconds when absent). The empty string
/// denotes the five-minute default. Numbers that do not fit are invalid.
pub open spec fn spec_parse_interval(s: Seq<char>) -> Option<u64> {
    let t = spec_trim(s);
    if t.len() == 0 {
        Some(300u64)
    } else {
        let p = spec_first_alpha_idx(t);
        let num = t.subrange(0, p);
        let unit = if p == t.len() {
            "s"@
        } else {
            t.subrange(p, t.len() as int)
        };
        if num.len() == 0 || !spec_all_digits(num) || spec_digits_val(num) > u64::MAX {
            None
        } else {
            match spec_unit_mult(unit) {
                Some(m) => if spec_digits_val(num) * m <= u64::MAX {
                    Some((spec_digits_val(num) * m) as u64)
                } else {
                    None
                },
                None => None,
            }
        }
    }
}

fn is_ascii_alpha_char(c: char) -> (r: bool)
    ensures
        r == spec_is_ascii_alpha(c),
{
    let cu = c as u32;
    65 <= cu && cu <= 90 || 97 <= cu && cu <= 122
}

fn unit_mult(unit: &str) -> (r: Option<u64>)
    ensures
        r == spec_unit_mult(unit@),
{
    if str_eq_ci(unit, "s") || str_eq_ci(unit, "sec") || str_eq_ci(unit, "second") || str_eq_ci(
        unit,
        "seconds",
    ) {
        Some(1)
    } else if str_eq_ci(unit, "m") || str_eq_ci(unit, "min") || str_eq_ci(unit, "minute")
        || str_eq_ci(unit, "minutes") {
        Some(60)
    } else if str_eq_ci(unit, "h") || str_eq_ci(unit, "hour") || str_eq_ci(unit, "hours") {
        Some(3600)
    } else if str_eq_ci(unit, "d") || str_eq_ci(unit, "day") || str_eq_ci(unit, "days") {
        Some(86400)
    } else {
        None
    }
}

impl Config {
    /// Parse an interval string such as `5m`, `1h` or `30s` into seconds.
    pub fn parse_interval(interval: &str) -> (r: Result<u64, ConfigError>)
        ensures
            match r {
                Ok(v) => spec_parse_interval(interval@) == Some(v),
                Err(e) => spec_parse_interval(interval@) is None && e
                    == ConfigError::InvalidInterval,
            },
    {
        let t = str_trim(interval);
        let n = t.unicode_len();
        if n == 0 {
            return Ok(300);
        }
        let mut p: usize = 0;
        while p < n && !is_ascii_alpha_char(t.get_char(p))
            invariant
                p <= n,
                n == t@.len(),
                forall|j: int| 0 <= j < p ==> !spec_is_ascii_alpha(#[trigger] t@[j]),
            decreases n - p,
        {
            p += 1;
        }
        proof {
            lemma_first_alpha_at(t@, p as int);
        }
        let num = t.substring_char(0, p);
        assert(num@ == t@.subrange(0, p as int));
        let val = match parse_u64(num) {
            Some(v) => v,
            None => {
                return Err(ConfigError::InvalidInterval);
            },
        };
        let mult = if p == n {
            let m = unit_mult("s");
            assert(spec_eq_ci("s"@, "s"@));
            m
        } else {
            let unit = t.substring_char(p, n);
            unit_mult(unit)
        };
        match mult {
            Some(m) => {
                match val.checked_mul(m) {
                    Some(secs) => Ok(secs),
                    None => Err(ConfigError::InvalidInterval),
                }
            },
            None => Err(ConfigError::InvalidInterval),
        }
    }
}

// --- listener ports ---

/// The port rule of one listener: `rule` may sit on 53 or on a high port;
/// every other listener must sit on a high port.
pub open spec fn spec_listener_port_ok(name: Seq<char>, port: u16) -> bool {
    if name == "rule"@ {
        port == 53 || port >= 1025
    } else {
        port != 53 && port >= 1025
    }
}

impl Config {
    /// Check every listener's port against the port rule.
    pub fn validate_listener_ports(&self) -> (r: Result<(), ConfigError>)
        ensures
            r is Ok <==> forall|i: int|
                0 <= i < self.listener@.len() ==> spec_listener_port_ok(
                    (#[trigger] self.listener@[i]).0@,
                    self.listener@[i].1,
                ),
            r is Err ==> r->Err_0 == ConfigError::InvalidListenerPort,
    {
        let mut i: usize = 0;
        let mut ok = true;
        while i < self.listener.len()
            invariant
                i <= self.listener@.len(),
                ok <==> forall|j: int|
                    0 <= j < i ==> spec_listener_port_ok(
                        (#[trigger] self.listener@[j]).0@,
                        self.listener@[j].1,
                    ),
            decreases self.listener@.len() - i,
        {
            let name = &self.listener[i].0;
            let port = self.listener[i].1;
            let this_ok = if str_eq(name.as_str(), "rule") {
                port == 53 || port >= 1025
            } else {
                port != 53 && port >= 1025
            };
            ok = ok && this_ok;
            i += 1;
        }
        if ok {
            Ok(())
        } else {
            Err(ConfigError::InvalidListenerPort)
        }
    }

    /// The first upstream of the given name, if any is so named.
    pub fn get_upstream(&self, name: &str) -> (r: Result<&UpstreamList, ConfigError>)
        ensures
            match r {
                Ok(u) => exists|i: int|
                    0 <= i < self.upstreams@.len() && (#[trigger] self.upstreams@[i]).name@
                        == name@ && u == self.upstreams@[i] && forall|j: int|
                        0 <= j < i ==> (#[trigger] self.upstreams@[j]).name@ != name@,
                Err(e) => e == ConfigError::UnknownUpstream && forall|i: int|
                    0 <= i < self.upstreams@.len() ==> (#[trigger] self.upstreams@[i]).name@
                        != name@,
            },
    {
        let mut i: usize = 0;
        while i < self.upstreams.len()
            invariant
                i <= self.upstreams@.len(),
                forall|j: int| 0 <= j < i ==> (#[trigger] self.upstreams@[j]).name@ != name@,
            decreases self.upstreams@.len() - i,
        {
            if str_eq(self.upstreams[i].name.as_str(), name) {
                return Ok(&self.upstreams[i]);
            }
            i += 1;
        }
        Err(ConfigError::UnknownUpstream)
    }

    /// The first upstream in configuration order, used as a last resort.
    pub fn get_first_upstream(&self) -> (r: Result<&UpstreamList, ConfigError>)
        ensures
            match r {
                Ok(u) => self.upstreams@.len() > 0 && u == self.upstreams@[0],
                Err(e) => self.upstreams@.len() == 0 && e == ConfigError::NoUpstreams,
            },
    {
        if self.upstreams.len() > 0 {
            Ok(&self.upstreams[0])
        } else {
            Err(ConfigError::NoUpstreams)
        }
    }
}

// --- reload policy ---

/// When a list reloads: the file must exist, the list must have been loaded
/// once, the file's modification time must have advanced, and either the
/// list reloads on any change or its interval has elapsed.
pub open spec fn spec_should_reload(
    interval: u64,
    last_modified: u64,
    last_loaded: u64,
    current_modified: Option<u64>,
    now: u64,
) -> bool {
    match current_modified {
        Some(cm) => {
            if last_loaded == 0 {
                false
            } else if cm <= last_modified {
                false
            } else if interval == 0 {
                true
            } else {
                now >= last_loaded && now - last_loaded >= interval
            }
        },
        None => false,
    }
}

impl DomainList {
    /// Decide whether this list should reload, given the file's current
    /// modification time and the current time.
    pub fn should_reload(
        &self,
        state: &DomainListReloadState,
        current_modified: Option<u64>,
        now: u64,
    ) -> (r: bool)
        ensures
            r == spec_should_reload(
                self.interval,
                state.last_modified,
                state.last_loaded,
                current_modified,
                now,
            ),
    {
        match current_modified {
            Some(cm) => {
                if state.last_loaded == 0 {
                    false
                } else if cm <= state.last_modified {
                    false
                } else if self.interval == 0 {
                    true
                } else {
                    let elapsed = now.saturating_sub(state.last_loaded);
                    elapsed >= self.interval
                }
            },
            None => false,
        }
    }
}

// --- list files ---

/// Whether a trimmed line of a list file carries an entry: not empty and
/// not a comment.
pub open spec fn spec_list_line_kept(l: Seq<char>) -> bool {
    l.len() > 0 && l[0] != '#'
}

/// The entries a list file's text carries: one per line, trimmed, with
/// blank lines and `#` comments skipped.
pub open spec fn spec_parse_list_text(content: Seq<char>) -> Seq<Seq<char>> {
    spec_split_char(content, '\n').map_values(|l: Seq<char>| spec_trim(l)).filter(
        |l: Seq<char>| spec_list_line_kept(l),
    )
}

impl DomainList {
    /// Parse the text of a list file into its entries.
    pub fn parse_list_text(content: &str) -> (r: Vec<String>)
        ensures
            r.deep_view() == spec_parse_list_text(content@),
    {
        broadcast use vstd::seq_lib::group_filter_ensures;

        let lines = split_char(content, '\n');
        let ghost lv = lines.deep_view();
        let mut out: Vec<String> = Vec::new();
        let mut i: usize = 0;
        proof {
            reveal(Seq::filter);
            assert(lv.subrange(0, 0) =~= Seq::<Seq<char>>::empty());
            assert(lv.subrange(0, 0).map_values(|l: Seq<char>| spec_trim(l)) =~= Seq::<
                Seq<char>,
            >::empty());
            assert(out.deep_view() =~= lv.subrange(0, 0).map_values(
                |l: Seq<char>| spec_trim(l),
            ).filter(|l: Seq<char>| spec_list_line_kept(l)));
        }
        while i < lines.len()
            invariant
                i <= lv.len(),
                lines.deep_view() == lv,
                lv == spec_split_char(content@, '\n'),
                out.deep_view() == lv.subrange(0, i as int).map_values(
                    |l: Seq<char>| spec_trim(l),
                ).filter(|l: Seq<char>| spec_list_line_kept(l)),
            decreases lv.len() - i,
        {
            let ghost mapped = lv.subrange(0, i as int).map_values(|l: Seq<char>| spec_trim(l));
            let ghost old_out = out.deep_view();
            proof {
                assert(lv[i as int] == lines@[i as int]@);
            }
            let t = str_trim(lines[i].as_str());
            let keep = !t.is_empty() && {
                let c = t.get_char(0) as u32;
                c != 35
            };
            if keep {
                proof {
                    assert(t@[0] != '#');
                }
                out.push(String::from_str(t));
            }
            proof {
                let trimf = |l: Seq<char>| spec_trim(l);
                let keepf = |l: Seq<char>| spec_list_line_kept(l);
                assert(lv.subrange(0, i + 1) =~= lv.subrange(0, i as int).push(lv[i as int]));
                assert(lv.subrange(0, i + 1).map_values(trimf) =~= mapped.push(
                    spec_trim(lv[i as int]),
                ));
                Seq::lemma_filter_push(mapped, spec_trim(lv[i as int]), keepf);
                if keep {
                    assert(out.deep_view() =~= old_out.push(spec_trim(lv[i as int])));
                } else {
                    assert(!keepf(spec_trim(lv[i as int]))) by {
                        if t@.len() > 0 {
                            assert(t@[0] == '#');
                        }
                    }
                }
            }
            i += 1;
        }
        proof {
            assert(lv.subrange(0, lv.len() as int) =~= lv);
        }
        out
    }
}

/// The upstream name that rule `i` of group `g` routes this listener to:
/// the rule's second field when its first field is the listener's name.
pub open spec fn spec_listener_rule(cfg: Config, l: Seq<char>, g: int, i: int) -> Option<Seq<char>> {
    if 0 <= g < cfg.rules@.len() && 0 <= i < cfg.rules@[g].rules.deep_view().len() {
        match spec_parse_rule(cfg.rules@[g].rules.deep_view()[i]) {
            Some(pr) => if pr.0 == l {
                Some(pr.1)
            } else {
                None
            },
            None => None,
        }
    } else {
        None
    }
}

impl Config {
    /// The upstream the first rule naming this listener routes to (groups
    /// and rules in configuration order), or the first upstream when no
    /// rule names it; unknown-upstream and no-upstream errors exactly as
    /// those cases arise.
    pub fn get_upstream_for_listener(&self, listener_name: &str) -> (r: Result<
        &UpstreamList,
        ConfigError,
    >)
        ensures
            match r {
                Ok(u) => (exists|g: int, i: int|
                    #![auto]
                    spec_listener_rule(*self, listener_name@, g, i) == Some(u.name@) && forall|
                        g2: int,
                        i2: int,
                    |
                        g2 < g || (g2 == g && i2 < i) ==> (#[trigger] spec_listener_rule(
                            *self,
                            listener_name@,
                            g2,
                            i2,
                        )) is None) && (exists|j: int|
                    0 <= j < self.upstreams@.len() && *u == #[trigger] self.upstreams@[j]
                        && forall|jj: int|
                        0 <= jj < j ==> (#[trigger] self.upstreams@[jj]).name@ != u.name@) || (
                forall|g: int, i: int|
                    (#[trigger] spec_listener_rule(*self, listener_name@, g, i)) is None)
                    && self.upstreams@.len() > 0 && *u == self.upstreams@[0],
                Err(e) => (e == ConfigError::UnknownUpstream && exists|g: int, i: int|
                    #![auto]
                    spec_listener_rule(*self, listener_name@, g, i) is Some
                        && !self.spec_has_upstream(
                        spec_listener_rule(*self, listener_name@, g, i)->0,
                    ) && forall|g2: int, i2: int|
                        g2 < g || (g2 == g && i2 < i) ==> (#[trigger] spec_listener_rule(
                            *self,
                            listener_name@,
                            g2,
                            i2,
                        )) is None) || (e == ConfigError::NoUpstreams && forall|g: int, i: int|
                    (#[trigger] spec_listener_rule(*self, listener_name@, g, i)) is None
                        && self.upstreams@.len() == 0),
            },
    {
        let mut g: usize = 0;
        while g < self.rules.len()
            invariant
                g <= self.rules@.len(),
                forall|g2: int, i2: int|
                    g2 < g ==> (#[trigger] spec_listener_rule(*self, listener_name@, g2, i2))
                        is None,
            decreases self.rules@.len() - g,
        {
            let group = &self.rules[g];
            let mut i: usize = 0;
            while i < group.rules.len()
                invariant
                    i <= group.rules@.len(),
                    g < self.rules@.len(),
                    *group == self.rules@[g as int],
                    forall|g2: int, i2: int|
                        g2 < g ==> (#[trigger] spec_listener_rule(*self, listener_name@, g2, i2))
                            is None,
                    forall|i2: int|
                        i2 < i ==> (#[trigger] spec_listener_rule(
                            *self,
                            listener_name@,
                            g as int,
                            i2,
                        )) is None,
                decreases group.rules@.len() - i,
            {
                proof {
                    assert(group.rules.deep_view()[i as int] == group.rules@[i as int]@);
                }
                match parse_rule_string(group.rules[i].as_str()) {
                    Some(pr) => {
                        if str_eq(pr.0.as_str(), listener_name) {
                            proof {
                                assert(spec_listener_rule(
                                    *self,
                                    listener_name@,
                                    g as int,
                                    i as int,
                                ) == Some(pr.1@));
                            }
                            let found = self.get_upstream(pr.1.as_str());
                            match found {
                                Ok(u) => {
                                    return Ok(u);
                                },
                                Err(e) => {
                                    return Err(e);
                                },
                            }
                        } else {
                            proof {
                                assert(spec_listener_rule(
                                    *self,
                                    listener_name@,
                                    g as int,
                                    i as int,
                                ) is None);
                            }
                        }
                    },
                    None => {
                        proof {
                            assert(spec_listener_rule(*self, listener_name@, g as int, i as int)
                                is None);
                        }
                    },
                }
                i += 1;
            }
            proof {
                assert forall|i2: int|
                    (#[trigger] spec_listener_rule(*self, listener_name@, g as int, i2))
                        is None by {
                    if 0 <= i2 < group.rules@.len() {
                    }
                }
            }
            g += 1;
        }
        proof {
            assert forall|g2: int, i2: int|
                (#[trigger] spec_listener_rule(*self, listener_name@, g2, i2)) is None by {
                if 0 <= g2 < self.rules@.len() {
                }
            }
        }
        match self.get_first_upstream() {
            Ok(u) => Ok(u),
            Err(e) => Err(e),
        }
    }
}

// --- hit files ---

/// The start of a path's final component: just after its last slash, or
/// the start of the path.
pub open spec fn spec_after_last_slash(p: Seq<char>) -> int {
    if p.contains('/') {
        (choose|i: int|
            0 <= i < p.len() && p[i] == '/' && forall|j: int| i < j < p.len() ==> p[j] != '/') + 1
    } else {
        0
    }
}

/// The length of a file name's stem: up to its last dot, except that a
/// dot in first position keeps the whole name.
pub open spec fn spec_stem_len(name: Seq<char>) -> int {
    if name.contains('.') {
        let d = choose|i: int|
            0 <= i < name.len() && name[i] == '.' && forall|j: int|
                i < j < name.len() ==> name[j] != '.';
        if d == 0 {
            name.len() as int
        } else {
            d
        }
    } else {
        name.len() as int
    }
}

/// The hit file next to a list file: the same directory, the file's stem,
/// and `.hit.txt`; `./` stands in when the path has no directory part.
pub open spec fn spec_hit_path_of_file(p: Seq<char>) -> Seq<char> {
    let b = spec_after_last_slash(p);
    let name = p.subrange(b, p.len() as int);
    let stem = name.subrange(0, spec_stem_len(name));
    let dir = if b == 0 {
        "./"@
    } else {
        p.subrange(0, b)
    };
    dir + stem + ".hit.txt"@
}

/// The hit file of a list without a backing file: named after the list,
/// in the working directory.
pub open spec fn spec_hit_path_of_name(n: Seq<char>) -> Seq<char> {
    "./"@ + n + ".hit.txt"@
}

impl DomainList {
    /// Where this list's hits are appended: derived from the list file's
    /// path, or from the list's name when it has none. A list whose file
    /// path already holds `.hit.` gets no hit file, so hit files never
    /// feed themselves.
    pub fn hit_file_path(&self) -> (r: Option<String>)
        ensures
            match r {
                Some(h) => match self.path {
                    Some(p) => !spec_contains_sub(p@, ".hit."@) && h@ == spec_hit_path_of_file(p@),
                    None => h@ == spec_hit_path_of_name(self.name@),
                },
                None => self.path matches Some(p) && spec_contains_sub(p@, ".hit."@),
            },
    {
        match &self.path {
            Some(p) => {
                if str_contains_sub(p.as_str(), ".hit.") {
                    return None;
                }
                let pn = p.as_str().unicode_len();
                let b: usize = match str_rfind_char(p.as_str(), '/') {
                    Some(i) => {
                        proof {
                            assert(p@.contains('/')) by {
                                assert(p@[i as int] == '/');
                            }
                            let w = choose|w: int|
                                0 <= w < p@.len() && p@[w] == '/' && forall|j: int|
                                    w < j < p@.len() ==> p@[j] != '/';
                            if w != i as int {
                                assert(p@[w] == '/');
                            }
                        }
                        i + 1
                    },
                    None => 0,
                };
                proof {
                    assert(b as int == spec_after_last_slash(p@));
                }
                let name = p.as_str().substring_char(b, pn);
                proof {
                    assert(name@ == p@.subrange(b as int, p@.len() as int));
                }
                let nn = name.unicode_len();
                let stem_end: usize = match str_rfind_char(name, '.') {
                    Some(d) => {
                        proof {
                            assert(name@.contains('.')) by {
                                assert(name@[d as int] == '.');
                            }
                            let w = choose|w: int|
                                0 <= w < name@.len() && name@[w] == '.' && forall|j: int|
                                    w < j < name@.len() ==> name@[j] != '.';
                            if w != d as int {
                                assert(name@[w] == '.');
                            }
                        }
                        if d == 0 {
                            nn
                        } else {
                            d
                        }
                    },
                    None => nn,
                };
                proof {
                    assert(stem_end as int == spec_stem_len(name@));
                }
                let stem = name.substring_char(0, stem_end);
                let mut h = if b == 0 {
                    String::from_str("./")
                } else {
                    String::from_str(p.as_str().substring_char(0, b))
                };
                h.append(stem);
                h.append(".hit.txt");
                proof {
                    assert(h@ =~= spec_hit_path_of_file(p@));
                }
                Some(h)
            },
            None => {
                let mut h = String::from_str("./");
                h.append(self.name.as_str());
                h.append(".hit.txt");
                proof {
                    assert(h@ =~= spec_hit_path_of_name(self.name@));
                }
                Some(h)
            },
        }
    }
}

} // verus!

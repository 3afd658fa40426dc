//! The textual rules of the logging subsystem: size strings such as
//! `100MB`, and the level/module/message split of a rendered log line.
//! Rotation and file handling live outside the library.

use vstd::prelude::*;
use vstd::string::*;
use crate::text::{
    parse_u64, spec_all_digits, spec_digits_val, spec_eq_ci, spec_is_ws, spec_lower_int,
    spec_nonempty, spec_sub_at, spec_trim, str_eq_ci, str_trim, string_push,
};

verus! {

/// Whether `s` ends with `suffix` up to ASCII case.
pub open spec fn spec_ends_with_ci(s: Seq<char>, suffix: Seq<char>) -> bool {
    s.len() >= suffix.len() && spec_eq_ci(s.subrange(s.len() - suffix.len(), s.len() as int), suffix)
}

fn str_ends_with_ci(s: &str, suffix: &str) -> (r: bool)
    ensures
        r == spec_ends_with_ci(s@, suffix@),
{
    let n = s.unicode_len();
    let m = suffix.unicode_len();
    if m > n {
        return false;
    }
    let off = n - m;
    let mut i: usize = 0;
    while i < m
        invariant
            i <= m,
            m <= n,
            off == n - m,
            n == s@.len(),
            m == suffix@.len(),
            forall|j: int|
                0 <= j < i ==> spec_lower_int(s@[off + j]) == spec_lower_int(#[trigger] suffix@[j]),
        decreases m - i,
    {
        let ca = s.get_char(off + i) as u32;
        let cb = suffix.get_char(i) as u32;
        let la = if 65 <= ca && ca <= 90 {
            ca + 32
        } else {
            ca
        };
        let lb = if 65 <= cb && cb <= 90 {
            cb + 32
        } else {
            cb
        };
        if la != lb {
            proof {
                let sub = s@.subrange(s@.len() - suffix@.len(), s@.len() as int);
                assert(sub[i as int] == s@[off + i]);
            }
            return false;
        }
        i += 1;
    }
    proof {
        let sub = s@.subrange(s@.len() - suffix@.len(), s@.len() as int);
        assert(forall|j: int| 0 <= j < m ==> #[trigger] sub[j] == s@[off + j]);
    }
    true
}

/// The bytes a size string such as `100MB`, `1GB` or `500KB` denotes: a
/// number with an optional binary-prefixed unit, read case-insensitively,
/// whitespace tolerated around both parts. Numbers that do not fit are
/// invalid.
pub open spec fn spec_parse_size(s: Seq<char>) -> Option<u64> {
    let t = spec_trim(s);
    if spec_ends_with_ci(t, "GB"@) {
        spec_size_with_unit(spec_trim(t.subrange(0, t.len() - 2)), 0x40000000u64)
    } else if spec_ends_with_ci(t, "MB"@) {
        spec_size_with_unit(spec_trim(t.subrange(0, t.len() - 2)), 0x100000u64)
    } else if spec_ends_with_ci(t, "KB"@) {
        spec_size_with_unit(spec_trim(t.subrange(0, t.len() - 2)), 0x400u64)
    } else {
        spec_size_with_unit(t, 1u64)
    }
}

/// A digit string scaled by a unit, where everything fits.
pub open spec fn spec_size_with_unit(num: Seq<char>, unit: u64) -> Option<u64> {
    if num.len() > 0 && spec_all_digits(num) && spec_digits_val(num) <= u64::MAX && spec_digits_val(
        num,
    ) * unit <= u64::MAX {
        Some((spec_digits_val(num) * unit) as u64)
    } else {
        None
    }
}

fn size_with_unit(num: &str, unit: u64) -> (r: Option<u64>)
    ensures
        r == spec_size_with_unit(num@, unit),
{
    match parse_u64(num) {
        Some(v) => {
            match v.checked_mul(unit) {
                Some(b) => Some(b),
                None => None,
            }
        },
        None => None,
    }
}

/// Parse a size string such as `100MB` into bytes.
pub fn parse_size(s: &str) -> (r: Option<u64>)
    ensures
        r == spec_parse_size(s@),
{
    let t = str_trim(s);
    let n = t.unicode_len();
    proof {
        reveal_strlit("GB");
        reveal_strlit("MB");
        reveal_strlit("KB");
        assert("GB"@.len() == 2 && "MB"@.len() == 2 && "KB"@.len() == 2);
    }
    if str_ends_with_ci(t, "GB") {
        let num = str_trim(t.substring_char(0, n - 2));
        size_with_unit(num, 0x40000000)
    } else if str_ends_with_ci(t, "MB") {
        let num = str_trim(t.substring_char(0, n - 2));
        size_with_unit(num, 0x100000)
    } else if str_ends_with_ci(t, "KB") {
        let num = str_trim(t.substring_char(0, n - 2));
        size_with_unit(num, 0x400)
    } else {
        size_with_unit(t, 1)
    }
}

// --- log lines ---

/// Splitting at every whitespace character, keeping empty pieces.
pub open spec fn spec_split_ws(s: Seq<char>) -> Seq<Seq<char>>
    decreases s.len(),
{
    if s.len() == 0 {
        seq![Seq::<char>::empty()]
    } else if spec_is_ws(s[0]) {
        seq![Seq::<char>::empty()] + spec_split_ws(s.subrange(1, s.len() as int))
    } else {
        let rest = spec_split_ws(s.subrange(1, s.len() as int));
        seq![seq![s[0]] + rest[0]] + rest.subrange(1, rest.len() as int)
    }
}

proof fn lemma_split_ws_len_pos(s: Seq<char>)
    ensures
        spec_split_ws(s).len() >= 1,
    decreases s.len(),
{
    if s.len() == 0 {
    } else if spec_is_ws(s[0]) {
    } else {
        lemma_split_ws_len_pos(s.subrange(1, s.len() as int));
    }
}

/// The whitespace-separated tokens of a line.
pub open spec fn spec_tokens(s: Seq<char>) -> Seq<Seq<char>> {
    spec_nonempty(spec_split_ws(s))
}

spec fn spec_split_ws_acc(pre: Seq<char>, ps: Seq<Seq<char>>) -> Seq<Seq<char>> {
    seq![pre + ps[0]] + ps.subrange(1, ps.len() as int)
}

fn is_ws_char2(c: char) -> (r: bool)
    ensures
        r == spec_is_ws(c),
{
    c == ' ' || c == '\t' || c == '\r' || c == '\n'
}

/// The whitespace-separated tokens of `s`, in order.
pub fn tokens_of(s: &str) -> (r: Vec<String>)
    ensures
        r.deep_view() == spec_tokens(s@),
{
    broadcast use vstd::seq_lib::group_filter_ensures;

    let n = s.unicode_len();
    let mut parts: Vec<String> = Vec::new();
    let mut cur: String = String::new();
    let mut i: usize = 0;
    proof {
        assert(s@.subrange(0, s@.len() as int) =~= s@);
    }
    while i < n
        invariant
            i <= n,
            n == s@.len(),
            spec_split_ws(s@) =~= parts.deep_view() + spec_split_ws_acc(
                cur@,
                spec_split_ws(s@.subrange(i as int, s@.len() as int)),
            ),
        decreases n - i,
    {
        proof {
            let t = s@.subrange(i as int, s@.len() as int);
            assert(t[0] == s@[i as int]);
            assert(t.subrange(1, t.len() as int) =~= s@.subrange(i + 1, s@.len() as int));
            lemma_split_ws_len_pos(s@.subrange(i + 1, s@.len() as int));
        }
        let ghost old_parts = parts.deep_view();
        let ghost old_cur = cur@;
        let ghost rest1 = spec_split_ws(s@.subrange(i + 1, s@.len() as int));
        let ch = s.get_char(i);
        if is_ws_char2(ch) {
            parts.push(cur);
            cur = String::new();
            proof {
                assert(parts.deep_view() =~= old_parts.push(old_cur));
                assert(rest1 =~= seq![rest1[0]] + rest1.subrange(1, rest1.len() as int));
                assert(parts.deep_view() + spec_split_ws_acc(cur@, rest1) =~= old_parts
                    + spec_split_ws_acc(old_cur, seq![Seq::<char>::empty()] + rest1));
            }
        } else {
            string_push(&mut cur, ch);
            proof {
                let rest = seq![seq![s@[i as int]] + rest1[0]] + rest1.subrange(
                    1,
                    rest1.len() as int,
                );
                assert(cur@ + rest1[0] =~= old_cur + rest[0]);
                assert(parts.deep_view() + spec_split_ws_acc(cur@, rest1) =~= old_parts
                    + spec_split_ws_acc(old_cur, rest));
            }
        }
        i += 1;
    }
    proof {
        assert(s@.subrange(n as int, s@.len() as int) =~= Seq::<char>::empty());
        assert(spec_split_ws(Seq::<char>::empty()) == seq![Seq::<char>::empty()]);
        assert(spec_split_ws_acc(cur@, seq![Seq::<char>::empty()]) =~= seq![cur@]);
    }
    let ghost old_parts = parts.deep_view();
    let ghost final_cur = cur@;
    parts.push(cur);
    proof {
        assert(parts.deep_view() =~= old_parts.push(final_cur));
        assert(parts.deep_view() =~= spec_split_ws(s@));
    }
    crate::text::filter_nonempty(&parts)
}

/// The canonical level a token names, up to ASCII case.
pub open spec fn spec_level_of(t: Seq<char>) -> Option<Seq<char>> {
    if spec_eq_ci(t, "TRACE"@) {
        Some("TRACE"@)
    } else if spec_eq_ci(t, "DEBUG"@) {
        Some("DEBUG"@)
    } else if spec_eq_ci(t, "INFO"@) {
        Some("INFO"@)
    } else if spec_eq_ci(t, "WARN"@) {
        Some("WARN"@)
    } else if spec_eq_ci(t, "ERROR"@) {
        Some("ERROR"@)
    } else {
        None
    }
}

fn level_of(t: &str) -> (r: Option<String>)
    ensures
        match r {
            Some(l) => spec_level_of(t@) == Some(l@),
            None => spec_level_of(t@) is None,
        },
{
    if str_eq_ci(t, "TRACE") {
        Some(String::from_str("TRACE"))
    } else if str_eq_ci(t, "DEBUG") {
        Some(String::from_str("DEBUG"))
    } else if str_eq_ci(t, "INFO") {
        Some(String::from_str("INFO"))
    } else if str_eq_ci(t, "WARN") {
        Some(String::from_str("WARN"))
    } else if str_eq_ci(t, "ERROR") {
        Some(String::from_str("ERROR"))
    } else {
        None
    }
}

/// The module/message split after a level token: the text after the first
/// occurrence of the token splits at its first colon into module and
/// message, both trimmed; without a colon the module reads `main` and the
/// whole trimmed rest is the message; a token that never occurs leaves
/// `main` and the trimmed line.
pub open spec fn spec_module_msg_split(
    line: Seq<char>,
    token: Seq<char>,
    module: Seq<char>,
    msg: Seq<char>,
) -> bool {
    if !(exists|i: int| spec_sub_at(line, token, i)) {
        module == "main"@ && msg == spec_trim(line)
    } else {
        exists|i: int|
            #![auto]
            spec_sub_at(line, token, i) && (forall|j: int|
                0 <= j < i ==> !spec_sub_at(line, token, j)) && {
                let after = line.subrange(i + token.len(), line.len() as int);
                if after.contains(':') {
                    exists|ci: int|
                        #![auto]
                        0 <= ci < after.len() && after[ci] == ':' && (forall|cj: int|
                            0 <= cj < ci ==> after[cj] != ':') && module == spec_trim(
                            after.subrange(0, ci),
                        ) && msg == spec_trim(after.subrange(ci + 1, after.len() as int))
                } else {
                    module == "main"@ && msg == spec_trim(after)
                }
            }
    }
}

/// Split a rendered log line into level, module and message: the first
/// whitespace token naming a level decides the level; the text after that
/// token splits at its first colon into module and message, both trimmed;
/// without a colon the module is `main` and the whole rest the message;
/// without a level the line is an `INFO` message of module `main`.
pub fn parse_log_line(line: &str) -> (r: (String, String, String))
    ensures
        ({
            let toks = spec_tokens(line@);
            (exists|i: int| 0 <= i < toks.len() && spec_level_of(#[trigger] toks[i]) is Some)
                ==> exists|i: int|
                #![auto]
                0 <= i < toks.len() && spec_level_of(toks[i]) == Some(r.0@) && (forall|j: int|
                    0 <= j < i ==> spec_level_of(toks[j]) is None) && spec_module_msg_split(
                    line@,
                    toks[i],
                    r.1@,
                    r.2@,
                )
        }),
        ({
            let toks = spec_tokens(line@);
            (forall|i: int| 0 <= i < toks.len() ==> spec_level_of(#[trigger] toks[i]) is None)
                ==> r.0@ == "INFO"@ && r.1@ == "main"@ && r.2@ == line@
        }),
{
    broadcast use vstd::seq_lib::group_filter_ensures;

    let toks = tokens_of(line);
    let mut ti: usize = 0;
    while ti < toks.len()
        invariant
            ti <= toks.deep_view().len(),
            toks.deep_view() == spec_tokens(line@),
            forall|j: int| 0 <= j < ti ==> spec_level_of(#[trigger] toks.deep_view()[j]) is None,
        decreases toks.deep_view().len() - ti,
    {
        proof {
            assert(toks.deep_view()[ti as int] == toks@[ti as int]@);
            reveal(Seq::filter);
            spec_split_ws(line@).lemma_filter_pred(|p: Seq<char>| p.len() > 0, ti as int);
            assert(toks.deep_view()[ti as int].len() > 0);
        }
        match level_of(toks[ti].as_str()) {
            Some(level) => {
                let (module, msg) = split_after_token(line, toks[ti].as_str());
                return (level, module, msg);
            },
            None => {},
        }
        ti += 1;
    }
    (String::from_str("INFO"), String::from_str("main"), String::from_str(line))
}

/// The module and message after the level token, per
/// `spec_module_msg_split`.
fn split_after_token(line: &str, token: &str) -> (r: (String, String))
    requires
        token@.len() > 0,
    ensures
        spec_module_msg_split(line@, token@, r.0@, r.1@),
{
    let n = line.unicode_len();
    let m = token.unicode_len();
    if m > n {
        proof {
            if exists|i: int| spec_sub_at(line@, token@, i) {
                let i = choose|i: int| spec_sub_at(line@, token@, i);
            }
        }
        return (String::from_str("main"), String::from_str(str_trim(line)));
    }
    let limit = n - m;
    let mut start: usize = 0;
    let mut pos: usize = 0;
    let mut found = false;
    loop
        invariant_except_break
            !found,
        invariant
            pos <= limit,
            limit == n - m,
            m <= n,
            m >= 1,
            n == line@.len(),
            m == token@.len(),
            forall|p: int| 0 <= p < pos ==> !spec_sub_at(line@, token@, p),
        ensures
            found ==> start == pos + m && pos <= limit && spec_sub_at(line@, token@, pos as int)
                && forall|p: int| 0 <= p < pos ==> !spec_sub_at(line@, token@, p),
            !found ==> forall|p: int| 0 <= p <= limit ==> !spec_sub_at(line@, token@, p),
        decreases limit - pos,
    {
        let piece = line.substring_char(pos, pos + m);
        if crate::text::str_eq(piece, token) {
            proof {
                assert(piece@ == line@.subrange(pos as int, pos + m));
                assert(spec_sub_at(line@, token@, pos as int));
            }
            start = pos + m;
            found = true;
            break ;
        }
        proof {
            assert(piece@ == line@.subrange(pos as int, pos + m));
            assert(!spec_sub_at(line@, token@, pos as int));
        }
        if pos == limit {
            break ;
        }
        pos += 1;
    }
    if !found {
        proof {
            if exists|i: int| spec_sub_at(line@, token@, i) {
                let i = choose|i: int| spec_sub_at(line@, token@, i);
                assert(i <= limit as int);
            }
        }
        return (String::from_str("main"), String::from_str(str_trim(line)));
    }
    let after = line.substring_char(start, n);
    proof {
        assert(after@ == line@.subrange(start as int, line@.len() as int));
    }
    match crate::text::str_find_char(after, ':') {
        Some(ci) => {
            proof {
                assert(after@.contains(':')) by {
                    assert(after@[ci as int] == ':');
                }
            }
            let am = after.unicode_len();
            let module = str_trim(after.substring_char(0, ci));
            let msg = str_trim(after.substring_char(ci + 1, am));
            (String::from_str(module), String::from_str(msg))
        },
        None => {
            (String::from_str("main"), String::from_str(str_trim(after)))
        },
    }
}

} // verus!

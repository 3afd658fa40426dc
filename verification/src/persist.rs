//! Cache persistence as text: `|`-delimited lines, one entry each, with
//! rendering and parsing proved inverse to each other. File reading and
//! writing stay outside the library; everything here is from and to
//! strings.

use vstd::prelude::*;
use vstd::string::*;
use hickory_proto::op::Message;
use crate::dns::spec_msg_answer_rdata;
use crate::domain_cache::{clone_record, spec_sat_add, CachedDnsRecord, DomainCache};
use crate::rule_cache::{RuleCache, RuleEntry};
use crate::text::{
    filter_nonempty, join_char, lemma_split_append_sep, lemma_str_le_total, lemma_str_le_trans,
    parse_u64, spec_all_digits, spec_digit_val, spec_digits_val, spec_is_digit, spec_join_char,
    spec_nonempty, spec_split_char, spec_str_le, split_char, str_contains_char, str_le,
    string_push,
};

verus! {

// --- rendering numbers ---

/// The decimal digit character of a value below ten.
pub open spec fn spec_digit_char(d: nat) -> char {
    if d == 0 {
        '0'
    } else if d == 1 {
        '1'
    } else if d == 2 {
        '2'
    } else if d == 3 {
        '3'
    } else if d == 4 {
        '4'
    } else if d == 5 {
        '5'
    } else if d == 6 {
        '6'
    } else if d == 7 {
        '7'
    } else if d == 8 {
        '8'
    } else {
        '9'
    }
}

/// The decimal rendering of a number, most significant digit first.
pub open spec fn spec_u64_chars(n: nat) -> Seq<char>
    decreases n,
{
    if n < 10 {
        seq![spec_digit_char(n)]
    } else {
        spec_u64_chars(n / 10).push(spec_digit_char(n % 10))
    }
}

/// A decimal rendering reads back as the number it renders.
pub proof fn lemma_u64_chars_val(n: nat)
    ensures
        spec_u64_chars(n).len() >= 1,
        spec_all_digits(spec_u64_chars(n)),
        spec_digits_val(spec_u64_chars(n)) == n,
        !spec_u64_chars(n).contains('|'),
        !spec_u64_chars(n).contains('\n'),
    decreases n,
{
    if n < 10 {
        assert(spec_is_digit(spec_digit_char(n)));
        assert(spec_digit_val(spec_digit_char(n)) == n);
        assert(spec_digits_val(spec_u64_chars(n)) == spec_digits_val(
            spec_u64_chars(n).drop_last(),
        ) * 10 + spec_digit_val(spec_u64_chars(n).last()));
        assert(spec_u64_chars(n).drop_last() =~= Seq::<char>::empty());
        assert(spec_u64_chars(n)[0] != '|' && spec_u64_chars(n)[0] != '\n');
        assert forall|i: int| 0 <= i < spec_u64_chars(n).len() implies spec_u64_chars(n)[i] != '|'
            && spec_u64_chars(n)[i] != '\n' by {}
        if spec_u64_chars(n).contains('|') {
            let i = choose|i: int|
                0 <= i < spec_u64_chars(n).len() && spec_u64_chars(n)[i] == '|';
        }
        if spec_u64_chars(n).contains('\n') {
            let i = choose|i: int|
                0 <= i < spec_u64_chars(n).len() && spec_u64_chars(n)[i] == '\n';
        }
    } else {
        lemma_u64_chars_val(n / 10);
        let prefix = spec_u64_chars(n / 10);
        let whole = spec_u64_chars(n);
        assert(whole == prefix.push(spec_digit_char(n % 10)));
        assert(whole.drop_last() =~= prefix);
        assert(whole.last() == spec_digit_char(n % 10));
        assert(spec_digit_val(spec_digit_char(n % 10)) == n % 10);
        assert(spec_digits_val(whole) == spec_digits_val(prefix) * 10 + n % 10);
        assert(n / 10 * 10 + n % 10 == n) by {
            vstd::arithmetic::div_mod::lemma_fundamental_div_mod(n as int, 10);
        }
        assert forall|i: int| 0 <= i < whole.len() implies whole[i] != '|' && whole[i] != '\n' by {
            if i < prefix.len() {
                assert(whole[i] == prefix[i]);
                if prefix.contains('|') || prefix.contains('\n') {
                } else {
                    assert(prefix[i] != '|') by {
                        if prefix[i] == '|' {
                            assert(prefix.contains('|'));
                        }
                    }
                    assert(prefix[i] != '\n') by {
                        if prefix[i] == '\n' {
                            assert(prefix.contains('\n'));
                        }
                    }
                }
            }
        }
        if whole.contains('|') {
            let i = choose|i: int| 0 <= i < whole.len() && whole[i] == '|';
        }
        if whole.contains('\n') {
            let i = choose|i: int| 0 <= i < whole.len() && whole[i] == '\n';
        }
    }
}

fn digit_char_exec(d: u64) -> (r: char)
    requires
        d < 10,
    ensures
        r == spec_digit_char(d as nat),
{
    if d == 0 {
        '0'
    } else if d == 1 {
        '1'
    } else if d == 2 {
        '2'
    } else if d == 3 {
        '3'
    } else if d == 4 {
        '4'
    } else if d == 5 {
        '5'
    } else if d == 6 {
        '6'
    } else if d == 7 {
        '7'
    } else if d == 8 {
        '8'
    } else {
        '9'
    }
}

/// The decimal rendering of `n`.
pub fn u64_to_string(n: u64) -> (r: String)
    ensures
        r@ == spec_u64_chars(n as nat),
    decreases n,
{
    if n < 10 {
        let mut s = String::new();
        string_push(&mut s, digit_char_exec(n));
        proof {
            assert(s@ =~= seq![spec_digit_char(n as nat)]);
        }
        s
    } else {
        let mut s = u64_to_string(n / 10);
        string_push(&mut s, digit_char_exec(n % 10));
        s
    }
}

// --- lines ---

/// A field can sit between the bars of a persisted line: non-empty, and
/// free of the delimiter and the line break.
pub open spec fn spec_field_ok(s: Seq<char>) -> bool {
    s.len() > 0 && !s.contains('|') && !s.contains('\n')
}

/// One rule-cache line: `|<cache-id>|<matched-domain>|<upstream>|`.
pub open spec fn spec_rule_line(t: (Seq<char>, Seq<char>, Seq<char>)) -> Seq<char> {
    seq!['|'] + t.2 + seq!['|'] + t.0 + seq!['|'] + t.1 + seq!['|']
}

/// What a line of a rule-cache file denotes: exactly three non-empty
/// fields between bars, as (matched-domain, upstream, cache-id); anything
/// else is skipped.
pub open spec fn spec_parse_rule_line(line: Seq<char>) -> Option<(Seq<char>, Seq<char>, Seq<char>)> {
    let parts = spec_nonempty(spec_split_char(line, '|'));
    if parts.len() == 3 {
        Some((parts[1], parts[2], parts[0]))
    } else {
        None
    }
}

proof fn lemma_filter_singleton(x: Seq<char>)
    ensures
        spec_nonempty(seq![x]) == if x.len() > 0 {
            seq![x]
        } else {
            Seq::<Seq<char>>::empty()
        },
{
    reveal(Seq::filter);
    let s = seq![x];
    assert(s.drop_last() =~= Seq::<Seq<char>>::empty());
    assert(Seq::<Seq<char>>::empty().filter(|p: Seq<char>| p.len() > 0)
        =~= Seq::<Seq<char>>::empty());
    if x.len() > 0 {
        assert(spec_nonempty(s) =~= seq![x]);
    } else {
        assert(spec_nonempty(s) =~= Seq::<Seq<char>>::empty());
    }
}

/// A rendered rule line parses back to its triple.
#[verifier::rlimit(50)]
pub proof fn lemma_rule_line_round_trip(t: (Seq<char>, Seq<char>, Seq<char>))
    requires
        spec_field_ok(t.0),
        spec_field_ok(t.1),
        spec_field_ok(t.2),
    ensures
        spec_parse_rule_line(spec_rule_line(t)) == Some(t),
        !spec_rule_line(t).contains('\n'),
        spec_rule_line(t).len() > 0,
{
    broadcast use vstd::seq_lib::group_filter_ensures;

    let line = spec_rule_line(t);
    let r3 = t.1 + seq!['|'] + Seq::<char>::empty();
    let r2 = t.0 + seq!['|'] + r3;
    let r1 = t.2 + seq!['|'] + r2;
    assert(line =~= Seq::<char>::empty() + seq!['|'] + r1);
    lemma_split_append_sep(Seq::<char>::empty(), r1, '|');
    lemma_split_append_sep(t.2, r2, '|');
    lemma_split_append_sep(t.0, r3, '|');
    lemma_split_append_sep(t.1, Seq::<char>::empty(), '|');
    assert(spec_split_char(Seq::<char>::empty(), '|') == seq![Seq::<char>::empty()]);
    let e = Seq::<char>::empty();
    assert(spec_split_char(line, '|') =~= seq![e, t.2, t.0, t.1, e]);
    let parts = spec_split_char(line, '|');
    assert(parts =~= seq![e] + seq![t.2] + seq![t.0] + seq![t.1] + seq![e]);
    lemma_filter_singleton(e);
    lemma_filter_singleton(t.2);
    lemma_filter_singleton(t.0);
    lemma_filter_singleton(t.1);
    let pred = |p: Seq<char>| p.len() > 0;
    assert((seq![e] + seq![t.2]).filter(pred) == seq![e].filter(pred) + seq![t.2].filter(pred));
    assert((seq![e] + seq![t.2] + seq![t.0]).filter(pred) == (seq![e] + seq![t.2]).filter(pred)
        + seq![t.0].filter(pred));
    assert((seq![e] + seq![t.2] + seq![t.0] + seq![t.1]).filter(pred) == (seq![e] + seq![t.2]
        + seq![t.0]).filter(pred) + seq![t.1].filter(pred));
    assert(parts.filter(pred) == (seq![e] + seq![t.2] + seq![t.0] + seq![t.1]).filter(pred)
        + seq![e].filter(pred));
    assert(spec_nonempty(parts) =~= seq![t.2, t.0, t.1]);
    assert forall|i: int| 0 <= i < line.len() implies line[i] != '\n' by {
        if t.0.contains('\n') || t.1.contains('\n') || t.2.contains('\n') {
        }
        if 1 <= i < 1 + t.2.len() {
            assert(line[i] == t.2[i - 1]);
            if line[i] == '\n' {
                assert(t.2.contains('\n'));
            }
        } else if 2 + t.2.len() <= i < 2 + t.2.len() + t.0.len() {
            assert(line[i] == t.0[i - 2 - t.2.len()]);
            if line[i] == '\n' {
                assert(t.0.contains('\n'));
            }
        } else if 3 + t.2.len() + t.0.len() <= i < 3 + t.2.len() + t.0.len() + t.1.len() {
            assert(line[i] == t.1[i - 3 - t.2.len() - t.0.len()]);
            if line[i] == '\n' {
                assert(t.1.contains('\n'));
            }
        } else {
            assert(line[i] == '|');
        }
    }
    if line.contains('\n') {
        let i = choose|i: int| 0 <= i < line.len() && line[i] == '\n';
    }
}

/// A whole rule-cache file: one line per triple, each ended by a newline.
pub open spec fn spec_render_rule_file(ts: Seq<(Seq<char>, Seq<char>, Seq<char>)>) -> Seq<char>
    decreases ts.len(),
{
    if ts.len() == 0 {
        Seq::<char>::empty()
    } else {
        spec_rule_line(ts[0]) + seq!['\n'] + spec_render_rule_file(
            ts.subrange(1, ts.len() as int),
        )
    }
}

/// The triples the lines of a file denote, unparseable lines skipped.
pub open spec fn spec_parse_rule_lines(lines: Seq<Seq<char>>) -> Seq<
    (Seq<char>, Seq<char>, Seq<char>),
>
    decreases lines.len(),
{
    if lines.len() == 0 {
        Seq::empty()
    } else {
        let rest = spec_parse_rule_lines(lines.subrange(1, lines.len() as int));
        match spec_parse_rule_line(lines[0]) {
            Some(t) => seq![t] + rest,
            None => rest,
        }
    }
}

/// What a rule-cache file's text denotes.
pub open spec fn spec_parse_rule_file(text: Seq<char>) -> Seq<(Seq<char>, Seq<char>, Seq<char>)> {
    spec_parse_rule_lines(spec_split_char(text, '\n'))
}

/// Persistence is the identity on rule-cache contents: parsing a rendered
/// file yields exactly the triples that were rendered.
pub proof fn lemma_rule_file_round_trip(ts: Seq<(Seq<char>, Seq<char>, Seq<char>)>)
    requires
        forall|i: int|
            0 <= i < ts.len() ==> spec_field_ok((#[trigger] ts[i]).0) && spec_field_ok(ts[i].1)
                && spec_field_ok(ts[i].2),
    ensures
        spec_parse_rule_file(spec_render_rule_file(ts)) == ts,
    decreases ts.len(),
{
    if ts.len() == 0 {
        let text = spec_render_rule_file(ts);
        assert(text =~= Seq::<char>::empty());
        assert(spec_split_char(text, '\n') == seq![Seq::<char>::empty()]);
        lemma_filter_singleton(Seq::<char>::empty());
        assert(spec_parse_rule_line(Seq::<char>::empty()) is None) by {
            assert(spec_split_char(Seq::<char>::empty(), '|') == seq![Seq::<char>::empty()]);
        }
        assert(spec_parse_rule_lines(seq![Seq::<char>::empty()]) =~= Seq::<
            (Seq<char>, Seq<char>, Seq<char>),
        >::empty()) by {
            let lines = seq![Seq::<char>::empty()];
            assert(lines.subrange(1, 1) =~= Seq::<Seq<char>>::empty());
            assert(spec_parse_rule_lines(Seq::<Seq<char>>::empty()) =~= Seq::<
                (Seq<char>, Seq<char>, Seq<char>),
            >::empty());
            assert(spec_parse_rule_lines(lines) == spec_parse_rule_lines(lines.subrange(1, 1)));
        }
        assert(spec_parse_rule_file(spec_render_rule_file(ts)) =~= ts);
    } else {
        let tail = ts.subrange(1, ts.len() as int);
        lemma_rule_file_round_trip(tail);
        lemma_rule_line_round_trip(ts[0]);
        let text = spec_render_rule_file(ts);
        let line0 = spec_rule_line(ts[0]);
        let rest_text = spec_render_rule_file(tail);
        assert(text =~= line0 + seq!['\n'] + rest_text);
        lemma_split_append_sep(line0, rest_text, '\n');
        let lines = spec_split_char(text, '\n');
        assert(lines == seq![line0] + spec_split_char(rest_text, '\n'));
        let rest_lines = spec_split_char(rest_text, '\n');
        crate::text::lemma_split_len_pos(rest_text, '\n');
        assert(lines[0] == line0);
        assert(lines.subrange(1, lines.len() as int) =~= rest_lines);
        assert(spec_parse_rule_lines(lines) == seq![ts[0]] + spec_parse_rule_lines(rest_lines));
        assert(spec_parse_rule_file(text) =~= ts);
    }
}

// --- sorting and the exec rule-cache file ---

/// The view of a rule entry as a persistence triple.
pub open spec fn spec_entry_triple(e: RuleEntry) -> (Seq<char>, Seq<char>, Seq<char>) {
    (e.domain@, e.upstream@, e.cache_id@)
}

/// Appending one more triple appends one more line.
pub proof fn lemma_render_rule_push(ts: Seq<(Seq<char>, Seq<char>, Seq<char>)>, t: (Seq<char>, Seq<char>, Seq<char>))
    ensures
        spec_render_rule_file(ts.push(t)) == spec_render_rule_file(ts) + spec_rule_line(t) + seq![
            '\n',
        ],
    decreases ts.len(),
{
    if ts.len() == 0 {
        let whole = ts.push(t);
        assert(whole[0] == t);
        assert(whole.subrange(1, 1) =~= Seq::<(Seq<char>, Seq<char>, Seq<char>)>::empty());
        assert(spec_render_rule_file(whole.subrange(1, 1)) =~= Seq::<char>::empty());
        assert(spec_render_rule_file(whole) =~= spec_render_rule_file(ts) + spec_rule_line(t)
            + seq!['\n']);
    } else {
        let tail = ts.subrange(1, ts.len() as int);
        lemma_render_rule_push(tail, t);
        let whole = ts.push(t);
        assert(whole[0] == ts[0]);
        assert(whole.subrange(1, whole.len() as int) =~= tail.push(t));
        assert(spec_render_rule_file(whole) =~= spec_render_rule_file(ts) + spec_rule_line(t)
            + seq!['\n']);
    }
}

/// Rule entries sorted by their matched domain.
pub fn sort_rule_entries(v: Vec<RuleEntry>) -> (r: Vec<RuleEntry>)
    ensures
        r@.to_multiset() == v@.to_multiset(),
        forall|k1: int, k2: int|
            0 <= k1 < k2 < r@.len() ==> spec_str_le(
                (#[trigger] r@[k1]).domain@,
                (#[trigger] r@[k2]).domain@,
            ),
{
    broadcast use vstd::seq_lib::group_to_multiset_ensures;

    let mut src = v;
    let ghost orig = src@;
    let mut out: Vec<RuleEntry> = Vec::new();
    proof {
        assert(out@.to_multiset().add(src@.to_multiset()) =~= orig.to_multiset());
    }
    while src.len() > 0
        invariant
            out@.to_multiset().add(src@.to_multiset()) == orig.to_multiset(),
            forall|k1: int, k2: int|
                0 <= k1 < k2 < out@.len() ==> spec_str_le(
                    (#[trigger] out@[k1]).domain@,
                    (#[trigger] out@[k2]).domain@,
                ),
            forall|k: int, s: int|
                0 <= k < out@.len() && 0 <= s < src@.len() ==> spec_str_le(
                    (#[trigger] out@[k]).domain@,
                    (#[trigger] src@[s]).domain@,
                ),
        decreases src@.len(),
    {
        let mut best: usize = 0;
        let mut i: usize = 1;
        proof {
            lemma_str_le_total(src@[0].domain@, src@[0].domain@);
        }
        while i < src.len()
            invariant
                best < i <= src@.len(),
                forall|j: int|
                    0 <= j < i ==> spec_str_le(
                        src@[best as int].domain@,
                        (#[trigger] src@[j]).domain@,
                    ),
            decreases src@.len() - i,
        {
            let keep_le = str_le(src[best].domain.as_str(), src[i].domain.as_str());
            proof {
                if keep_le {
                    lemma_str_le_total(src@[i as int].domain@, src@[i as int].domain@);
                }
            }
            if !keep_le {
                proof {
                    lemma_str_le_total(src@[best as int].domain@, src@[i as int].domain@);
                    assert forall|j: int|
                        0 <= j < i + 1 implies spec_str_le(
                        src@[i as int].domain@,
                        (#[trigger] src@[j]).domain@,
                    ) by {
                        if j < i {
                            lemma_str_le_trans(
                                src@[i as int].domain@,
                                src@[best as int].domain@,
                                src@[j].domain@,
                            );
                        } else {
                            lemma_str_le_total(src@[i as int].domain@, src@[i as int].domain@);
                        }
                    }
                }
                best = i;
            }
            i += 1;
        }
        let ghost pre_src = src@;
        let ghost pre_out = out@;
        let e = src.remove(best);
        out.push(e);
        proof {
            assert(src@ == pre_src.remove(best as int));
            assert(out@ == pre_out.push(e));
            assert(e == pre_src[best as int]);
            assert(pre_src.to_multiset().count(e) > 0) by {
                assert(pre_src.contains(e));
                vstd::seq_lib::to_multiset_contains(pre_src, e);
            }
            vstd::seq_lib::to_multiset_build(pre_out, e);
            vstd::seq_lib::to_multiset_remove(pre_src, best as int);
            assert(out@.to_multiset() == pre_out.to_multiset().insert(e));
            assert(src@.to_multiset() == pre_src.to_multiset().remove(e));
            assert(out@.to_multiset().add(src@.to_multiset()) =~= pre_out.to_multiset().add(
                pre_src.to_multiset(),
            ));
            assert forall|k: int, s: int|
                0 <= k < out@.len() && 0 <= s < src@.len() implies spec_str_le(
                (#[trigger] out@[k]).domain@,
                (#[trigger] src@[s]).domain@,
            ) by {
                let ps = if s < best as int {
                    s
                } else {
                    s + 1
                };
                assert(src@[s] == pre_src[ps]);
                if k < pre_out.len() {
                    assert(out@[k] == pre_out[k]);
                } else {
                    assert(out@[k] == e);
                }
            }
            assert forall|k1: int, k2: int|
                0 <= k1 < k2 < out@.len() implies spec_str_le(
                (#[trigger] out@[k1]).domain@,
                (#[trigger] out@[k2]).domain@,
            ) by {
                if k2 == pre_out.len() {
                    assert(out@[k1] == pre_out[k1]);
                    assert(out@[k2] == e);
                }
            }
        }
    }
    out
}

impl RuleCache {
    /// The persisted form of the rule cache: one line per entry, sorted by
    /// matched domain. The parse of the result holds exactly this cache's
    /// triples, in that order; fields that cannot sit in a line (empty, or
    /// holding a bar or line break) make their entry unserializable, so the
    /// claim asks all fields to be clean.
    pub fn render_to_text(&self) -> (r: String)
        ensures
            exists|ss: Seq<RuleEntry>|
                {
                    &&& (#[trigger] ss.to_multiset()) == self.entries@.to_multiset()
                    &&& forall|k1: int, k2: int|
                        0 <= k1 < k2 < ss.len() ==> spec_str_le(
                            (#[trigger] ss[k1]).domain@,
                            (#[trigger] ss[k2]).domain@,
                        )
                    &&& r@ == spec_render_rule_file(
                        ss.map_values(|e: RuleEntry| spec_entry_triple(e)),
                    )
                },
    {
        broadcast use vstd::seq_lib::group_to_multiset_ensures;

        let mut copy: Vec<RuleEntry> = Vec::new();
        let mut i: usize = 0;
        while i < self.entries.len()
            invariant
                i <= self.entries@.len(),
                copy@.len() == i,
                forall|j: int| 0 <= j < i ==> copy@[j] == self.entries@[j],
            decreases self.entries@.len() - i,
        {
            let e = &self.entries[i];
            copy.push(
                RuleEntry {
                    domain: e.domain.clone(),
                    upstream: e.upstream.clone(),
                    cache_id: e.cache_id.clone(),
                },
            );
            i += 1;
        }
        proof {
            assert(copy@ =~= self.entries@);
        }
        let sorted = sort_rule_entries(copy);
        let ghost ss = sorted@;
        let mut r = String::new();
        let mut k: usize = 0;
        proof {
            assert(ss.subrange(0, 0) =~= Seq::<RuleEntry>::empty());
            assert(r@ =~= spec_render_rule_file(
                ss.subrange(0, 0).map_values(|e: RuleEntry| spec_entry_triple(e)),
            ));
        }
        while k < sorted.len()
            invariant
                k <= ss.len(),
                sorted@ == ss,
                r@ == spec_render_rule_file(
                    ss.subrange(0, k as int).map_values(|e: RuleEntry| spec_entry_triple(e)),
                ),
            decreases ss.len() - k,
        {
            let e = &sorted[k];
            let ghost prefix = ss.subrange(0, k as int).map_values(
                |x: RuleEntry| spec_entry_triple(x),
            );
            string_push(&mut r, '|');
            r.append(e.cache_id.as_str());
            string_push(&mut r, '|');
            r.append(e.domain.as_str());
            string_push(&mut r, '|');
            r.append(e.upstream.as_str());
            string_push(&mut r, '|');
            string_push(&mut r, '\n');
            proof {
                lemma_render_rule_push(prefix, spec_entry_triple(ss[k as int]));
                assert(ss.subrange(0, k + 1).map_values(|x: RuleEntry| spec_entry_triple(x))
                    =~= prefix.push(spec_entry_triple(ss[k as int])));
                assert(r@ =~= spec_render_rule_file(prefix) + spec_rule_line(
                    spec_entry_triple(ss[k as int]),
                ) + seq!['\n']);
            }
            k += 1;
        }
        proof {
            assert(ss.subrange(0, ss.len() as int) =~= ss);
        }
        r
    }
}

/// The last (upstream, cache-id) a sequence of triples assigns to a key.
pub open spec fn spec_lookup_last(
    ts: Seq<(Seq<char>, Seq<char>, Seq<char>)>,
    k: Seq<char>,
) -> Option<(Seq<char>, Seq<char>)>
    decreases ts.len(),
{
    if ts.len() == 0 {
        None
    } else if ts.last().0 == k {
        Some((ts.last().1, ts.last().2))
    } else {
        spec_lookup_last(ts.drop_last(), k)
    }
}

/// A key with a last value occurs in the triples.
proof fn lemma_lookup_last_some(ts: Seq<(Seq<char>, Seq<char>, Seq<char>)>, k: Seq<char>)
    requires
        spec_lookup_last(ts, k) is Some,
    ensures
        exists|i: int| 0 <= i < ts.len() && (#[trigger] ts[i]).0 == k,
    decreases ts.len(),
{
    if ts.len() > 0 {
        if ts.last().0 == k {
            assert(ts[ts.len() - 1].0 == k);
        } else {
            lemma_lookup_last_some(ts.drop_last(), k);
            let i = choose|i: int|
                0 <= i < ts.drop_last().len() && (#[trigger] ts.drop_last()[i]).0 == k;
            assert(ts[i].0 == k);
        }
    }
}

/// Parsing lines distributes over concatenation.
pub proof fn lemma_parse_lines_concat(a: Seq<Seq<char>>, b: Seq<Seq<char>>)
    ensures
        spec_parse_rule_lines(a + b) == spec_parse_rule_lines(a) + spec_parse_rule_lines(b),
    decreases a.len(),
{
    if a.len() == 0 {
        assert(a + b =~= b);
        assert(spec_parse_rule_lines(a) =~= Seq::<(Seq<char>, Seq<char>, Seq<char>)>::empty());
        assert(spec_parse_rule_lines(a + b) =~= spec_parse_rule_lines(a) + spec_parse_rule_lines(
            b,
        ));
    } else {
        let a1 = a.subrange(1, a.len() as int);
        lemma_parse_lines_concat(a1, b);
        let s = a + b;
        assert(s[0] == a[0]);
        assert(s.subrange(1, s.len() as int) =~= a1 + b);
        assert(spec_parse_rule_lines(s) =~= spec_parse_rule_lines(a) + spec_parse_rule_lines(b));
    }
}

impl RuleCache {
    /// Read a persisted rule-cache file back in: each parseable line is
    /// inserted in order, so the last line wins where keys repeat; other
    /// lines are skipped, and existing entries under other keys stay.
    pub fn load_from_text(&mut self, text: &str)
        requires
            old(self).wf(),
        ensures
            final(self).wf(),
            final(self).output_path == old(self).output_path,
            final(self).default_upstream == old(self).default_upstream,
            forall|k: Seq<char>|
                final(self).spec_has_key(k) == (old(self).spec_has_key(k) || exists|i: int|
                    0 <= i < spec_parse_rule_file(text@).len() && (
                    #[trigger] spec_parse_rule_file(text@)[i]).0 == k),
            forall|k: Seq<char>|
                match #[trigger] spec_lookup_last(spec_parse_rule_file(text@), k) {
                    Some(v) => final(self).spec_get(k) == v,
                    None => old(self).spec_has_key(k) ==> final(self).spec_get(k) == old(
                        self,
                    ).spec_get(k),
                },
    {
        let lines = split_char(text, '\n');
        let ghost lv = lines.deep_view();
        let mut li: usize = 0;
        proof {
            assert(lv.subrange(0, 0) =~= Seq::<Seq<char>>::empty());
        }
        while li < lines.len()
            invariant
                li <= lv.len(),
                lines.deep_view() == lv,
                lv == spec_split_char(text@, '\n'),
                self.wf(),
                self.output_path == old(self).output_path,
                self.default_upstream == old(self).default_upstream,
                forall|k: Seq<char>|
                    self.spec_has_key(k) == (old(self).spec_has_key(k) || exists|i: int|
                        0 <= i < spec_parse_rule_lines(lv.subrange(0, li as int)).len() && (
                        #[trigger] spec_parse_rule_lines(lv.subrange(0, li as int))[i]).0 == k),
                forall|k: Seq<char>|
                    match #[trigger] spec_lookup_last(
                        spec_parse_rule_lines(lv.subrange(0, li as int)),
                        k,
                    ) {
                        Some(v) => self.spec_get(k) == v,
                        None => old(self).spec_has_key(k) ==> self.spec_get(k) == old(
                            self,
                        ).spec_get(k),
                    },
            decreases lv.len() - li,
        {
            let ghost prefix = spec_parse_rule_lines(lv.subrange(0, li as int));
            let parts = {
                let raw = split_char(lines[li].as_str(), '|');
                filter_nonempty(&raw)
            };
            proof {
                assert(lv[li as int] == lines@[li as int]@);
                assert(parts.deep_view() == spec_nonempty(
                    spec_split_char(lv[li as int], '|'),
                ));
                assert(lv.subrange(0, li + 1) =~= lv.subrange(0, li as int) + seq![lv[li as int]]);
                lemma_parse_lines_concat(lv.subrange(0, li as int), seq![lv[li as int]]);
                let single = seq![lv[li as int]];
                assert(single.subrange(1, 1) =~= Seq::<Seq<char>>::empty());
                assert(spec_parse_rule_lines(single.subrange(1, 1)) =~= Seq::<
                    (Seq<char>, Seq<char>, Seq<char>),
                >::empty());
            }
            if parts.len() == 3 {
                let ghost t = spec_parse_rule_line(lv[li as int])->0;
                proof {
                    assert(parts.deep_view()[0] == parts@[0]@ && parts.deep_view()[1]
                        == parts@[1]@ && parts.deep_view()[2] == parts@[2]@);
                    assert(spec_parse_rule_line(lv[li as int]) == Some(
                        (parts@[1]@, parts@[2]@, parts@[0]@),
                    ));
                    assert(spec_parse_rule_lines(lv.subrange(0, li + 1)) =~= prefix.push(t));
                }
                let domain = parts[1].clone();
                let upstream = parts[2].clone();
                let cache_id = parts[0].clone();
                let ghost pre = *self;
                self.insert(domain, upstream, cache_id);
                proof {
                    assert forall|k: Seq<char>|
                        match #[trigger] spec_lookup_last(prefix.push(t), k) {
                            Some(v) => self.spec_get(k) == v,
                            None => old(self).spec_has_key(k) ==> self.spec_get(k) == old(
                                self,
                            ).spec_get(k),
                        } by {
                        assert(prefix.push(t).last() == t);
                        assert(prefix.push(t).drop_last() =~= prefix);
                        if t.0 == k {
                            assert(self.spec_get(k) == (t.1, t.2));
                        } else {
                            assert(spec_lookup_last(prefix.push(t), k) == spec_lookup_last(
                                prefix,
                                k,
                            ));
                            match spec_lookup_last(prefix, k) {
                                Some(v) => {
                                    lemma_lookup_last_some(prefix, k);
                                    assert(pre.spec_has_key(k));
                                    assert(pre.spec_get(k) == v);
                                    assert(self.spec_get(k) == v);
                                },
                                None => {
                                    if old(self).spec_has_key(k) {
                                        assert(pre.spec_has_key(k));
                                        assert(pre.spec_get(k) == old(self).spec_get(k));
                                        assert(self.spec_get(k) == pre.spec_get(k));
                                    }
                                },
                            }
                        }
                    }
                    assert forall|k: Seq<char>|
                        self.spec_has_key(k) == (old(self).spec_has_key(k) || exists|i: int|
                            0 <= i < prefix.push(t).len() && (#[trigger] prefix.push(t)[i]).0
                                == k) by {
                        if k == t.0 {
                            assert(prefix.push(t)[prefix.len() as int].0 == k);
                        } else {
                            if exists|i: int|
                                0 <= i < prefix.len() && (#[trigger] prefix[i]).0 == k {
                                let i = choose|i: int|
                                    0 <= i < prefix.len() && (#[trigger] prefix[i]).0 == k;
                                assert(prefix.push(t)[i].0 == k);
                            }
                            if exists|i: int|
                                0 <= i < prefix.push(t).len() && (#[trigger] prefix.push(t)[i]).0
                                    == k {
                                let i = choose|i: int|
                                    0 <= i < prefix.push(t).len() && (
                                    #[trigger] prefix.push(t)[i]).0 == k;
                                assert(i < prefix.len());
                                assert(prefix[i].0 == k);
                            }
                        }
                    }
                }
            } else {
                proof {
                    assert(parts.deep_view().len() != 3);
                    assert(spec_parse_rule_line(lv[li as int]) is None);
                    assert(spec_parse_rule_lines(lv.subrange(0, li + 1)) =~= prefix);
                }
            }
            li += 1;
        }
        proof {
            assert(lv.subrange(0, lv.len() as int) =~= lv);
        }
    }
}

// --- the response-cache file ---

/// A response-cache line's payload: cache id, matched domain, upstream,
/// queried name, remaining TTL, and the rendered answer addresses.
pub struct DomainLine {
    pub cache_id: Seq<char>,
    pub matched_domain: Seq<char>,
    pub domain: Seq<char>,
    pub upstream: Seq<char>,
    pub ttl: u64,
    pub ip_info: Seq<char>,
}

/// One response-cache line:
/// `|<cache-id>|<matched-domain>|<upstream>|<qname>|<ttl>|<addresses>|`.
pub open spec fn spec_domain_line(t: DomainLine) -> Seq<char> {
    seq!['|'] + t.cache_id + seq!['|'] + t.matched_domain + seq!['|'] + t.upstream + seq!['|']
        + t.domain + seq!['|'] + spec_u64_chars(t.ttl as nat) + seq!['|'] + t.ip_info + seq!['|']
}

/// What a line of a response-cache file denotes: exactly six non-empty
/// fields between bars; a TTL field that is not a number reads as zero.
pub open spec fn spec_parse_domain_line(line: Seq<char>) -> Option<DomainLine> {
    let parts = spec_nonempty(spec_split_char(line, '|'));
    if parts.len() == 6 {
        let ttl = if parts[4].len() > 0 && spec_all_digits(parts[4]) && spec_digits_val(parts[4])
            <= u64::MAX {
            spec_digits_val(parts[4]) as u64
        } else {
            0u64
        };
        Some(
            DomainLine {
                cache_id: parts[0],
                matched_domain: parts[1],
                upstream: parts[2],
                domain: parts[3],
                ttl,
                ip_info: parts[5],
            },
        )
    } else {
        None
    }
}

/// A rendered response-cache line parses back to its payload.
#[verifier::rlimit(50)]
pub proof fn lemma_domain_line_round_trip(t: DomainLine)
    requires
        spec_field_ok(t.cache_id),
        spec_field_ok(t.matched_domain),
        spec_field_ok(t.upstream),
        spec_field_ok(t.domain),
        spec_field_ok(t.ip_info),
    ensures
        spec_parse_domain_line(spec_domain_line(t)) == Some(t),
        !spec_domain_line(t).contains('\n'),
        spec_domain_line(t).len() > 0,
{
    broadcast use vstd::seq_lib::group_filter_ensures;

    lemma_u64_chars_val(t.ttl as nat);
    let tt = spec_u64_chars(t.ttl as nat);
    let line = spec_domain_line(t);
    let e = Seq::<char>::empty();
    let r5 = t.ip_info + seq!['|'] + e;
    let r4 = tt + seq!['|'] + r5;
    let r3 = t.domain + seq!['|'] + r4;
    let r2 = t.upstream + seq!['|'] + r3;
    let r1 = t.matched_domain + seq!['|'] + r2;
    let r0 = t.cache_id + seq!['|'] + r1;
    assert(line =~= e + seq!['|'] + r0);
    lemma_split_append_sep(e, r0, '|');
    lemma_split_append_sep(t.cache_id, r1, '|');
    lemma_split_append_sep(t.matched_domain, r2, '|');
    lemma_split_append_sep(t.upstream, r3, '|');
    lemma_split_append_sep(t.domain, r4, '|');
    assert(!tt.contains('|'));
    lemma_split_append_sep(tt, r5, '|');
    lemma_split_append_sep(t.ip_info, e, '|');
    assert(spec_split_char(e, '|') == seq![e]);
    let parts = spec_split_char(line, '|');
    assert(parts =~= seq![e] + seq![t.cache_id] + seq![t.matched_domain] + seq![t.upstream]
        + seq![t.domain] + seq![tt] + seq![t.ip_info] + seq![e]);
    lemma_filter_singleton(e);
    lemma_filter_singleton(t.cache_id);
    lemma_filter_singleton(t.matched_domain);
    lemma_filter_singleton(t.upstream);
    lemma_filter_singleton(t.domain);
    lemma_filter_singleton(tt);
    lemma_filter_singleton(t.ip_info);
    let pred = |p: Seq<char>| p.len() > 0;
    let s1 = seq![e] + seq![t.cache_id];
    let s2 = s1 + seq![t.matched_domain];
    let s3 = s2 + seq![t.upstream];
    let s4 = s3 + seq![t.domain];
    let s5 = s4 + seq![tt];
    let s6 = s5 + seq![t.ip_info];
    assert(s1.filter(pred) == seq![e].filter(pred) + seq![t.cache_id].filter(pred));
    assert(s2.filter(pred) == s1.filter(pred) + seq![t.matched_domain].filter(pred));
    assert(s3.filter(pred) == s2.filter(pred) + seq![t.upstream].filter(pred));
    assert(s4.filter(pred) == s3.filter(pred) + seq![t.domain].filter(pred));
    assert(s5.filter(pred) == s4.filter(pred) + seq![tt].filter(pred));
    assert(s6.filter(pred) == s5.filter(pred) + seq![t.ip_info].filter(pred));
    assert(parts.filter(pred) == s6.filter(pred) + seq![e].filter(pred));
    assert(spec_nonempty(parts) =~= seq![
        t.cache_id,
        t.matched_domain,
        t.upstream,
        t.domain,
        tt,
        t.ip_info,
    ]);
    assert forall|i: int| 0 <= i < line.len() implies line[i] != '\n' by {
        let l0: int = 1;
        let l1 = l0 + t.cache_id.len() + 1;
        let l2 = l1 + t.matched_domain.len() + 1;
        let l3 = l2 + t.upstream.len() + 1;
        let l4 = l3 + t.domain.len() + 1;
        let l5 = l4 + tt.len() + 1;
        if l0 <= i < l0 + t.cache_id.len() {
            assert(line[i] == t.cache_id[i - l0]);
            if line[i] == '\n' {
                assert(t.cache_id.contains('\n'));
            }
        } else if l1 <= i < l1 + t.matched_domain.len() {
            assert(line[i] == t.matched_domain[i - l1]);
            if line[i] == '\n' {
                assert(t.matched_domain.contains('\n'));
            }
        } else if l2 <= i < l2 + t.upstream.len() {
            assert(line[i] == t.upstream[i - l2]);
            if line[i] == '\n' {
                assert(t.upstream.contains('\n'));
            }
        } else if l3 <= i < l3 + t.domain.len() {
            assert(line[i] == t.domain[i - l3]);
            if line[i] == '\n' {
                assert(t.domain.contains('\n'));
            }
        } else if l4 <= i < l4 + tt.len() {
            assert(line[i] == tt[i - l4]);
            if line[i] == '\n' {
                assert(tt.contains('\n'));
            }
        } else if l5 <= i < l5 + t.ip_info.len() {
            assert(line[i] == t.ip_info[i - l5]);
            if line[i] == '\n' {
                assert(t.ip_info.contains('\n'));
            }
        } else {
            assert(line[i] == '|');
        }
    }
    if line.contains('\n') {
        let i = choose|i: int| 0 <= i < line.len() && line[i] == '\n';
    }
}

/// A whole response-cache file.
pub open spec fn spec_render_domain_file(ts: Seq<DomainLine>) -> Seq<char>
    decreases ts.len(),
{
    if ts.len() == 0 {
        Seq::<char>::empty()
    } else {
        spec_domain_line(ts[0]) + seq!['\n'] + spec_render_domain_file(
            ts.subrange(1, ts.len() as int),
        )
    }
}

/// The payloads a response-cache file's lines denote, bad lines skipped.
pub open spec fn spec_parse_domain_lines(lines: Seq<Seq<char>>) -> Seq<DomainLine>
    decreases lines.len(),
{
    if lines.len() == 0 {
        Seq::empty()
    } else {
        let rest = spec_parse_domain_lines(lines.subrange(1, lines.len() as int));
        match spec_parse_domain_line(lines[0]) {
            Some(t) => seq![t] + rest,
            None => rest,
        }
    }
}

/// What a response-cache file's text denotes.
pub open spec fn spec_parse_domain_file(text: Seq<char>) -> Seq<DomainLine> {
    spec_parse_domain_lines(spec_split_char(text, '\n'))
}

/// Persistence is the identity on response-cache lines: parsing a rendered
/// file yields exactly the payloads that were rendered. The remaining TTL
/// at rendering time is what comes back, so a cache loaded at the same
/// instant matches entry for entry.
pub proof fn lemma_domain_file_round_trip(ts: Seq<DomainLine>)
    requires
        forall|i: int|
            0 <= i < ts.len() ==> {
                let t = #[trigger] ts[i];
                &&& spec_field_ok(t.cache_id)
                &&& spec_field_ok(t.matched_domain)
                &&& spec_field_ok(t.upstream)
                &&& spec_field_ok(t.domain)
                &&& spec_field_ok(t.ip_info)
            },
    ensures
        spec_parse_domain_file(spec_render_domain_file(ts)) == ts,
    decreases ts.len(),
{
    if ts.len() == 0 {
        let text = spec_render_domain_file(ts);
        assert(text =~= Seq::<char>::empty());
        assert(spec_split_char(text, '\n') == seq![Seq::<char>::empty()]);
        lemma_filter_singleton(Seq::<char>::empty());
        assert(spec_parse_domain_line(Seq::<char>::empty()) is None) by {
            assert(spec_split_char(Seq::<char>::empty(), '|') == seq![Seq::<char>::empty()]);
        }
        assert(spec_parse_domain_lines(seq![Seq::<char>::empty()]) =~= Seq::<DomainLine>::empty())
            by {
            let lines = seq![Seq::<char>::empty()];
            assert(lines.subrange(1, 1) =~= Seq::<Seq<char>>::empty());
            assert(spec_parse_domain_lines(Seq::<Seq<char>>::empty()) =~= Seq::<
                DomainLine,
            >::empty());
            assert(spec_parse_domain_lines(lines) == spec_parse_domain_lines(
                lines.subrange(1, 1),
            ));
        }
        assert(spec_parse_domain_file(spec_render_domain_file(ts)) =~= ts);
    } else {
        let tail = ts.subrange(1, ts.len() as int);
        lemma_domain_file_round_trip(tail);
        lemma_domain_line_round_trip(ts[0]);
        let text = spec_render_domain_file(ts);
        let line0 = spec_domain_line(ts[0]);
        let rest_text = spec_render_domain_file(tail);
        assert(text =~= line0 + seq!['\n'] + rest_text);
        lemma_split_append_sep(line0, rest_text, '\n');
        let lines = spec_split_char(text, '\n');
        assert(lines == seq![line0] + spec_split_char(rest_text, '\n'));
        let rest_lines = spec_split_char(rest_text, '\n');
        crate::text::lemma_split_len_pos(rest_text, '\n');
        assert(lines[0] == line0);
        assert(lines.subrange(1, lines.len() as int) =~= rest_lines);
        assert(spec_parse_domain_lines(lines) == seq![ts[0]] + spec_parse_domain_lines(
            rest_lines,
        ));
        assert(spec_parse_domain_file(text) =~= ts);
    }
}

// --- the exec response-cache file ---

/// The address field of a record's line: the answer renderings joined with
/// commas; `NODATA` when there are none, when the record is a placeholder,
/// or when the joined text could not sit in a line.
pub open spec fn spec_ip_field(rec: CachedDnsRecord) -> Seq<char> {
    match rec.message {
        Some(m) => {
            let ips = spec_msg_answer_rdata(m);
            if ips.len() == 0 {
                "NODATA"@
            } else {
                let joined = spec_join_char(ips, ',');
                if spec_field_ok(joined) {
                    joined
                } else {
                    "NODATA"@
                }
            }
        },
        None => "NODATA"@,
    }
}

/// The line a record renders to at instant `now`.
pub open spec fn spec_line_of(rec: CachedDnsRecord, now: u64) -> DomainLine {
    DomainLine {
        cache_id: rec.cache_id@,
        matched_domain: rec.matched_domain@,
        domain: rec.domain@,
        upstream: rec.upstream@,
        ttl: if now >= rec.expire_at {
            0u64
        } else {
            (rec.expire_at - now) as u64
        },
        ip_info: spec_ip_field(rec),
    }
}

/// Appending one more payload appends one more line.
proof fn lemma_render_domain_push(ts: Seq<DomainLine>, t: DomainLine)
    ensures
        spec_render_domain_file(ts.push(t)) == spec_render_domain_file(ts) + spec_domain_line(t)
            + seq!['\n'],
    decreases ts.len(),
{
    if ts.len() == 0 {
        let whole = ts.push(t);
        assert(whole[0] == t);
        assert(whole.subrange(1, 1) =~= Seq::<DomainLine>::empty());
        assert(spec_render_domain_file(whole.subrange(1, 1)) =~= Seq::<char>::empty());
        assert(spec_render_domain_file(whole) =~= spec_render_domain_file(ts) + spec_domain_line(
            t,
        ) + seq!['\n']);
    } else {
        let tail = ts.subrange(1, ts.len() as int);
        lemma_render_domain_push(tail, t);
        let whole = ts.push(t);
        assert(whole[0] == ts[0]);
        assert(whole.subrange(1, whole.len() as int) =~= tail.push(t));
        assert(spec_render_domain_file(whole) =~= spec_render_domain_file(ts) + spec_domain_line(
            t,
        ) + seq!['\n']);
    }
}

/// Records sorted by their insertion timestamp.
fn sort_records_by_timestamp(v: Vec<CachedDnsRecord>) -> (r: Vec<CachedDnsRecord>)
    ensures
        r@.to_multiset() == v@.to_multiset(),
        forall|k1: int, k2: int|
            0 <= k1 < k2 < r@.len() ==> (#[trigger] r@[k1]).timestamp <= (
            #[trigger] r@[k2]).timestamp,
{
    broadcast use vstd::seq_lib::group_to_multiset_ensures;

    let mut src = v;
    let ghost orig = src@;
    let mut out: Vec<CachedDnsRecord> = Vec::new();
    proof {
        assert(out@.to_multiset().add(src@.to_multiset()) =~= orig.to_multiset());
    }
    while src.len() > 0
        invariant
            out@.to_multiset().add(src@.to_multiset()) == orig.to_multiset(),
            forall|k1: int, k2: int|
                0 <= k1 < k2 < out@.len() ==> (#[trigger] out@[k1]).timestamp <= (
                #[trigger] out@[k2]).timestamp,
            forall|k: int, s: int|
                0 <= k < out@.len() && 0 <= s < src@.len() ==> (#[trigger] out@[k]).timestamp <= (
                #[trigger] src@[s]).timestamp,
        decreases src@.len(),
    {
        let mut best: usize = 0;
        let mut i: usize = 1;
        while i < src.len()
            invariant
                best < i <= src@.len(),
                forall|j: int|
                    0 <= j < i ==> src@[best as int].timestamp <= (#[trigger] src@[j]).timestamp,
            decreases src@.len() - i,
        {
            if src[i].timestamp < src[best].timestamp {
                best = i;
            }
            i += 1;
        }
        let ghost pre_src = src@;
        let ghost pre_out = out@;
        let e = src.remove(best);
        out.push(e);
        proof {
            assert(src@ == pre_src.remove(best as int));
            assert(out@ == pre_out.push(e));
            assert(e == pre_src[best as int]);
            assert(pre_src.to_multiset().count(e) > 0) by {
                assert(pre_src.contains(e));
                vstd::seq_lib::to_multiset_contains(pre_src, e);
            }
            vstd::seq_lib::to_multiset_build(pre_out, e);
            vstd::seq_lib::to_multiset_remove(pre_src, best as int);
            assert(out@.to_multiset().add(src@.to_multiset()) =~= pre_out.to_multiset().add(
                pre_src.to_multiset(),
            ));
            assert forall|k: int, s: int|
                0 <= k < out@.len() && 0 <= s < src@.len() implies (
            #[trigger] out@[k]).timestamp <= (#[trigger] src@[s]).timestamp by {
                let ps = if s < best as int {
                    s
                } else {
                    s + 1
                };
                assert(src@[s] == pre_src[ps]);
                if k < pre_out.len() {
                    assert(out@[k] == pre_out[k]);
                } else {
                    assert(out@[k] == e);
                }
            }
            assert forall|k1: int, k2: int|
                0 <= k1 < k2 < out@.len() implies (#[trigger] out@[k1]).timestamp <= (
            #[trigger] out@[k2]).timestamp by {
                if k2 == pre_out.len() {
                    assert(out@[k1] == pre_out[k1]);
                    assert(out@[k2] == e);
                }
            }
        }
    }
    out
}

/// The address field of a record, as rendered into its line.
fn ip_field_of(rec: &CachedDnsRecord) -> (r: String)
    ensures
        r@ == spec_ip_field(*rec),
{
    match &rec.message {
        Some(m) => {
            let ips = crate::dns::answer_rdata_strings(m);
            if ips.len() == 0 {
                String::from_str("NODATA")
            } else {
                let joined = join_char(&ips, ',');
                let ok = !joined.as_str().is_empty() && !str_contains_char(joined.as_str(), '|')
                    && !str_contains_char(joined.as_str(), '\n');
                if ok {
                    joined
                } else {
                    String::from_str("NODATA")
                }
            }
        },
        None => String::from_str("NODATA"),
    }
}

impl DomainCache {
    /// The persisted form of the response cache at instant `now`: one line
    /// per unexpired record, sorted by insertion timestamp, each carrying
    /// its remaining TTL and the rendering of its answers.
    #[verifier::rlimit(100)]
    pub fn render_to_text(&self, now: u64) -> (r: String)
        ensures
            exists|ss: Seq<CachedDnsRecord>|
                {
                    &&& (#[trigger] ss.to_multiset()) == self.records@.filter(
                        |rec: CachedDnsRecord| !rec.spec_is_expired(now),
                    ).to_multiset()
                    &&& forall|k1: int, k2: int|
                        0 <= k1 < k2 < ss.len() ==> (#[trigger] ss[k1]).timestamp <= (
                        #[trigger] ss[k2]).timestamp
                    &&& r@ == spec_render_domain_file(
                        ss.map_values(|rec: CachedDnsRecord| spec_line_of(rec, now)),
                    )
                },
    {
        broadcast use vstd::seq_lib::group_filter_ensures;

        let mut live: Vec<CachedDnsRecord> = Vec::new();
        let mut i: usize = 0;
        proof {
            reveal(Seq::filter);
            assert(self.records@.subrange(0, 0) =~= Seq::<CachedDnsRecord>::empty());
        }
        while i < self.records.len()
            invariant
                i <= self.records@.len(),
                live@ == self.records@.subrange(0, i as int).filter(
                    |rec: CachedDnsRecord| !rec.spec_is_expired(now),
                ),
            decreases self.records@.len() - i,
        {
            let ghost prefix = self.records@.subrange(0, i as int);
            let ghost old_live = live@;
            let keep = !self.records[i].is_expired(now);
            if keep {
                let rec = clone_record(&self.records[i]);
                live.push(rec);
            }
            proof {
                let pred = |rec: CachedDnsRecord| !rec.spec_is_expired(now);
                assert(prefix.push(self.records@[i as int]) =~= self.records@.subrange(0, i + 1));
                Seq::lemma_filter_push(prefix, self.records@[i as int], pred);
                if keep {
                    assert(live@ =~= old_live.push(self.records@[i as int]));
                }
            }
            i += 1;
        }
        proof {
            assert(self.records@.subrange(0, self.records@.len() as int) =~= self.records@);
        }
        let sorted = sort_records_by_timestamp(live);
        let ghost ss = sorted@;
        let mut r = String::new();
        let mut k: usize = 0;
        proof {
            assert(ss.subrange(0, 0) =~= Seq::<CachedDnsRecord>::empty());
            assert(r@ =~= spec_render_domain_file(
                ss.subrange(0, 0).map_values(|rec: CachedDnsRecord| spec_line_of(rec, now)),
            ));
        }
        while k < sorted.len()
            invariant
                k <= ss.len(),
                sorted@ == ss,
                r@ == spec_render_domain_file(
                    ss.subrange(0, k as int).map_values(
                        |rec: CachedDnsRecord| spec_line_of(rec, now),
                    ),
                ),
            decreases ss.len() - k,
        {
            let rec = &sorted[k];
            let ghost prefix = ss.subrange(0, k as int).map_values(
                |x: CachedDnsRecord| spec_line_of(x, now),
            );
            let ttl_str = u64_to_string(rec.remaining_ttl(now));
            let ip = ip_field_of(rec);
            string_push(&mut r, '|');
            r.append(rec.cache_id.as_str());
            string_push(&mut r, '|');
            r.append(rec.matched_domain.as_str());
            string_push(&mut r, '|');
            r.append(rec.upstream.as_str());
            string_push(&mut r, '|');
            r.append(rec.domain.as_str());
            string_push(&mut r, '|');
            r.append(ttl_str.as_str());
            string_push(&mut r, '|');
            r.append(ip.as_str());
            string_push(&mut r, '|');
            string_push(&mut r, '\n');
            proof {
                lemma_render_domain_push(prefix, spec_line_of(ss[k as int], now));
                assert(ss.subrange(0, k + 1).map_values(
                    |x: CachedDnsRecord| spec_line_of(x, now),
                ) =~= prefix.push(spec_line_of(ss[k as int], now)));
                assert(r@ =~= spec_render_domain_file(prefix) + spec_domain_line(
                    spec_line_of(ss[k as int], now),
                ) + seq!['\n']);
            }
            k += 1;
        }
        proof {
            assert(ss.subrange(0, ss.len() as int) =~= ss);
        }
        r
    }
}

/// The last payload a sequence of lines assigns to a queried name.
pub open spec fn spec_last_line_for(ts: Seq<DomainLine>, k: Seq<char>) -> Option<DomainLine>
    decreases ts.len(),
{
    if ts.len() == 0 {
        None
    } else if ts.last().domain == k {
        Some(ts.last())
    } else {
        spec_last_line_for(ts.drop_last(), k)
    }
}

/// A key with a last payload occurs in the lines.
proof fn lemma_last_line_some(ts: Seq<DomainLine>, k: Seq<char>)
    requires
        spec_last_line_for(ts, k) is Some,
    ensures
        exists|i: int| 0 <= i < ts.len() && (#[trigger] ts[i]).domain == k,
    decreases ts.len(),
{
    if ts.len() > 0 {
        if ts.last().domain == k {
            assert(ts[ts.len() - 1].domain == k);
        } else {
            lemma_last_line_some(ts.drop_last(), k);
            let i = choose|i: int|
                0 <= i < ts.drop_last().len() && (#[trigger] ts.drop_last()[i]).domain == k;
            assert(ts[i].domain == k);
        }
    }
}

/// Parsing response-cache lines distributes over concatenation.
proof fn lemma_parse_domain_lines_concat(a: Seq<Seq<char>>, b: Seq<Seq<char>>)
    ensures
        spec_parse_domain_lines(a + b) == spec_parse_domain_lines(a) + spec_parse_domain_lines(b),
    decreases a.len(),
{
    if a.len() == 0 {
        assert(a + b =~= b);
        assert(spec_parse_domain_lines(a) =~= Seq::<DomainLine>::empty());
        assert(spec_parse_domain_lines(a + b) =~= spec_parse_domain_lines(a)
            + spec_parse_domain_lines(b));
    } else {
        let a1 = a.subrange(1, a.len() as int);
        lemma_parse_domain_lines_concat(a1, b);
        let s = a + b;
        assert(s[0] == a[0]);
        assert(s.subrange(1, s.len() as int) =~= a1 + b);
        assert(spec_parse_domain_lines(s) =~= spec_parse_domain_lines(a) + spec_parse_domain_lines(
            b,
        ));
    }
}

impl DomainCache {
    /// Read a persisted response-cache file back in: every parseable line
    /// becomes a placeholder record (no message, expiry `now` plus the
    /// stored TTL, insertion time `wall`); the last line wins where names
    /// repeat, other lines are skipped, and records under other names stay.
    pub fn load_from_text(&mut self, text: &str, now: u64, wall: u64)
        requires
            old(self).wf(),
        ensures
            final(self).wf(),
            final(self).same_config(*old(self)),
            forall|k: Seq<char>|
                final(self).spec_has_key(k) == (old(self).spec_has_key(k) || exists|i: int|
                    0 <= i < spec_parse_domain_file(text@).len() && (
                    #[trigger] spec_parse_domain_file(text@)[i]).domain == k),
            forall|k: Seq<char>|
                match #[trigger] spec_last_line_for(spec_parse_domain_file(text@), k) {
                    Some(t) => ({
                        let r = final(self).spec_record(k);
                        &&& r.cache_id@ == t.cache_id
                        &&& r.matched_domain@ == t.matched_domain
                        &&& r.upstream@ == t.upstream
                        &&& r.domain@ == t.domain
                        &&& r.original_ttl == t.ttl
                        &&& r.expire_at == spec_sat_add(now, t.ttl)
                        &&& r.timestamp == wall
                        &&& r.message is None
                    }),
                    None => old(self).spec_has_key(k) ==> final(self).spec_record(k) == old(
                        self,
                    ).spec_record(k),
                },
    {
        let lines = split_char(text, '\n');
        let ghost lv = lines.deep_view();
        let mut li: usize = 0;
        proof {
            assert(lv.subrange(0, 0) =~= Seq::<Seq<char>>::empty());
        }
        while li < lines.len()
            invariant
                li <= lv.len(),
                lines.deep_view() == lv,
                lv == spec_split_char(text@, '\n'),
                self.wf(),
                self.same_config(*old(self)),
                forall|k: Seq<char>|
                    self.spec_has_key(k) == (old(self).spec_has_key(k) || exists|i: int|
                        0 <= i < spec_parse_domain_lines(lv.subrange(0, li as int)).len() && (
                        #[trigger] spec_parse_domain_lines(lv.subrange(0, li as int))[i]).domain
                            == k),
                forall|k: Seq<char>|
                    match #[trigger] spec_last_line_for(
                        spec_parse_domain_lines(lv.subrange(0, li as int)),
                        k,
                    ) {
                        Some(t) => ({
                            let r = self.spec_record(k);
                            &&& r.cache_id@ == t.cache_id
                            &&& r.matched_domain@ == t.matched_domain
                            &&& r.upstream@ == t.upstream
                            &&& r.domain@ == t.domain
                            &&& r.original_ttl == t.ttl
                            &&& r.expire_at == spec_sat_add(now, t.ttl)
                            &&& r.timestamp == wall
                            &&& r.message is None
                        }),
                        None => old(self).spec_has_key(k) ==> self.spec_record(k) == old(
                            self,
                        ).spec_record(k),
                    },
            decreases lv.len() - li,
        {
            let ghost prefix = spec_parse_domain_lines(lv.subrange(0, li as int));
            let parts = {
                let raw = split_char(lines[li].as_str(), '|');
                filter_nonempty(&raw)
            };
            proof {
                assert(lv[li as int] == lines@[li as int]@);
                assert(parts.deep_view() == spec_nonempty(spec_split_char(lv[li as int], '|')));
                assert(lv.subrange(0, li + 1) =~= lv.subrange(0, li as int) + seq![lv[li as int]]);
                lemma_parse_domain_lines_concat(lv.subrange(0, li as int), seq![lv[li as int]]);
                let single = seq![lv[li as int]];
                assert(single.subrange(1, 1) =~= Seq::<Seq<char>>::empty());
                assert(spec_parse_domain_lines(single.subrange(1, 1)) =~= Seq::<
                    DomainLine,
                >::empty());
            }
            if parts.len() == 6 {
                let ghost t = spec_parse_domain_line(lv[li as int])->0;
                proof {
                    assert(parts.deep_view()[0] == parts@[0]@ && parts.deep_view()[1]
                        == parts@[1]@ && parts.deep_view()[2] == parts@[2]@
                        && parts.deep_view()[3] == parts@[3]@ && parts.deep_view()[4]
                        == parts@[4]@ && parts.deep_view()[5] == parts@[5]@);
                    assert(spec_parse_domain_line(lv[li as int]) is Some);
                    assert(spec_parse_domain_lines(lv.subrange(0, li + 1)) =~= prefix.push(t));
                }
                let ttl = match parse_u64(parts[4].as_str()) {
                    Some(v) => v,
                    None => 0,
                };
                let expire_at = if now > u64::MAX - ttl {
                    u64::MAX
                } else {
                    now + ttl
                };
                let rec = CachedDnsRecord {
                    cache_id: parts[0].clone(),
                    matched_domain: parts[1].clone(),
                    domain: parts[3].clone(),
                    upstream: parts[2].clone(),
                    original_ttl: ttl,
                    expire_at,
                    timestamp: wall,
                    message: None,
                };
                let ghost pre = *self;
                self.upsert(rec);
                proof {
                    assert forall|k: Seq<char>|
                        match #[trigger] spec_last_line_for(prefix.push(t), k) {
                            Some(u) => ({
                                let r = self.spec_record(k);
                                &&& r.cache_id@ == u.cache_id
                                &&& r.matched_domain@ == u.matched_domain
                                &&& r.upstream@ == u.upstream
                                &&& r.domain@ == u.domain
                                &&& r.original_ttl == u.ttl
                                &&& r.expire_at == spec_sat_add(now, u.ttl)
                                &&& r.timestamp == wall
                                &&& r.message is None
                            }),
                            None => old(self).spec_has_key(k) ==> self.spec_record(k) == old(
                                self,
                            ).spec_record(k),
                        } by {
                        assert(prefix.push(t).last() == t);
                        assert(prefix.push(t).drop_last() =~= prefix);
                        if t.domain == k {
                        } else {
                            assert(spec_last_line_for(prefix.push(t), k) == spec_last_line_for(
                                prefix,
                                k,
                            ));
                            match spec_last_line_for(prefix, k) {
                                Some(u) => {
                                    lemma_last_line_some(prefix, k);
                                    assert(pre.spec_has_key(k));
                                    assert(self.spec_record(k) == pre.spec_record(k));
                                },
                                None => {
                                    if old(self).spec_has_key(k) {
                                        assert(pre.spec_has_key(k));
                                        assert(self.spec_record(k) == pre.spec_record(k));
                                    }
                                },
                            }
                        }
                    }
                    assert forall|k: Seq<char>|
                        self.spec_has_key(k) == (old(self).spec_has_key(k) || exists|i: int|
                            0 <= i < prefix.push(t).len() && (#[trigger] prefix.push(t)[i]).domain
                                == k) by {
                        if k == t.domain {
                            assert(prefix.push(t)[prefix.len() as int].domain == k);
                        } else {
                            if exists|i: int|
                                0 <= i < prefix.len() && (#[trigger] prefix[i]).domain == k {
                                let i = choose|i: int|
                                    0 <= i < prefix.len() && (#[trigger] prefix[i]).domain == k;
                                assert(prefix.push(t)[i].domain == k);
                            }
                            if exists|i: int|
                                0 <= i < prefix.push(t).len() && (
                                #[trigger] prefix.push(t)[i]).domain == k {
                                let i = choose|i: int|
                                    0 <= i < prefix.push(t).len() && (
                                    #[trigger] prefix.push(t)[i]).domain == k;
                                assert(i < prefix.len());
                                assert(prefix[i].domain == k);
                            }
                        }
                    }
                }
            } else {
                proof {
                    assert(parts.deep_view().len() != 6);
                    assert(spec_parse_domain_line(lv[li as int]) is None);
                    assert(spec_parse_domain_lines(lv.subrange(0, li + 1)) =~= prefix);
                }
            }
            li += 1;
        }
        proof {
            assert(lv.subrange(0, lv.len() as int) =~= lv);
        }
    }
}

} // verus!

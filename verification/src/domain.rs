//! Domain names as dot-separated label lists: depth, suffix candidates, and
//! the longest-suffix matching relation the rule engine and the rule cache
//! share.

use vstd::prelude::*;
use crate::text::{
    filter_nonempty, join_char, spec_ends_with, spec_join_char, spec_nonempty, spec_split_char,
    split_char, str_ends_with, str_eq, string_push,
};

verus! {

/// The non-empty labels of a domain name, in order.
pub open spec fn spec_labels(s: Seq<char>) -> Seq<Seq<char>> {
    spec_nonempty(spec_split_char(s, '.'))
}

/// Depth of a domain name: the number of non-empty labels. The root `.` has
/// depth 0, `com` has depth 1, `google.com` has depth 2.
pub open spec fn spec_domain_depth(s: Seq<char>) -> nat {
    spec_labels(s).len()
}

/// The candidate name at depth `d`: the last `d` labels joined with dots,
/// or `.` at depth 0.
pub open spec fn spec_suffix_at_depth(labels: Seq<Seq<char>>, d: int) -> Seq<char> {
    if d == 0 {
        seq!['.']
    } else {
        spec_join_char(labels.subrange(labels.len() - d, labels.len() as int), '.')
    }
}

/// Whether `m` matches `q` in the longest-suffix sense: the root matches
/// everything, and otherwise `m` must be `q` itself or a dot-separated
/// suffix of it.
pub open spec fn spec_domain_matches(q: Seq<char>, m: Seq<char>) -> bool {
    m == seq!['.'] || q == m || spec_ends_with(q, seq!['.'] + m)
}

/// Splitting a concatenation at an explicit separator splits each half.
pub proof fn lemma_split_concat(a: Seq<char>, b: Seq<char>, c: char)
    ensures
        spec_split_char(a + seq![c] + b, c) == spec_split_char(a, c) + spec_split_char(b, c),
    decreases a.len(),
{
    let s = a + seq![c] + b;
    if a.len() == 0 {
        assert(s[0] == c);
        assert(s.subrange(1, s.len() as int) =~= b);
        assert(spec_split_char(a, c) == seq![Seq::<char>::empty()]);
        assert(spec_split_char(s, c) =~~= spec_split_char(a, c) + spec_split_char(b, c));
    } else {
        let a1 = a.subrange(1, a.len() as int);
        lemma_split_concat(a1, b, c);
        assert(s[0] == a[0]);
        assert(s.subrange(1, s.len() as int) =~= a1 + seq![c] + b);
        crate::text::lemma_split_len_pos(a1, c);
        crate::text::lemma_split_len_pos(b, c);
        let ra = spec_split_char(a1, c);
        let rs = ra + spec_split_char(b, c);
        if a[0] == c {
            assert(spec_split_char(a, c) == seq![Seq::<char>::empty()] + ra);
            assert(spec_split_char(s, c) == seq![Seq::<char>::empty()] + rs);
            assert(spec_split_char(s, c) =~~= spec_split_char(a, c) + spec_split_char(b, c));
        } else {
            assert(rs[0] == ra[0]);
            assert(rs.subrange(1, rs.len() as int) =~= ra.subrange(1, ra.len() as int)
                + spec_split_char(b, c));
            assert(spec_split_char(s, c) == seq![seq![s[0]] + rs[0]] + rs.subrange(
                1,
                rs.len() as int,
            ));
            assert(spec_split_char(a, c) == seq![seq![a[0]] + ra[0]] + ra.subrange(
                1,
                ra.len() as int,
            ));
            assert(spec_split_char(s, c) =~~= spec_split_char(a, c) + spec_split_char(b, c));
        }
    }
}

/// Depth adds up across a dot: the labels of `a.b` are those of `a`
/// followed by those of `b`.
pub proof fn lemma_depth_concat(a: Seq<char>, b: Seq<char>)
    ensures
        spec_labels(a + seq!['.'] + b) == spec_labels(a) + spec_labels(b),
        spec_domain_depth(a + seq!['.'] + b) == spec_domain_depth(a) + spec_domain_depth(b),
{
    lemma_split_concat(a, b, '.');
    Seq::filter_distributes_over_add(
        spec_split_char(a, '.'),
        spec_split_char(b, '.'),
        |p: Seq<char>| p.len() > 0,
    );
}

/// The root name has depth 0.
pub proof fn lemma_root_depth()
    ensures
        spec_domain_depth(seq!['.']) == 0,
{
    let s = seq!['.'];
    assert(s.subrange(1, 1) =~= Seq::<char>::empty());
    assert(spec_split_char(Seq::<char>::empty(), '.') == seq![Seq::<char>::empty()]);
    assert(s.len() == 1 && s[0] == '.');
    assert(spec_split_char(s, '.') == seq![Seq::<char>::empty()] + spec_split_char(
        s.subrange(1, 1),
        '.',
    ));
    assert(spec_split_char(s, '.') == seq![Seq::<char>::empty()] + seq![Seq::<char>::empty()]);
    let parts = spec_split_char(s, '.');
    let pred = |p: Seq<char>| p.len() > 0;
    assert(parts =~= seq![Seq::<char>::empty(), Seq::<char>::empty()]);
    assert(parts.filter(pred) =~= Seq::<Seq<char>>::empty()) by {
        reveal(Seq::filter);
        assert(parts.drop_last() =~= seq![Seq::<char>::empty()]);
        assert(seq![Seq::<char>::empty()].drop_last() =~= Seq::<Seq<char>>::empty());
        assert(Seq::<Seq<char>>::empty().filter(pred) =~= Seq::<Seq<char>>::empty());
    }
}

/// A name that matches `q` is no deeper than `q`.
pub proof fn lemma_matches_depth_le(q: Seq<char>, m: Seq<char>)
    requires
        spec_domain_matches(q, m),
    ensures
        spec_domain_depth(m) <= spec_domain_depth(q),
{
    if m == seq!['.'] {
        lemma_root_depth();
    } else if q == m {
    } else {
        assert(spec_ends_with(q, seq!['.'] + m));
        let k = (seq!['.'] + m).len();
        assert(k == m.len() + 1);
        let suf = q.subrange(q.len() - k, q.len() as int);
        assert(suf == seq!['.'] + m);
        let pre = q.subrange(0, q.len() - k);
        assert forall|i: int| 0 <= i < q.len() implies q[i] == (pre + seq!['.'] + m)[i] by {
            if i < pre.len() {
            } else if i == pre.len() {
                assert(q[i] == suf[0]);
                assert(suf[0] == (seq!['.'] + m)[0]);
            } else {
                assert(q[i] == suf[i - pre.len()]);
                assert(suf[i - pre.len()] == (seq!['.'] + m)[i - pre.len()]);
            }
        }
        assert(q =~= pre + seq!['.'] + m);
        lemma_depth_concat(pre, m);
    }
}

/// The non-empty labels of `domain`, in order.
pub fn domain_labels(domain: &str) -> (r: Vec<String>)
    ensures
        r.deep_view() == spec_labels(domain@),
{
    let parts = split_char(domain, '.');
    filter_nonempty(&parts)
}

/// Depth of `domain`: its number of non-empty labels.
pub fn domain_depth(domain: &str) -> (d: usize)
    ensures
        d == spec_domain_depth(domain@),
{
    let labels = domain_labels(domain);
    labels.len()
}

/// The candidate name of `labels` at depth `d`.
pub fn suffix_at_depth(labels: &Vec<String>, d: usize) -> (r: String)
    requires
        d <= labels@.len(),
    ensures
        r@ == spec_suffix_at_depth(labels.deep_view(), d as int),
{
    if d == 0 {
        let dot = String::new();
        let mut dot = dot;
        string_push(&mut dot, '.');
        assert(dot@ =~= seq!['.']);
        dot
    } else {
        let mut tail: Vec<String> = Vec::new();
        let start = labels.len() - d;
        let mut i: usize = start;
        while i < labels.len()
            invariant
                start <= i <= labels@.len(),
                start == labels@.len() - d,
                tail.deep_view() == labels.deep_view().subrange(start as int, i as int),
            decreases labels@.len() - i,
        {
            let ghost old_tail = tail.deep_view();
            let piece = labels[i].clone();
            tail.push(piece);
            proof {
                assert(tail.deep_view() =~= old_tail.push(labels.deep_view()[i as int]));
                assert(tail.deep_view() =~= labels.deep_view().subrange(start as int, i + 1));
            }
            i += 1;
        }
        join_char(&tail, '.')
    }
}

/// Whether `match_domain` matches `qname` in the longest-suffix sense.
pub fn domain_matches(qname: &str, match_domain: &str) -> (r: bool)
    ensures
        r == spec_domain_matches(qname@, match_domain@),
{
    let mut dot = String::new();
    string_push(&mut dot, '.');
    assert(dot@ =~= seq!['.']);
    if str_eq(match_domain, dot.as_str()) {
        return true;
    }
    if str_eq(qname, match_domain) {
        return true;
    }
    let mut dotted = dot;
    dotted.append(match_domain);
    assert(dotted@ =~= seq!['.'] + match_domain@);
    str_ends_with(qname, dotted.as_str())
}

/// Whether some string of `v` equals `s`, character-wise.
pub fn vec_contains_str(v: &Vec<String>, s: &str) -> (r: bool)
    ensures
        r == v.deep_view().contains(s@),
{
    let mut i: usize = 0;
    while i < v.len()
        invariant
            i <= v@.len(),
            forall|j: int| 0 <= j < i ==> v.deep_view()[j] != s@,
        decreases v@.len() - i,
    {
        if str_eq(v[i].as_str(), s) {
            assert(v.deep_view()[i as int] == s@);
            return true;
        }
        i += 1;
    }
    assert(!v.deep_view().contains(s@));
    false
}

} // verus!

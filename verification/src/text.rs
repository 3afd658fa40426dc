//! Character-sequence utilities: splitting and joining on a separator,
//! digit-string parsing, and small exec helpers over `&str` and `String`.
//!
//! Everything here is stated over `Seq<char>` views, so the rest of the
//! library can describe domain names and cache-file lines mathematically.

use vstd::prelude::*;
use vstd::string::*;

verus! {

/// Splitting a character sequence at every occurrence of `c`, keeping empty
/// pieces, exactly as `str::split` does: the result always has at least one
/// element, and splitting the empty sequence yields one empty piece.
pub open spec fn spec_split_char(s: Seq<char>, c: char) -> Seq<Seq<char>>
    decreases s.len(),
{
    if s.len() == 0 {
        seq![Seq::<char>::empty()]
    } else if s[0] == c {
        seq![Seq::<char>::empty()] + spec_split_char(s.subrange(1, s.len() as int), c)
    } else {
        let rest = spec_split_char(s.subrange(1, s.len() as int), c);
        seq![seq![s[0]] + rest[0]] + rest.subrange(1, rest.len() as int)
    }
}

/// Joining pieces with a single `c` between adjacent pieces.
pub open spec fn spec_join_char(parts: Seq<Seq<char>>, c: char) -> Seq<char>
    decreases parts.len(),
{
    if parts.len() == 0 {
        Seq::<char>::empty()
    } else if parts.len() == 1 {
        parts[0]
    } else {
        parts[0] + seq![c] + spec_join_char(parts.subrange(1, parts.len() as int), c)
    }
}

/// The non-empty pieces, in order.
pub open spec fn spec_nonempty(parts: Seq<Seq<char>>) -> Seq<Seq<char>> {
    parts.filter(|p: Seq<char>| p.len() > 0)
}

pub proof fn lemma_split_len_pos(s: Seq<char>, c: char)
    ensures
        spec_split_char(s, c).len() >= 1,
    decreases s.len(),
{
    if s.len() == 0 {
    } else if s[0] == c {
    } else {
        lemma_split_len_pos(s.subrange(1, s.len() as int), c);
    }
}

/// A sequence without the separator splits into just itself.
pub proof fn lemma_split_no_sep(s: Seq<char>, c: char)
    requires
        !s.contains(c),
    ensures
        spec_split_char(s, c) == seq![s],
    decreases s.len(),
{
    if s.len() == 0 {
        assert(spec_split_char(s, c) =~~= seq![s]);
    } else {
        assert(s[0] != c);
        let tail = s.subrange(1, s.len() as int);
        assert(forall|i: int| 0 <= i < tail.len() ==> tail[i] == s[i + 1]);
        assert(!tail.contains(c)) by {
            if tail.contains(c) {
                let i = choose|i: int| 0 <= i < tail.len() && tail[i] == c;
                assert(s[i + 1] == c);
            }
        }
        lemma_split_no_sep(tail, c);
        assert(spec_split_char(s, c) =~~= seq![s]);
    }
}

/// Splitting `p + [c] + t` where `p` has no separator peels off `p`.
pub proof fn lemma_split_append_sep(p: Seq<char>, t: Seq<char>, c: char)
    requires
        !p.contains(c),
    ensures
        spec_split_char(p + seq![c] + t, c) == seq![p] + spec_split_char(t, c),
    decreases p.len(),
{
    let s = p + seq![c] + t;
    if p.len() == 0 {
        assert(s[0] == c);
        assert(s.subrange(1, s.len() as int) =~= t);
        assert(spec_split_char(s, c) =~~= seq![p] + spec_split_char(t, c));
    } else {
        assert(s[0] == p[0]);
        assert(p[0] != c);
        let p1 = p.subrange(1, p.len() as int);
        assert(!p1.contains(c)) by {
            if p1.contains(c) {
                let i = choose|i: int| 0 <= i < p1.len() && p1[i] == c;
                assert(p[i + 1] == c);
            }
        }
        lemma_split_append_sep(p1, t, c);
        assert(s.subrange(1, s.len() as int) =~= p1 + seq![c] + t);
        let rest = spec_split_char(p1 + seq![c] + t, c);
        assert(rest == seq![p1] + spec_split_char(t, c));
        lemma_split_len_pos(t, c);
        assert(rest[0] == p1);
        assert(rest.subrange(1, rest.len() as int) =~= spec_split_char(t, c));
        assert(seq![s[0]] + rest[0] =~= p);
        assert(spec_split_char(s, c) =~~= seq![p] + spec_split_char(t, c));
    }
}

/// Splitting inverts joining, when the pieces are free of the separator.
pub proof fn lemma_split_join(parts: Seq<Seq<char>>, c: char)
    requires
        parts.len() >= 1,
        forall|i: int| 0 <= i < parts.len() ==> !(#[trigger] parts[i]).contains(c),
    ensures
        spec_split_char(spec_join_char(parts, c), c) == parts,
    decreases parts.len(),
{
    if parts.len() == 1 {
        lemma_split_no_sep(parts[0], c);
        assert(spec_split_char(spec_join_char(parts, c), c) =~~= parts);
    } else {
        let tail = parts.subrange(1, parts.len() as int);
        lemma_split_join(tail, c);
        lemma_split_append_sep(parts[0], spec_join_char(tail, c), c);
        assert(spec_split_char(spec_join_char(parts, c), c) =~~= parts);
    }
}

/// Joining inverts splitting, unconditionally.
pub proof fn lemma_join_split(s: Seq<char>, c: char)
    ensures
        spec_join_char(spec_split_char(s, c), c) == s,
    decreases s.len(),
{
    if s.len() == 0 {
    } else {
        let tail = s.subrange(1, s.len() as int);
        lemma_join_split(tail, c);
        lemma_split_len_pos(tail, c);
        let rest = spec_split_char(tail, c);
        assert(s =~= seq![s[0]] + tail);
        if s[0] == c {
            let whole = seq![Seq::<char>::empty()] + rest;
            assert(spec_split_char(s, c) == whole);
            assert(whole.len() >= 2);
            assert(whole.subrange(1, whole.len() as int) =~= rest);
            assert(whole[0] == Seq::<char>::empty());
            assert(spec_join_char(whole, c) == whole[0] + seq![c] + spec_join_char(
                whole.subrange(1, whole.len() as int),
                c,
            ));
            assert(spec_join_char(whole, c) =~= s);
        } else {
            let whole = seq![seq![s[0]] + rest[0]] + rest.subrange(1, rest.len() as int);
            assert(spec_split_char(s, c) == whole);
            if rest.len() == 1 {
                assert(whole.len() == 1);
                assert(spec_join_char(whole, c) == whole[0]);
                assert(spec_join_char(rest, c) == rest[0]);
                assert(whole[0] == seq![s[0]] + rest[0]);
                assert(spec_join_char(whole, c) =~= s);
            } else {
                assert(whole.len() >= 2);
                assert(whole.subrange(1, whole.len() as int) =~= rest.subrange(1, rest.len() as int));
                assert(spec_join_char(rest, c) == rest[0] + seq![c] + spec_join_char(
                    rest.subrange(1, rest.len() as int),
                    c,
                ));
                assert(spec_join_char(whole, c) == whole[0] + seq![c] + spec_join_char(
                    rest.subrange(1, rest.len() as int),
                    c,
                ));
                assert(whole[0] == seq![s[0]] + rest[0]);
                assert(spec_join_char(whole, c) =~= s);
            }
        }
    }
}

/// Joining one more piece on the right appends a separator and the piece.
pub proof fn lemma_join_push(parts: Seq<Seq<char>>, p: Seq<char>, c: char)
    requires
        parts.len() >= 1,
    ensures
        spec_join_char(parts.push(p), c) == spec_join_char(parts, c) + seq![c] + p,
    decreases parts.len(),
{
    if parts.len() == 1 {
        let whole = parts.push(p);
        assert(whole.len() == 2);
        assert(whole.subrange(1, whole.len() as int) =~= seq![p]);
        assert(spec_join_char(whole, c) == whole[0] + seq![c] + spec_join_char(
            whole.subrange(1, whole.len() as int),
            c,
        ));
        assert(spec_join_char(seq![p], c) == p);
        assert(whole[0] == parts[0]);
        assert(spec_join_char(parts, c) == parts[0]);
        assert(spec_join_char(whole, c) =~= spec_join_char(parts, c) + seq![c] + p);
    } else {
        let tail = parts.subrange(1, parts.len() as int);
        lemma_join_push(tail, p, c);
        let whole = parts.push(p);
        assert(whole.subrange(1, whole.len() as int) =~= tail.push(p));
        assert(spec_join_char(whole, c) =~= spec_join_char(parts, c) + seq![c] + p);
    }
}

/// Splitting a suffix of `s` unfolds one step at position `i`.
proof fn lemma_split_unfold_at(s: Seq<char>, c: char, i: int)
    requires
        0 <= i < s.len(),
    ensures
        s[i] == c ==> spec_split_char(s.subrange(i, s.len() as int), c) == seq![
            Seq::<char>::empty(),
        ] + spec_split_char(s.subrange(i + 1, s.len() as int), c),
        s[i] != c ==> spec_split_char(s.subrange(i, s.len() as int), c) == {
            let rest = spec_split_char(s.subrange(i + 1, s.len() as int), c);
            seq![seq![s[i]] + rest[0]] + rest.subrange(1, rest.len() as int)
        },
{
    let t = s.subrange(i, s.len() as int);
    assert(t.len() > 0);
    assert(t[0] == s[i]);
    assert(t.subrange(1, t.len() as int) =~= s.subrange(i + 1, s.len() as int));
}

/// The pieces still to be produced, once `pre` has been read of the current
/// piece and `ps` is the split of the unread input.
spec fn spec_split_acc(pre: Seq<char>, ps: Seq<Seq<char>>) -> Seq<Seq<char>> {
    seq![pre + ps[0]] + ps.subrange(1, ps.len() as int)
}

// --- exec helpers ---

/// Relies on String::push: appends exactly one character.
#[verifier::external_body]
pub fn string_push(s: &mut String, c: char)
    ensures
        final(s)@ == old(s)@.push(c),
{
    s.push(c);
}

/// The characters of `s`, in order.
pub fn str_chars(s: &str) -> (r: Vec<char>)
    ensures
        r@ == s@,
{
    let n = s.unicode_len();
    let mut r: Vec<char> = Vec::new();
    let mut i: usize = 0;
    while i < n
        invariant
            i <= n,
            n == s@.len(),
            r@ == s@.subrange(0, i as int),
        decreases n - i,
    {
        let ch = s.get_char(i);
        r.push(ch);
        assert(r@ =~= s@.subrange(0, i + 1));
        i += 1;
    }
    assert(r@ =~= s@);
    r
}

/// A string with exactly the given characters.
pub fn string_from_chars(v: &Vec<char>) -> (r: String)
    ensures
        r@ == v@,
{
    let mut r = String::new();
    let mut i: usize = 0;
    while i < v.len()
        invariant
            i <= v.len(),
            r@ == v@.subrange(0, i as int),
        decreases v.len() - i,
    {
        string_push(&mut r, v[i]);
        assert(r@ =~= v@.subrange(0, i + 1));
        i += 1;
    }
    assert(r@ =~= v@);
    r
}

/// Character-wise equality of two string slices.
pub fn str_eq(a: &str, b: &str) -> (r: bool)
    ensures
        r == (a@ == b@),
{
    let na = a.unicode_len();
    let nb = b.unicode_len();
    if na != nb {
        return false;
    }
    let mut i: usize = 0;
    while i < na
        invariant
            i <= na,
            na == a@.len(),
            na == b@.len(),
            forall|j: int| 0 <= j < i ==> a@[j] == b@[j],
        decreases na - i,
    {
        if a.get_char(i) != b.get_char(i) {
            return false;
        }
        i += 1;
    }
    assert(a@ =~= b@);
    true
}

/// Whether `s` contains the character `c`.
pub fn str_contains_char(s: &str, c: char) -> (r: bool)
    ensures
        r == s@.contains(c),
{
    let n = s.unicode_len();
    let mut i: usize = 0;
    while i < n
        invariant
            i <= n,
            n == s@.len(),
            forall|j: int| 0 <= j < i ==> s@[j] != c,
        decreases n - i,
    {
        if s.get_char(i) == c {
            return true;
        }
        i += 1;
    }
    false
}

/// Split `s` at every occurrence of `c`, keeping empty pieces.
pub fn split_char(s: &str, c: char) -> (r: Vec<String>)
    ensures
        r.deep_view() == spec_split_char(s@, c),
{
    let n = s.unicode_len();
    let mut parts: Vec<String> = Vec::new();
    let mut cur: String = String::new();
    let mut i: usize = 0;
    proof {
        assert(s@.subrange(0, s@.len() as int) =~= s@);
    }
    while i < n
        invariant
            i <= n,
            n == s@.len(),
            spec_split_char(s@, c) =~= parts.deep_view() + spec_split_acc(
                cur@,
                spec_split_char(s@.subrange(i as int, s@.len() as int), c),
            ),
        decreases n - i,
    {
        proof {
            lemma_split_unfold_at(s@, c, i as int);
            lemma_split_len_pos(s@.subrange(i + 1, s@.len() as int), c);
        }
        let ghost old_parts = parts.deep_view();
        let ghost old_cur = cur@;
        let ghost rest1 = spec_split_char(s@.subrange(i + 1, s@.len() as int), c);
        let ch = s.get_char(i);
        if ch == c {
            parts.push(cur);
            cur = String::new();
            proof {
                assert(parts.deep_view() =~= old_parts.push(old_cur));
                assert(rest1 =~= seq![rest1[0]] + rest1.subrange(1, rest1.len() as int));
                assert(parts.deep_view() + spec_split_acc(cur@, rest1) =~= old_parts
                    + spec_split_acc(old_cur, seq![Seq::<char>::empty()] + rest1));
            }
        } else {
            string_push(&mut cur, ch);
            proof {
                let rest = seq![seq![s@[i as int]] + rest1[0]] + rest1.subrange(
                    1,
                    rest1.len() as int,
                );
                assert(cur@ + rest1[0] =~= old_cur + rest[0]);
                assert(parts.deep_view() + spec_split_acc(cur@, rest1) =~= old_parts
                    + spec_split_acc(old_cur, rest));
            }
        }
        i += 1;
    }
    proof {
        assert(s@.subrange(n as int, s@.len() as int) =~= Seq::<char>::empty());
        assert(spec_split_char(Seq::<char>::empty(), c) == seq![Seq::<char>::empty()]);
        assert(spec_split_acc(cur@, seq![Seq::<char>::empty()]) =~= seq![cur@]);
    }
    let ghost old_parts = parts.deep_view();
    let ghost final_cur = cur@;
    parts.push(cur);
    proof {
        assert(parts.deep_view() =~= old_parts.push(final_cur));
        assert(parts.deep_view() =~= spec_split_char(s@, c));
    }
    parts
}

/// Join the pieces with a single `c` between adjacent pieces.
pub fn join_char(parts: &Vec<String>, c: char) -> (r: String)
    requires
        parts@.len() >= 1,
    ensures
        r@ == spec_join_char(parts.deep_view(), c),
{
    let mut r: String = parts[0].clone();
    let mut i: usize = 1;
    proof {
        assert(parts.deep_view().subrange(0, 1) =~= seq![parts@[0]@]);
    }
    while i < parts.len()
        invariant
            1 <= i <= parts@.len(),
            r@ == spec_join_char(parts.deep_view().subrange(0, i as int), c),
        decreases parts@.len() - i,
    {
        let ghost prefix = parts.deep_view().subrange(0, i as int);
        proof {
            lemma_join_push(prefix, parts.deep_view()[i as int], c);
            assert(prefix.push(parts.deep_view()[i as int]) =~= parts.deep_view().subrange(
                0,
                i + 1,
            ));
        }
        string_push(&mut r, c);
        r.append(parts[i].as_str());
        i += 1;
    }
    proof {
        assert(parts.deep_view().subrange(0, parts@.len() as int) =~= parts.deep_view());
    }
    r
}

/// The non-empty strings of `parts`, in order.
pub fn filter_nonempty(parts: &Vec<String>) -> (r: Vec<String>)
    ensures
        r.deep_view() == spec_nonempty(parts.deep_view()),
{
    broadcast use vstd::seq_lib::group_filter_ensures;

    let mut r: Vec<String> = Vec::new();
    let mut i: usize = 0;
    proof {
        assert(parts.deep_view().subrange(0, 0) =~= Seq::<Seq<char>>::empty());
        reveal(Seq::filter);
    }
    while i < parts.len()
        invariant
            i <= parts@.len(),
            r.deep_view() == spec_nonempty(parts.deep_view().subrange(0, i as int)),
        decreases parts@.len() - i,
    {
        let ghost prefix = parts.deep_view().subrange(0, i as int);
        let ghost old_r = r.deep_view();
        let keep = !parts[i].as_str().is_empty();
        if keep {
            let piece = parts[i].clone();
            r.push(piece);
        }
        proof {
            let pred = |p: Seq<char>| p.len() > 0;
            assert(prefix.push(parts.deep_view()[i as int]) =~= parts.deep_view().subrange(
                0,
                i + 1,
            ));
            Seq::lemma_filter_push(prefix, parts.deep_view()[i as int], pred);
            if keep {
                assert(r.deep_view() =~= old_r.push(parts.deep_view()[i as int]));
            }
        }
        i += 1;
    }
    proof {
        assert(parts.deep_view().subrange(0, parts@.len() as int) =~= parts.deep_view());
    }
    r
}

/// Whether `s` ends with `suffix`, character-wise.
pub open spec fn spec_ends_with(s: Seq<char>, suffix: Seq<char>) -> bool {
    s.len() >= suffix.len() && s.subrange(s.len() - suffix.len(), s.len() as int) == suffix
}

pub fn str_ends_with(s: &str, suffix: &str) -> (r: bool)
    ensures
        r == spec_ends_with(s@, suffix@),
{
    let n = s.unicode_len();
    let m = suffix.unicode_len();
    if m > n {
        return false;
    }
    let off = n - m;
    let mut i: usize = 0;
    while i < m
        invariant
            i <= m,
            m <= n,
            off == n - m,
            n == s@.len(),
            m == suffix@.len(),
            forall|j: int| 0 <= j < i ==> s@[off + j] == suffix@[j],
        decreases m - i,
    {
        if s.get_char(off + i) != suffix.get_char(i) {
            let ghost k = i as int;
            assert(s@.subrange(s@.len() - suffix@.len(), s@.len() as int)[k] != suffix@[k]);
            return false;
        }
        i += 1;
    }
    assert(s@.subrange(s@.len() - suffix@.len(), s@.len() as int) =~= suffix@);
    true
}

// --- trimming and case-insensitive comparison ---

/// ASCII whitespace.
pub open spec fn spec_is_ws(c: char) -> bool {
    c == ' ' || c == '\t' || c == '\r' || c == '\n'
}

pub open spec fn spec_trim_front(s: Seq<char>) -> Seq<char>
    decreases s.len(),
{
    if s.len() > 0 && spec_is_ws(s[0]) {
        spec_trim_front(s.subrange(1, s.len() as int))
    } else {
        s
    }
}

pub open spec fn spec_trim_back(s: Seq<char>) -> Seq<char>
    decreases s.len(),
{
    if s.len() > 0 && spec_is_ws(s.last()) {
        spec_trim_back(s.drop_last())
    } else {
        s
    }
}

/// `s` with ASCII whitespace removed from both ends.
pub open spec fn spec_trim(s: Seq<char>) -> Seq<char> {
    spec_trim_back(spec_trim_front(s))
}

proof fn lemma_trim_front_step(s: Seq<char>, i: int)
    requires
        0 <= i < s.len(),
        spec_is_ws(s[i]),
    ensures
        spec_trim_front(s.subrange(i, s.len() as int)) == spec_trim_front(
            s.subrange(i + 1, s.len() as int),
        ),
{
    let t = s.subrange(i, s.len() as int);
    assert(t[0] == s[i]);
    assert(t.subrange(1, t.len() as int) =~= s.subrange(i + 1, s.len() as int));
}

proof fn lemma_trim_back_step(s: Seq<char>, j: int)
    requires
        0 < j <= s.len(),
        spec_is_ws(s[j - 1]),
    ensures
        spec_trim_back(s.subrange(0, j)) == spec_trim_back(s.subrange(0, j - 1)),
{
    let t = s.subrange(0, j);
    assert(t.last() == s[j - 1]);
    assert(t.drop_last() =~= s.subrange(0, j - 1));
}

fn is_ws_char(c: char) -> (r: bool)
    ensures
        r == spec_is_ws(c),
{
    c == ' ' || c == '\t' || c == '\r' || c == '\n'
}

/// `s` with ASCII whitespace removed from both ends.
pub fn str_trim<'a>(s: &'a str) -> (r: &'a str)
    ensures
        r@ == spec_trim(s@),
{
    let n = s.unicode_len();
    let mut lo: usize = 0;
    proof {
        assert(s@.subrange(0, s@.len() as int) =~= s@);
    }
    while lo < n && is_ws_char(s.get_char(lo))
        invariant
            lo <= n,
            n == s@.len(),
            spec_trim_front(s@) == spec_trim_front(s@.subrange(lo as int, s@.len() as int)),
        decreases n - lo,
    {
        proof {
            lemma_trim_front_step(s@, lo as int);
        }
        lo += 1;
    }
    proof {
        let t = s@.subrange(lo as int, s@.len() as int);
        if lo < n {
            assert(t[0] == s@[lo as int]);
            assert(spec_trim_front(t) == t);
        } else {
            assert(t =~= Seq::<char>::empty());
            assert(spec_trim_front(s@) == t);
        }
    }
    // spec_trim_front(s@) == s@.subrange(lo, n)
    let mut hi: usize = n;
    while hi > lo && is_ws_char(s.get_char(hi - 1))
        invariant
            lo <= hi <= n,
            n == s@.len(),
            spec_trim_front(s@) == s@.subrange(lo as int, s@.len() as int),
            spec_trim_back(s@.subrange(lo as int, s@.len() as int)) == spec_trim_back(
                s@.subrange(lo as int, hi as int),
            ),
        decreases hi,
    {
        proof {
            let t = s@.subrange(lo as int, s@.len() as int);
            let j = hi - lo;
            assert(t.subrange(0, j as int) =~= s@.subrange(lo as int, hi as int));
            assert(t.subrange(0, j - 1) =~= s@.subrange(lo as int, hi - 1));
            assert(t[j - 1] == s@[hi - 1]);
            lemma_trim_back_step(t, j as int);
        }
        hi -= 1;
    }
    proof {
        let u = s@.subrange(lo as int, hi as int);
        if hi > lo {
            assert(u.last() == s@[hi - 1]);
            assert(spec_trim_back(u) == u);
        } else {
            assert(u =~= Seq::<char>::empty());
            assert(spec_trim_back(s@.subrange(lo as int, s@.len() as int)) == u);
        }
    }
    let r = s.substring_char(lo, hi);
    r
}

/// The code point of `c`, with ASCII upper-case letters folded to lower case.
pub open spec fn spec_lower_int(c: char) -> int {
    if 65 <= c as int <= 90 {
        c as int + 32
    } else {
        c as int
    }
}

/// Character-wise equality up to ASCII case.
pub open spec fn spec_eq_ci(a: Seq<char>, b: Seq<char>) -> bool {
    a.len() == b.len() && forall|i: int|
        0 <= i < a.len() ==> spec_lower_int(a[i]) == spec_lower_int(#[trigger] b[i])
}

/// Whether `a` and `b` are equal up to ASCII case.
pub fn str_eq_ci(a: &str, b: &str) -> (r: bool)
    ensures
        r == spec_eq_ci(a@, b@),
{
    let na = a.unicode_len();
    let nb = b.unicode_len();
    if na != nb {
        return false;
    }
    let mut i: usize = 0;
    while i < na
        invariant
            i <= na,
            na == a@.len(),
            na == b@.len(),
            forall|j: int| 0 <= j < i ==> spec_lower_int(a@[j]) == spec_lower_int(#[trigger] b@[j]),
        decreases na - i,
    {
        let ca = a.get_char(i) as u32;
        let cb = b.get_char(i) as u32;
        let la = if 65 <= ca && ca <= 90 {
            ca + 32
        } else {
            ca
        };
        let lb = if 65 <= cb && cb <= 90 {
            cb + 32
        } else {
            cb
        };
        if la != lb {
            return false;
        }
        i += 1;
    }
    true
}

// --- digit strings ---

pub open spec fn spec_is_digit(c: char) -> bool {
    48 <= c as int <= 57
}

pub open spec fn spec_all_digits(s: Seq<char>) -> bool {
    forall|i: int| 0 <= i < s.len() ==> spec_is_digit(#[trigger] s[i])
}

pub open spec fn spec_digit_val(c: char) -> nat {
    (c as int - 48) as nat
}

/// The number a digit string denotes, most significant digit first.
pub open spec fn spec_digits_val(s: Seq<char>) -> nat
    decreases s.len(),
{
    if s.len() == 0 {
        0
    } else {
        spec_digits_val(s.drop_last()) * 10 + spec_digit_val(s.last())
    }
}

/// A longer digit prefix never denotes a smaller number.
proof fn lemma_digits_val_prefix_le(s: Seq<char>, i: int, j: int)
    requires
        0 <= i <= j <= s.len(),
    ensures
        spec_digits_val(s.subrange(0, i)) <= spec_digits_val(s.subrange(0, j)),
    decreases j - i,
{
    if i < j {
        lemma_digits_val_prefix_le(s, i, j - 1);
        let p = s.subrange(0, j);
        assert(p.drop_last() =~= s.subrange(0, j - 1));
        assert(spec_digits_val(p) == spec_digits_val(p.drop_last()) * 10 + spec_digit_val(
            p.last(),
        ));
    }
}

/// Parse a non-empty all-digit string as a `u64`; `None` on any other
/// input and on overflow.
pub fn parse_u64(s: &str) -> (r: Option<u64>)
    ensures
        match r {
            Some(v) => s@.len() > 0 && spec_all_digits(s@) && v == spec_digits_val(s@),
            None => s@.len() == 0 || !spec_all_digits(s@) || spec_digits_val(s@) > u64::MAX,
        },
{
    let n = s.unicode_len();
    if n == 0 {
        return None;
    }
    let mut val: u64 = 0;
    let mut i: usize = 0;
    proof {
        assert(s@.subrange(0, 0) =~= Seq::<char>::empty());
    }
    while i < n
        invariant
            i <= n,
            n == s@.len(),
            spec_all_digits(s@.subrange(0, i as int)),
            val == spec_digits_val(s@.subrange(0, i as int)),
        decreases n - i,
    {
        let c = s.get_char(i);
        let cu = c as u32;
        if cu < 48 || cu > 57 {
            return None;
        }
        let d: u64 = (cu - 48) as u64;
        proof {
            assert(spec_is_digit(c));
            assert(d == spec_digit_val(c));
            assert(s@.subrange(0, i + 1).drop_last() =~= s@.subrange(0, i as int));
            assert(s@.subrange(0, i + 1).last() == s@[i as int]);
            assert(spec_digits_val(s@.subrange(0, i + 1)) == spec_digits_val(
                s@.subrange(0, i as int),
            ) * 10 + spec_digit_val(s@[i as int]));
        }
        let mut overflow = false;
        match val.checked_mul(10) {
            Some(x) => {
                match x.checked_add(d) {
                    Some(v2) => {
                        val = v2;
                    },
                    None => {
                        overflow = true;
                    },
                }
            },
            None => {
                overflow = true;
            },
        }
        if overflow {
            proof {
                assert(spec_digits_val(s@.subrange(0, i + 1)) > u64::MAX);
                lemma_digits_val_prefix_le(s@, i + 1, n as int);
                assert(s@.subrange(0, n as int) =~= s@);
            }
            return None;
        }
        i += 1;
    }
    proof {
        assert(s@.subrange(0, n as int) =~= s@);
    }
    Some(val)
}

/// Whether `s` begins with `prefix`, character-wise.
pub open spec fn spec_starts_with(s: Seq<char>, prefix: Seq<char>) -> bool {
    s.len() >= prefix.len() && s.subrange(0, prefix.len() as int) == prefix
}

pub fn str_starts_with(s: &str, prefix: &str) -> (r: bool)
    ensures
        r == spec_starts_with(s@, prefix@),
{
    let n = s.unicode_len();
    let m = prefix.unicode_len();
    if m > n {
        return false;
    }
    let mut i: usize = 0;
    while i < m
        invariant
            i <= m,
            m <= n,
            n == s@.len(),
            m == prefix@.len(),
            forall|j: int| 0 <= j < i ==> s@[j] == prefix@[j],
        decreases m - i,
    {
        if s.get_char(i) != prefix.get_char(i) {
            let ghost k = i as int;
            assert(s@.subrange(0, prefix@.len() as int)[k] != prefix@[k]);
            return false;
        }
        i += 1;
    }
    assert(s@.subrange(0, prefix@.len() as int) =~= prefix@);
    true
}

/// The index of the last occurrence of `c` in `s`, if any.
pub fn str_rfind_char(s: &str, c: char) -> (r: Option<usize>)
    ensures
        match r {
            Some(i) => i < s@.len() && s@[i as int] == c && forall|j: int|
                i < j < s@.len() ==> s@[j] != c,
            None => !s@.contains(c),
        },
{
    let n = s.unicode_len();
    let mut i: usize = n;
    while i > 0
        invariant
            i <= n,
            n == s@.len(),
            forall|j: int| i <= j < s@.len() ==> s@[j] != c,
        decreases i,
    {
        i -= 1;
        if s.get_char(i) == c {
            return Some(i);
        }
    }
    proof {
        if s@.contains(c) {
            let j = choose|j: int| 0 <= j < s@.len() && s@[j] == c;
        }
    }
    None
}

/// The index of the first occurrence of `c` in `s`, if any.
pub fn str_find_char(s: &str, c: char) -> (r: Option<usize>)
    ensures
        match r {
            Some(i) => i < s@.len() && s@[i as int] == c && forall|j: int| 0 <= j < i ==> s@[j] != c,
            None => !s@.contains(c),
        },
{
    let n = s.unicode_len();
    let mut i: usize = 0;
    while i < n
        invariant
            i <= n,
            n == s@.len(),
            forall|j: int| 0 <= j < i ==> s@[j] != c,
        decreases n - i,
    {
        if s.get_char(i) == c {
            return Some(i);
        }
        i += 1;
    }
    None
}

// --- lexicographic order ---

/// Lexicographic order on character sequences, by code point, with a
/// prefix before its extensions.
pub open spec fn spec_str_le(a: Seq<char>, b: Seq<char>) -> bool
    decreases a.len(),
{
    if a.len() == 0 {
        true
    } else if b.len() == 0 {
        false
    } else if (a[0] as int) < (b[0] as int) {
        true
    } else if (a[0] as int) > (b[0] as int) {
        false
    } else {
        spec_str_le(a.subrange(1, a.len() as int), b.subrange(1, b.len() as int))
    }
}

/// The order is total.
pub proof fn lemma_str_le_total(a: Seq<char>, b: Seq<char>)
    ensures
        spec_str_le(a, b) || spec_str_le(b, a),
    decreases a.len(),
{
    if a.len() == 0 || b.len() == 0 {
    } else if (a[0] as int) == (b[0] as int) {
        lemma_str_le_total(a.subrange(1, a.len() as int), b.subrange(1, b.len() as int));
    }
}

/// The order is transitive.
pub proof fn lemma_str_le_trans(a: Seq<char>, b: Seq<char>, c: Seq<char>)
    requires
        spec_str_le(a, b),
        spec_str_le(b, c),
    ensures
        spec_str_le(a, c),
    decreases a.len(),
{
    if a.len() == 0 {
    } else if b.len() == 0 {
    } else if c.len() == 0 {
    } else {
        if (a[0] as int) == (b[0] as int) && (b[0] as int) == (c[0] as int) {
            lemma_str_le_trans(
                a.subrange(1, a.len() as int),
                b.subrange(1, b.len() as int),
                c.subrange(1, c.len() as int),
            );
        }
    }
}

/// Whether `a` comes no later than `b` in lexicographic order.
pub fn str_le(a: &str, b: &str) -> (r: bool)
    ensures
        r == spec_str_le(a@, b@),
{
    let na = a.unicode_len();
    let nb = b.unicode_len();
    let mut i: usize = 0;
    proof {
        assert(a@.subrange(0, na as int) =~= a@);
        assert(b@.subrange(0, nb as int) =~= b@);
    }
    loop
        invariant
            i <= na,
            i <= nb,
            na == a@.len(),
            nb == b@.len(),
            spec_str_le(a@, b@) == spec_str_le(
                a@.subrange(i as int, na as int),
                b@.subrange(i as int, nb as int),
            ),
        ensures
            spec_str_le(a@, b@) == spec_str_le(
                a@.subrange(i as int, na as int),
                b@.subrange(i as int, nb as int),
            ),
            i <= na && i <= nb,
            i == na || i == nb || a@[i as int] != b@[i as int],
        decreases na - i,
    {
        if i == na || i == nb {
            break ;
        }
        let ca = a.get_char(i) as u32;
        let cb = b.get_char(i) as u32;
        if ca != cb {
            break ;
        }
        proof {
            let sa = a@.subrange(i as int, na as int);
            let sb = b@.subrange(i as int, nb as int);
            assert(sa[0] == a@[i as int] && sb[0] == b@[i as int]);
            assert(sa.subrange(1, sa.len() as int) =~= a@.subrange(i + 1, na as int));
            assert(sb.subrange(1, sb.len() as int) =~= b@.subrange(i + 1, nb as int));
        }
        i += 1;
    }
    let ghost sa = a@.subrange(i as int, na as int);
    let ghost sb = b@.subrange(i as int, nb as int);
    if i == na {
        proof {
            assert(sa =~= Seq::<char>::empty());
        }
        true
    } else if i == nb {
        proof {
            assert(sb =~= Seq::<char>::empty());
            assert(sa.len() > 0);
        }
        false
    } else {
        let ca = a.get_char(i) as u32;
        let cb = b.get_char(i) as u32;
        proof {
            assert(sa[0] == a@[i as int] && sb[0] == b@[i as int]);
        }
        ca < cb
    }
}

// --- substring occurrence ---

/// `pat` occurs in `s` at position `i`.
pub open spec fn spec_sub_at(s: Seq<char>, pat: Seq<char>, i: int) -> bool {
    0 <= i && i + pat.len() <= s.len() && s.subrange(i, i + pat.len()) == pat
}

/// Whether `pat` occurs somewhere in `s`.
pub open spec fn spec_contains_sub(s: Seq<char>, pat: Seq<char>) -> bool {
    exists|i: int| spec_sub_at(s, pat, i)
}

/// Whether `pat` occurs as a contiguous run of characters in `s`.
pub fn str_contains_sub(s: &str, pat: &str) -> (r: bool)
    ensures
        r == spec_contains_sub(s@, pat@),
{
    let n = s.unicode_len();
    let m = pat.unicode_len();
    if m == 0 {
        proof {
            assert(s@.subrange(0, 0) =~= pat@);
            assert(spec_sub_at(s@, pat@, 0));
        }
        return true;
    }
    if m > n {
        proof {
            if spec_contains_sub(s@, pat@) {
                let i = choose|i: int| spec_sub_at(s@, pat@, i);
            }
        }
        return false;
    }
    let limit = n - m;
    let mut pos: usize = 0;
    loop
        invariant
            pos <= limit,
            limit == n - m,
            1 <= m <= n,
            n == s@.len(),
            m == pat@.len(),
            forall|p: int| 0 <= p < pos ==> !spec_sub_at(s@, pat@, p),
        ensures
            forall|p: int| 0 <= p <= limit ==> !spec_sub_at(s@, pat@, p),
        decreases limit - pos,
    {
        let piece = s.substring_char(pos, pos + m);
        if str_eq(piece, pat) {
            proof {
                assert(spec_sub_at(s@, pat@, pos as int));
            }
            return true;
        }
        proof {
            assert(piece@ == s@.subrange(pos as int, pos + m));
            assert(!spec_sub_at(s@, pat@, pos as int));
        }
        if pos == limit {
            break ;
        }
        pos += 1;
    }
    proof {
        if spec_contains_sub(s@, pat@) {
            let i = choose|i: int| spec_sub_at(s@, pat@, i);
            assert(i <= limit as int);
        }
    }
    false
}

} // verus!

//! The guarantees the cleaner gives about its output, stated and proved
//! over [`clean_spec`]: no citation-marker line survives, kept lines
//! survive, the output is compact (no blank lines, trimmed ends), no
//! tag pattern survives, and cleaning twice changes nothing more.

use vstd::prelude::*;
use crate::cleaner::cite_at;
use crate::cleaner::find_char;
use crate::cleaner::has_citation;
use crate::cleaner::is_digit;
use crate::cleaner::is_space;
use crate::cleaner::join_lines;
use crate::cleaner::lemma_find_char_bounds;
use crate::cleaner::lemma_find_char_is;
use crate::cleaner::normalize_lines;
use crate::cleaner::split_lines;
use crate::cleaner::strip_tags;
use crate::cleaner::tag_at_start;
use crate::cleaner::tag_close_at;
use crate::cleaner::trim_back;
use crate::cleaner::trim_ends;
use crate::cleaner::trim_front;
use crate::cleaner::clean_spec;

verus! {

/// No character of `t` is `>`.
pub open spec fn no_gt(t: Seq<char>) -> bool {
    forall|k: int| 0 <= k < t.len() ==> t[k] != '>'
}

/// Some suffix of `t` begins with a tag pattern; that is, `t` holds a
/// `<...>` substring.
pub open spec fn has_tag(t: Seq<char>) -> bool {
    exists|i: int| 0 <= i < t.len() && tag_at_start(t.subrange(i, t.len() as int))
}

proof fn lemma_trim_front_removed(l: Seq<char>)
    ensures
        trim_front(l).len() <= l.len(),
        trim_front(l) == l.subrange(l.len() - trim_front(l).len(), l.len() as int),
        forall|k: int| 0 <= k < l.len() - trim_front(l).len() ==> is_space(l[k]),
    decreases l.len(),
{
    if l.len() > 0 && is_space(l[0]) {
        let l1 = l.subrange(1, l.len() as int);
        lemma_trim_front_removed(l1);
        assert(l1.subrange(l1.len() - trim_front(l1).len(), l1.len() as int) =~= l.subrange(
            l.len() - trim_front(l).len(),
            l.len() as int,
        ));
        assert(forall|k: int| 1 <= k < l.len() - trim_front(l).len() ==> l[k] == l1[k - 1]);
    } else {
        assert(l.subrange(0, l.len() as int) =~= l);
    }
}

proof fn lemma_trim_back_removed(l: Seq<char>)
    ensures
        trim_back(l).len() <= l.len(),
        trim_back(l) == l.subrange(0, trim_back(l).len() as int),
        forall|k: int| trim_back(l).len() <= k < l.len() ==> is_space(l[k]),
    decreases l.len(),
{
    if l.len() > 0 && is_space(l[l.len() - 1]) {
        let l1 = l.subrange(0, l.len() - 1);
        lemma_trim_back_removed(l1);
        assert(l1.subrange(0, trim_back(l1).len() as int) =~= l.subrange(
            0,
            trim_back(l).len() as int,
        ));
        assert(forall|k: int| trim_back(l).len() <= k < l.len() - 1 ==> l[k] == l1[k]);
    } else {
        assert(l.subrange(0, l.len() as int) =~= l);
    }
}

/// `d` marks where the trimmed form of `l` stands inside `l`, with only
/// whitespace outside it.
pub open spec fn trim_cut(l: Seq<char>, d: int) -> bool {
    &&& 0 <= d
    &&& d + trim_ends(l).len() <= l.len()
    &&& trim_ends(l) == l.subrange(d, d + trim_ends(l).len())
    &&& forall|k: int| 0 <= k < d ==> is_space(l[k])
    &&& forall|k: int| d + trim_ends(l).len() <= k < l.len() ==> is_space(l[k])
}

/// The trimmed line is a contiguous piece of the line it came from; only
/// whitespace stands outside it.
pub proof fn lemma_trim_is_subrange(l: Seq<char>)
    ensures
        exists|d: int| trim_cut(l, d),
{
    let tf = trim_front(l);
    lemma_trim_front_removed(l);
    lemma_trim_back_removed(tf);
    let d = l.len() - tf.len();
    let te = trim_ends(l);
    assert(te == tf.subrange(0, te.len() as int));
    assert(tf.subrange(0, te.len() as int) =~= l.subrange(d, d + te.len()));
    assert forall|k: int| d + te.len() <= k < l.len() implies is_space(l[k]) by {
        assert(l[k] == tf[k - d]);
    }
    assert(trim_cut(l, d));
}

proof fn lemma_trim_front_first(l: Seq<char>)
    ensures
        trim_front(l).len() > 0 ==> !is_space(trim_front(l)[0]),
    decreases l.len(),
{
    if l.len() > 0 && is_space(l[0]) {
        lemma_trim_front_first(l.subrange(1, l.len() as int));
    }
}

proof fn lemma_trim_back_last(l: Seq<char>)
    ensures
        trim_back(l).len() > 0 ==> !is_space(trim_back(l).last()),
    decreases l.len(),
{
    if l.len() > 0 && is_space(l[l.len() - 1]) {
        lemma_trim_back_last(l.subrange(0, l.len() - 1));
    }
}

proof fn lemma_trim_back_keeps_first(l: Seq<char>)
    ensures
        trim_back(l).len() > 0 ==> l.len() > 0 && trim_back(l)[0] == l[0],
    decreases l.len(),
{
    if l.len() > 0 && is_space(l[l.len() - 1]) {
        lemma_trim_back_keeps_first(l.subrange(0, l.len() - 1));
    }
}

/// A line whose first and last characters are not whitespace trims to
/// itself.
pub proof fn lemma_trim_noop(t: Seq<char>)
    requires
        t.len() > 0 ==> !is_space(t[0]) && !is_space(t.last()),
    ensures
        trim_ends(t) == t,
{
}

/// Trimming a trimmed line changes nothing.
pub proof fn lemma_trim_idempotent(l: Seq<char>)
    ensures
        trim_ends(trim_ends(l)) == trim_ends(l),
{
    let tf = trim_front(l);
    let te = trim_ends(l);
    lemma_trim_front_first(l);
    lemma_trim_back_last(tf);
    lemma_trim_back_keeps_first(tf);
    if te.len() > 0 {
        assert(te[0] == tf[0]);
        lemma_trim_noop(te);
    } else {
        lemma_trim_noop(te);
    }
}

/// A citation marker inside a piece of a line is one inside the line.
pub proof fn lemma_citation_subrange(l: Seq<char>, a: int, b: int)
    requires
        0 <= a <= b <= l.len(),
        has_citation(l.subrange(a, b)),
    ensures
        has_citation(l),
{
    let t = l.subrange(a, b);
    let (i, j) = choose|i: int, j: int| cite_at(t, i, j);
    assert(cite_at(t, i, j));
    assert forall|k: int| a + i < k < a + j implies is_digit(l[k]) by {
        assert(l[k] == t[k - a]);
    }
    assert(cite_at(l, a + i, a + j));
}

/// Every segment of a split holds no newline.
pub proof fn lemma_split_no_newline(s: Seq<char>)
    ensures
        forall|p: int, k: int|
            0 <= p < split_lines(s).len() && 0 <= k < split_lines(s)[p].len() ==> split_lines(
                s,
            )[p][k] != '\n',
    decreases s.len(),
{
    lemma_find_char_bounds(s, '\n');
    let i = find_char(s, '\n');
    if i == s.len() {
    } else {
        lemma_split_no_newline(s.subrange(i + 1, s.len() as int));
        assert(forall|k: int| 0 <= k < i ==> split_lines(s)[0][k] == s[k]);
        assert(forall|p: int, k: int|
            1 <= p < split_lines(s).len() && 0 <= k < split_lines(s)[p].len() ==> split_lines(
                s,
            )[p][k] == split_lines(s.subrange(i + 1, s.len() as int))[p - 1][k]);
    }
}

/// A line the normalizer emits: non-empty, citation-free, already
/// trimmed, and newline-free.
pub open spec fn emitted_line(t: Seq<char>) -> bool {
    &&& t.len() > 0
    &&& !has_citation(t)
    &&& trim_ends(t) == t
    &&& forall|k: int| 0 <= k < t.len() ==> t[k] != '\n'
}

/// Everything the normalizer emits is an [`emitted_line`].
pub proof fn lemma_normalize_emits(ls: Seq<Seq<char>>)
    requires
        forall|p: int, k: int|
            0 <= p < ls.len() && 0 <= k < ls[p].len() ==> ls[p][k] != '\n',
    ensures
        forall|q: int| 0 <= q < normalize_lines(ls).len() ==> emitted_line(normalize_lines(ls)[q]),
    decreases ls.len(),
{
    if ls.len() == 0 {
    } else {
        let ls1 = ls.subrange(1, ls.len() as int);
        assert(forall|p: int, k: int|
            0 <= p < ls1.len() && 0 <= k < ls1[p].len() ==> ls1[p][k] == ls[p + 1][k]);
        lemma_normalize_emits(ls1);
        let l0 = ls[0];
        let t0 = trim_ends(l0);
        if !(has_citation(l0) || t0.len() == 0) {
            lemma_trim_idempotent(l0);
            lemma_trim_is_subrange(l0);
            let d = choose|d: int| trim_cut(l0, d);
            assert(trim_cut(l0, d));
            if has_citation(t0) {
                lemma_citation_subrange(l0, d, d + t0.len());
            }
            assert(forall|k: int| 0 <= k < t0.len() ==> t0[k] == l0[d + k] && l0[d + k] != '\n');
            assert(emitted_line(t0));
            assert(normalize_lines(ls) == seq![t0] + normalize_lines(ls1));
            assert forall|q: int| 0 <= q < normalize_lines(ls).len() implies emitted_line(
                normalize_lines(ls)[q],
            ) by {
                if q >= 1 {
                    assert(normalize_lines(ls)[q] == normalize_lines(ls1)[q - 1]);
                }
            }
        } else {
            assert(normalize_lines(ls) == normalize_lines(ls1));
        }
    }
}

/// A kept line's trimmed form stands in the normalized sequence.
pub proof fn lemma_normalize_contains(ls: Seq<Seq<char>>, p: int)
    requires
        0 <= p < ls.len(),
        !has_citation(ls[p]),
        trim_ends(ls[p]).len() > 0,
    ensures
        normalize_lines(ls).contains(trim_ends(ls[p])),
    decreases ls.len(),
{
    let ls1 = ls.subrange(1, ls.len() as int);
    if p == 0 {
        assert(normalize_lines(ls)[0] == trim_ends(ls[0]));
    } else {
        lemma_normalize_contains(ls1, p - 1);
        let q = choose|q: int|
            0 <= q < normalize_lines(ls1).len() && normalize_lines(ls1)[q] == trim_ends(ls1[p - 1]);
        if has_citation(ls[0]) || trim_ends(ls[0]).len() == 0 {
            assert(normalize_lines(ls)[q] == trim_ends(ls[p]));
        } else {
            assert(normalize_lines(ls)[q + 1] == trim_ends(ls[p]));
        }
    }
}

/// Splitting a join of newline-free segments gives the segments back.
pub proof fn lemma_split_join(ts: Seq<Seq<char>>)
    requires
        ts.len() > 0,
        forall|q: int, k: int| 0 <= q < ts.len() && 0 <= k < ts[q].len() ==> ts[q][k] != '\n',
    ensures
        split_lines(join_lines(ts)) == ts,
    decreases ts.len(),
{
    let j = join_lines(ts);
    if ts.len() == 1 {
        lemma_find_char_is(j, '\n', j.len() as int);
        assert(split_lines(j) =~= ts);
    } else {
        let ts1 = ts.subrange(1, ts.len() as int);
        let j1 = join_lines(ts1);
        let f = ts[0].len() as int;
        assert(forall|k: int| 0 <= k < f ==> j[k] == ts[0][k] && j[k] != '\n');
        assert(j[f] == '\n');
        lemma_find_char_is(j, '\n', f);
        assert(j.subrange(0, f) =~= ts[0]);
        assert(j.subrange(f + 1, j.len() as int) =~= j1);
        assert(forall|q: int, k: int|
            0 <= q < ts1.len() && 0 <= k < ts1[q].len() ==> ts1[q][k] == ts[q + 1][k]);
        lemma_split_join(ts1);
        assert(split_lines(j) =~= seq![ts[0]] + split_lines(j1));
        assert(seq![ts[0]] + ts1 =~= ts);
    }
}

/// The first and last characters of a join of non-empty segments come
/// from the first and last segments.
pub proof fn lemma_join_ends(ts: Seq<Seq<char>>)
    requires
        ts.len() > 0,
        forall|q: int| 0 <= q < ts.len() ==> ts[q].len() > 0,
    ensures
        join_lines(ts).len() > 0,
        join_lines(ts)[0] == ts[0][0],
        join_lines(ts).last() == ts.last().last(),
    decreases ts.len(),
{
    if ts.len() == 1 {
    } else {
        let ts1 = ts.subrange(1, ts.len() as int);
        lemma_join_ends(ts1);
        assert(ts1.last() == ts.last());
    }
}


/// The condition every `<` must meet for no tag pattern to start at it:
/// a `>` right next to it, or no `>` anywhere after it.
pub open spec fn lone_lt(t: Seq<char>, i: int) -> bool {
    ||| (i + 1 < t.len() && t[i + 1] == '>')
    ||| (forall|k: int| i < k < t.len() ==> t[k] != '>')
}

/// Every `<` in `t` meets [`lone_lt`]; such a text holds no tag pattern.
pub open spec fn good(t: Seq<char>) -> bool {
    forall|i: int| 0 <= i < t.len() && #[trigger] t[i] == '<' ==> lone_lt(t, i)
}

proof fn lemma_strip_id_no_gt(s: Seq<char>)
    requires
        no_gt(s),
    ensures
        strip_tags(s) == s,
    decreases s.len(),
{
    if s.len() == 0 {
        assert(strip_tags(s) =~= s);
    } else {
        assert forall|j: int| !(#[trigger] tag_close_at(s, j)) by {
            if tag_close_at(s, j) {
                assert(s[j] == '>');
            }
        }
        let s1 = s.subrange(1, s.len() as int);
        assert(forall|k: int| 0 <= k < s1.len() ==> s1[k] == s[k + 1]);
        lemma_strip_id_no_gt(s1);
        assert(seq![s[0]] + s1 =~= s);
    }
}

proof fn lemma_good_prepend(c: char, t: Seq<char>)
    requires
        good(t),
        c == '<' ==> ((t.len() > 0 && t[0] == '>') || no_gt(t)),
    ensures
        good(seq![c] + t),
{
    let u = seq![c] + t;
    assert forall|i: int| 0 <= i < u.len() && #[trigger] u[i] == '<' implies lone_lt(u, i) by {
        if i == 0 {
            if t.len() > 0 && t[0] == '>' {
                assert(u[1] == '>');
            } else {
                assert(no_gt(t));
                assert(forall|k: int| 0 < k < u.len() ==> u[k] == t[k - 1] && t[k - 1] != '>');
            }
        } else {
            assert(t[i - 1] == '<');
            assert(lone_lt(t, i - 1));
            if i < t.len() && t[i] == '>' {
                assert(u[i + 1] == '>');
            } else {
                assert(forall|k: int| i - 1 < k < t.len() ==> t[k] != '>');
                assert(forall|k: int| i < k < u.len() ==> u[k] == t[k - 1] && t[k - 1] != '>');
            }
        }
    }
}

/// What the tag stripper leaves holds no tag pattern.
pub proof fn lemma_good_strip(s: Seq<char>)
    ensures
        good(strip_tags(s)),
    decreases s.len(),
{
    if s.len() == 0 {
    } else if tag_at_start(s) {
        let j = choose|j: int| tag_close_at(s, j);
        lemma_good_strip(s.subrange(j + 1, s.len() as int));
    } else {
        let s1 = s.subrange(1, s.len() as int);
        lemma_good_strip(s1);
        if s[0] == '<' {
            lemma_find_char_bounds(s1, '>');
            let f = find_char(s1, '>');
            if f == s1.len() {
                assert(no_gt(s1));
                lemma_strip_id_no_gt(s1);
                assert(no_gt(strip_tags(s1)));
            } else if f == 0 {
                assert(s1[0] == '>');
                assert(!tag_at_start(s1));
                assert(strip_tags(s1) == seq![s1[0]] + strip_tags(
                    s1.subrange(1, s1.len() as int),
                ));
                assert(strip_tags(s1).len() > 0 && strip_tags(s1)[0] == '>');
            } else {
                // the first `>` after the `<` lies at distance two or more:
                // a tag would start here, against the branch we are in
                assert(s1[f] == '>');
                assert(s[1 + f] == '>');
                assert forall|k: int| 1 <= k < 1 + f implies s[k] != '>' by {
                    assert(s[k] == s1[k - 1]);
                }
                assert(tag_close_at(s, 1 + f));
                assert(tag_at_start(s));
                assert(false);
            }
        }
        lemma_good_prepend(s[0], strip_tags(s1));
    }
}

/// No tag pattern starts anywhere in a [`good`] text.
pub proof fn lemma_good_no_tag(t: Seq<char>)
    requires
        good(t),
    ensures
        !has_tag(t),
{
    assert forall|i: int| 0 <= i < t.len() implies !tag_at_start(
        t.subrange(i, t.len() as int),
    ) by {
        let u = t.subrange(i, t.len() as int);
        if tag_at_start(u) {
            assert(t[i] == u[0]);
            assert(t[i] == '<');
            assert(lone_lt(t, i));
            let j = choose|j: int| tag_close_at(u, j);
            assert(tag_close_at(u, j));
            if i + 1 < t.len() && t[i + 1] == '>' {
                assert(u[1] == '>');
                assert(1 < j);
                assert(false);
            } else {
                assert(u[j] == t[i + j]);
                assert(t[i + j] != '>');
                assert(false);
            }
        }
    }
}

proof fn lemma_good_suffix(t: Seq<char>, a: int)
    requires
        good(t),
        0 <= a <= t.len(),
    ensures
        good(t.subrange(a, t.len() as int)),
{
    let u = t.subrange(a, t.len() as int);
    assert forall|i: int| 0 <= i < u.len() && #[trigger] u[i] == '<' implies lone_lt(u, i) by {
        assert(t[a + i] == '<');
        assert(lone_lt(t, a + i));
        if a + i + 1 < t.len() && t[a + i + 1] == '>' {
            assert(u[i + 1] == '>');
        } else {
            assert(forall|k: int| a + i < k < t.len() ==> t[k] != '>');
            assert(forall|k: int| i < k < u.len() ==> u[k] == t[a + k] && t[a + k] != '>');
        }
    }
}

/// Stripping a [`good`] text changes nothing.
pub proof fn lemma_good_strip_id(t: Seq<char>)
    requires
        good(t),
    ensures
        strip_tags(t) == t,
    decreases t.len(),
{
    if t.len() == 0 {
        assert(strip_tags(t) =~= t);
    } else {
        lemma_good_no_tag(t);
        assert(t.subrange(0, t.len() as int) =~= t);
        assert(!tag_at_start(t));
        let t1 = t.subrange(1, t.len() as int);
        lemma_good_suffix(t, 1);
        lemma_good_strip_id(t1);
        assert(seq![t[0]] + t1 =~= t);
    }
}

/// The per-line form of [`lone_lt`] over a sequence of lines.
pub open spec fn line_lone(ls: Seq<Seq<char>>, p: int, i: int) -> bool {
    ||| (i + 1 < ls[p].len() && ls[p][i + 1] == '>')
    ||| ((forall|k: int| i < k < ls[p].len() ==> ls[p][k] != '>') && (forall|q: int, k: int|
        p < q < ls.len() && 0 <= k < ls[q].len() ==> ls[q][k] != '>'))
}

pub open spec fn goodlines(ls: Seq<Seq<char>>) -> bool {
    forall|p: int, i: int|
        0 <= p < ls.len() && 0 <= i < ls[p].len() && #[trigger] ls[p][i] == '<' ==> line_lone(
            ls,
            p,
            i,
        )
}

proof fn lemma_split_no_char(u: Seq<char>, c: char)
    requires
        c != '\n',
        forall|k: int| 0 <= k < u.len() ==> u[k] != c,
    ensures
        forall|p: int, k: int|
            0 <= p < split_lines(u).len() && 0 <= k < split_lines(u)[p].len() ==> split_lines(
                u,
            )[p][k] != c,
    decreases u.len(),
{
    lemma_find_char_bounds(u, '\n');
    let i = find_char(u, '\n');
    if i == u.len() {
    } else {
        let rest = u.subrange(i + 1, u.len() as int);
        assert(forall|k: int| 0 <= k < rest.len() ==> rest[k] == u[i + 1 + k]);
        lemma_split_no_char(rest, c);
        assert(forall|k: int| 0 <= k < i ==> split_lines(u)[0][k] == u[k]);
        assert(forall|p: int, k: int|
            1 <= p < split_lines(u).len() && 0 <= k < split_lines(u)[p].len() ==> split_lines(
                u,
            )[p][k] == split_lines(rest)[p - 1][k]);
    }
}

proof fn lemma_goodlines_split(t: Seq<char>)
    requires
        good(t),
    ensures
        goodlines(split_lines(t)),
    decreases t.len(),
{
    lemma_find_char_bounds(t, '\n');
    let f = find_char(t, '\n');
    let sl = split_lines(t);
    if f == t.len() {
        assert forall|p: int, i: int|
            0 <= p < sl.len() && 0 <= i < sl[p].len() && #[trigger] sl[p][i] == '<' implies
            line_lone(sl, p, i) by {
            assert(sl[0] == t);
            assert(lone_lt(t, i));
        }
    } else {
        let line0 = t.subrange(0, f);
        let rest = t.subrange(f + 1, t.len() as int);
        lemma_good_suffix(t, f + 1);
        lemma_goodlines_split(rest);
        assert(sl == seq![line0] + split_lines(rest));
        assert forall|p: int, i: int|
            0 <= p < sl.len() && 0 <= i < sl[p].len() && #[trigger] sl[p][i] == '<' implies
            line_lone(sl, p, i) by {
            if p == 0 {
                assert(t[i] == '<');
                assert(lone_lt(t, i));
                if i + 1 < t.len() && t[i + 1] == '>' {
                    assert(t[f] == '\n');
                    assert(i + 1 != f);
                    assert(line0[i + 1] == '>');
                } else {
                    assert(forall|k: int| i < k < t.len() ==> t[k] != '>');
                    assert(forall|k: int| i < k < line0.len() ==> line0[k] == t[k] && t[k] != '>');
                    assert(forall|k: int| 0 <= k < rest.len() ==> rest[k] == t[f + 1 + k] && t[f + 1
                        + k] != '>');
                    lemma_split_no_char(rest, '>');
                    assert(forall|q: int, k: int|
                        0 < q < sl.len() && 0 <= k < sl[q].len() ==> sl[q][k] == split_lines(
                            rest,
                        )[q - 1][k] && split_lines(rest)[q - 1][k] != '>');
                }
            } else {
                assert(sl[p] == split_lines(rest)[p - 1]);
                assert(split_lines(rest)[p - 1][i] == '<');
                assert(line_lone(split_lines(rest), p - 1, i));
                if i + 1 < sl[p].len() && sl[p][i + 1] == '>' {
                } else {
                    assert(forall|q: int, k: int|
                        p < q < sl.len() && 0 <= k < sl[q].len() ==> sl[q][k] == split_lines(
                            rest,
                        )[q - 1][k]);
                }
            }
        }
    }
}

proof fn lemma_no_gt_normalize(ls: Seq<Seq<char>>)
    requires
        forall|p: int, k: int| 0 <= p < ls.len() && 0 <= k < ls[p].len() ==> ls[p][k] != '>',
    ensures
        forall|q: int, k: int|
            0 <= q < normalize_lines(ls).len() && 0 <= k < normalize_lines(ls)[q].len()
                ==> normalize_lines(ls)[q][k] != '>',
    decreases ls.len(),
{
    if ls.len() == 0 {
    } else {
        let ls1 = ls.subrange(1, ls.len() as int);
        assert(forall|p: int, k: int|
            0 <= p < ls1.len() && 0 <= k < ls1[p].len() ==> ls1[p][k] == ls[p + 1][k]);
        lemma_no_gt_normalize(ls1);
        let l0 = ls[0];
        let t0 = trim_ends(l0);
        if !(has_citation(l0) || t0.len() == 0) {
            lemma_trim_is_subrange(l0);
            let d = choose|d: int| trim_cut(l0, d);
            assert(trim_cut(l0, d));
            assert(forall|k: int| 0 <= k < t0.len() ==> t0[k] == l0[d + k] && l0[d + k] != '>');
            assert(normalize_lines(ls) == seq![t0] + normalize_lines(ls1));
            assert(forall|q: int, k: int|
                1 <= q < normalize_lines(ls).len() && 0 <= k < normalize_lines(ls)[q].len()
                    ==> normalize_lines(ls)[q][k] == normalize_lines(ls1)[q - 1][k]);
        } else {
            assert(normalize_lines(ls) == normalize_lines(ls1));
        }
    }
}

proof fn lemma_goodlines_normalize(ls: Seq<Seq<char>>)
    requires
        goodlines(ls),
    ensures
        goodlines(normalize_lines(ls)),
    decreases ls.len(),
{
    if ls.len() == 0 {
    } else {
        let ls1 = ls.subrange(1, ls.len() as int);
        assert forall|p: int, i: int|
            0 <= p < ls1.len() && 0 <= i < ls1[p].len() && #[trigger] ls1[p][i] == '<' implies
            line_lone(ls1, p, i) by {
            assert(ls[p + 1][i] == '<');
            assert(line_lone(ls, p + 1, i));
            if i + 1 < ls1[p].len() && ls1[p][i + 1] == '>' {
            } else {
                assert(forall|q: int, k: int|
                    p < q < ls1.len() && 0 <= k < ls1[q].len() ==> ls1[q][k] == ls[q + 1][k]);
            }
        }
        lemma_goodlines_normalize(ls1);
        let nl = normalize_lines(ls);
        let nl1 = normalize_lines(ls1);
        let l0 = ls[0];
        let t0 = trim_ends(l0);
        if !(has_citation(l0) || t0.len() == 0) {
            lemma_trim_is_subrange(l0);
            let d = choose|d: int| trim_cut(l0, d);
            assert(trim_cut(l0, d));
            assert(nl == seq![t0] + nl1);
            assert forall|p: int, i: int|
                0 <= p < nl.len() && 0 <= i < nl[p].len() && #[trigger] nl[p][i] == '<' implies
                line_lone(nl, p, i) by {
                if p == 0 {
                    assert(t0[i] == l0[d + i]);
                    assert(l0[d + i] == '<');
                    assert(line_lone(ls, 0, d + i));
                    if d + i + 1 < l0.len() && l0[d + i + 1] == '>' {
                        assert(!is_space('>'));
                        assert(i + 1 < t0.len());
                        assert(t0[i + 1] == l0[d + i + 1]);
                    } else {
                        assert(forall|k: int| d + i < k < l0.len() ==> l0[k] != '>');
                        assert(forall|k: int| i < k < t0.len() ==> t0[k] == l0[d + k] && l0[d + k]
                            != '>');
                        assert(forall|q: int, k: int|
                            0 < q < ls.len() && 0 <= k < ls[q].len() ==> ls[q][k] != '>');
                        assert(forall|p2: int, k: int|
                            0 <= p2 < ls1.len() && 0 <= k < ls1[p2].len() ==> ls1[p2][k] == ls[p2
                                + 1][k] && ls1[p2][k] != '>');
                        lemma_no_gt_normalize(ls1);
                        assert(forall|q: int, k: int|
                            0 < q < nl.len() && 0 <= k < nl[q].len() ==> nl[q][k] == nl1[q - 1][k]
                                && nl1[q - 1][k] != '>');
                    }
                } else {
                    assert(nl[p] == nl1[p - 1]);
                    assert(nl1[p - 1][i] == '<');
                    assert(line_lone(nl1, p - 1, i));
                    if i + 1 < nl[p].len() && nl[p][i + 1] == '>' {
                    } else {
                        assert(forall|q: int, k: int|
                            p < q < nl.len() && 0 <= k < nl[q].len() ==> nl[q][k] == nl1[q - 1][k]);
                    }
                }
            }
        } else {
            assert(nl == nl1);
            assert forall|p: int, i: int|
                0 <= p < nl.len() && 0 <= i < nl[p].len() && #[trigger] nl[p][i] == '<' implies
                line_lone(nl, p, i) by {
                assert(nl1[p][i] == '<');
                assert(line_lone(nl1, p, i));
            }
        }
    }
}

proof fn lemma_no_gt_join(ts: Seq<Seq<char>>)
    requires
        forall|q: int, k: int| 0 <= q < ts.len() && 0 <= k < ts[q].len() ==> ts[q][k] != '>',
    ensures
        no_gt(join_lines(ts)),
    decreases ts.len(),
{
    if ts.len() == 0 {
    } else if ts.len() == 1 {
        assert(forall|k: int| 0 <= k < join_lines(ts).len() ==> join_lines(ts)[k] == ts[0][k]);
    } else {
        let ts1 = ts.subrange(1, ts.len() as int);
        assert(forall|q: int, k: int|
            0 <= q < ts1.len() && 0 <= k < ts1[q].len() ==> ts1[q][k] == ts[q + 1][k]);
        lemma_no_gt_join(ts1);
        let j = join_lines(ts);
        let f = ts[0].len() as int;
        assert forall|k: int| 0 <= k < j.len() implies j[k] != '>' by {
            if k < f {
                assert(j[k] == ts[0][k]);
            } else if k == f {
                assert(j[k] == '\n');
            } else {
                assert(j[k] == join_lines(ts1)[k - f - 1]);
            }
        }
    }
}

proof fn lemma_good_concat(a: Seq<char>, b: Seq<char>)
    requires
        good(b),
        forall|i: int|
            0 <= i < a.len() && #[trigger] a[i] == '<' ==> ((i + 1 < a.len() && a[i + 1] == '>')
                || ((forall|k: int| i < k < a.len() ==> a[k] != '>') && no_gt(b))),
    ensures
        good(a + b),
{
    let u = a + b;
    assert forall|i: int| 0 <= i < u.len() && #[trigger] u[i] == '<' implies lone_lt(u, i) by {
        if i < a.len() {
            assert(a[i] == '<');
            if i + 1 < a.len() && a[i + 1] == '>' {
                assert(u[i + 1] == '>');
            } else {
                assert(forall|k: int| i < k < a.len() ==> a[k] != '>');
                assert(no_gt(b));
                assert forall|k: int| i < k < u.len() implies u[k] != '>' by {
                    if k < a.len() {
                        assert(u[k] == a[k]);
                    } else {
                        assert(u[k] == b[k - a.len()]);
                    }
                }
            }
        } else {
            let ib = i - a.len();
            assert(b[ib] == '<');
            assert(lone_lt(b, ib));
            if ib + 1 < b.len() && b[ib + 1] == '>' {
                assert(u[i + 1] == '>');
            } else {
                assert(forall|k: int| ib < k < b.len() ==> b[k] != '>');
                assert(forall|k: int| i < k < u.len() ==> u[k] == b[k - a.len()] && b[k - a.len()]
                    != '>');
            }
        }
    }
}

proof fn lemma_goodlines_join(ts: Seq<Seq<char>>)
    requires
        goodlines(ts),
    ensures
        good(join_lines(ts)),
    decreases ts.len(),
{
    if ts.len() == 0 {
    } else if ts.len() == 1 {
        let t = ts[0];
        assert forall|i: int| 0 <= i < t.len() && #[trigger] t[i] == '<' implies lone_lt(t, i) by {
            assert(ts[0][i] == '<');
            assert(line_lone(ts, 0, i));
        }
    } else {
        let ts1 = ts.subrange(1, ts.len() as int);
        assert forall|p: int, i: int|
            0 <= p < ts1.len() && 0 <= i < ts1[p].len() && #[trigger] ts1[p][i] == '<' implies
            line_lone(ts1, p, i) by {
            assert(ts[p + 1][i] == '<');
            assert(line_lone(ts, p + 1, i));
            if i + 1 < ts1[p].len() && ts1[p][i + 1] == '>' {
            } else {
                assert(forall|q: int, k: int|
                    p < q < ts1.len() && 0 <= k < ts1[q].len() ==> ts1[q][k] == ts[q + 1][k]);
            }
        }
        lemma_goodlines_join(ts1);
        let a = ts[0] + seq!['\n'];
        let b = join_lines(ts1);
        assert forall|i: int|
            0 <= i < a.len() && #[trigger] a[i] == '<' implies ((i + 1 < a.len() && a[i + 1] == '>')
                || ((forall|k: int| i < k < a.len() ==> a[k] != '>') && no_gt(b))) by {
            if i < ts[0].len() {
                assert(ts[0][i] == '<');
                assert(line_lone(ts, 0, i));
                if i + 1 < ts[0].len() && ts[0][i + 1] == '>' {
                    assert(a[i + 1] == '>');
                } else {
                    assert(forall|k: int| i < k < ts[0].len() ==> ts[0][k] != '>');
                    assert forall|k: int| i < k < a.len() implies a[k] != '>' by {
                        if k < ts[0].len() {
                            assert(a[k] == ts[0][k]);
                        } else {
                            assert(a[k] == '\n');
                        }
                    }
                    assert(forall|q: int, k: int|
                        0 < q < ts.len() && 0 <= k < ts[q].len() ==> ts[q][k] != '>');
                    assert(forall|q: int, k: int|
                        0 <= q < ts1.len() && 0 <= k < ts1[q].len() ==> ts1[q][k] == ts[q + 1][k]
                            && ts1[q][k] != '>');
                    lemma_no_gt_join(ts1);
                }
            } else {
                assert(a[i] == '\n');
                assert(false);
            }
        }
        lemma_good_concat(a, b);
        assert(a + b =~= join_lines(ts));
    }
}

/// The cleaner's whole output is [`good`].
pub proof fn lemma_good_clean(s: Seq<char>)
    ensures
        good(clean_spec(s)),
{
    lemma_good_strip(s);
    lemma_goodlines_split(strip_tags(s));
    lemma_goodlines_normalize(split_lines(strip_tags(s)));
    lemma_goodlines_join(normalize_lines(split_lines(strip_tags(s))));
}

/// No `<...>` tag pattern survives cleaning, whatever the input held.
pub proof fn lemma_clean_no_tag(s: Seq<char>)
    ensures
        !has_tag(clean_spec(s)),
{
    lemma_good_clean(s);
    lemma_good_no_tag(clean_spec(s));
}



proof fn lemma_trimmed_ends_nonspace(t: Seq<char>)
    requires
        trim_ends(t) == t,
        t.len() > 0,
    ensures
        !is_space(t[0]),
        !is_space(t.last()),
{
    lemma_trim_front_removed(t);
    lemma_trim_back_removed(trim_front(t));
    if is_space(t[0]) {
        let t1 = t.subrange(1, t.len() as int);
        lemma_trim_front_removed(t1);
        assert(trim_front(t) == trim_front(t1));
        assert(trim_ends(t).len() <= trim_front(t).len() <= t1.len());
        assert(false);
    }
    assert(trim_front(t) == t);
    if is_space(t.last()) {
        let td = t.subrange(0, t.len() - 1);
        lemma_trim_back_removed(td);
        assert(trim_back(t) == trim_back(td));
        assert(trim_ends(t).len() <= td.len());
        assert(false);
    }
}

proof fn lemma_normalize_noop(ts: Seq<Seq<char>>)
    requires
        forall|q: int| 0 <= q < ts.len() ==> emitted_line(#[trigger] ts[q]),
    ensures
        normalize_lines(ts) == ts,
    decreases ts.len(),
{
    if ts.len() == 0 {
        assert(normalize_lines(ts) =~= ts);
    } else {
        let ts1 = ts.subrange(1, ts.len() as int);
        assert(forall|q: int| 0 <= q < ts1.len() ==> ts1[q] == ts[q + 1]);
        lemma_normalize_noop(ts1);
        assert(emitted_line(ts[0]));
        assert(normalize_lines(ts) == seq![trim_ends(ts[0])] + ts1);
        assert(seq![ts[0]] + ts1 =~= ts);
    }
}

/// The cleaner's output is compact: it carries no leading or trailing
/// whitespace, and (unless it is empty) no line of it is blank — so in
/// particular it never holds two consecutive blank lines.
pub proof fn lemma_clean_compact(s: Seq<char>)
    ensures
        trim_ends(clean_spec(s)) == clean_spec(s),
        forall|q: int|
            0 <= q < split_lines(clean_spec(s)).len() ==> (clean_spec(s).len() == 0 || split_lines(
                clean_spec(s),
            )[q].len() > 0),
{
    let ls = split_lines(strip_tags(s));
    let nl = normalize_lines(ls);
    let c = clean_spec(s);
    lemma_split_no_newline(strip_tags(s));
    lemma_normalize_emits(ls);
    if nl.len() == 0 {
        assert(c == Seq::<char>::empty());
        lemma_trim_noop(c);
    } else {
        assert(forall|q: int| 0 <= q < nl.len() ==> emitted_line(#[trigger] nl[q]));
        lemma_split_join(nl);
        lemma_join_ends(nl);
        assert(emitted_line(nl[0]));
        assert(emitted_line(nl.last()));
        lemma_trimmed_ends_nonspace(nl[0]);
        lemma_trimmed_ends_nonspace(nl.last());
        lemma_trim_noop(c);
    }
}

/// Every line holding a citation marker is gone from the cleaner's
/// output, and every kept line (no marker, not blank) survives in
/// trimmed form.
pub proof fn lemma_clean_citation_lines(s: Seq<char>)
    ensures
        forall|q: int|
            0 <= q < split_lines(clean_spec(s)).len() ==> !has_citation(
                #[trigger] split_lines(clean_spec(s))[q],
            ),
        forall|p: int|
            0 <= p < split_lines(strip_tags(s)).len() && !has_citation(
                #[trigger] split_lines(strip_tags(s))[p],
            ) && trim_ends(split_lines(strip_tags(s))[p]).len() > 0 ==> split_lines(
                clean_spec(s),
            ).contains(trim_ends(split_lines(strip_tags(s))[p])),
{
    let ls = split_lines(strip_tags(s));
    let nl = normalize_lines(ls);
    let c = clean_spec(s);
    lemma_split_no_newline(strip_tags(s));
    lemma_normalize_emits(ls);
    if nl.len() == 0 {
        assert(c == Seq::<char>::empty());
        assert(split_lines(c) == seq![c]);
        assert forall|q: int| 0 <= q < split_lines(c).len() implies !has_citation(
            #[trigger] split_lines(c)[q],
        ) by {
            if has_citation(split_lines(c)[q]) {
                let (i, j) = choose|i: int, j: int| cite_at(split_lines(c)[q], i, j);
                assert(cite_at(split_lines(c)[q], i, j));
                assert(false);
            }
        }
        assert forall|p: int|
            0 <= p < ls.len() && !has_citation(#[trigger] ls[p]) && trim_ends(ls[p]).len() > 0
                implies split_lines(c).contains(trim_ends(ls[p])) by {
            lemma_normalize_contains(ls, p);
            assert(nl.len() > 0);
        }
    } else {
        lemma_split_join(nl);
        assert forall|p: int|
            0 <= p < ls.len() && !has_citation(#[trigger] ls[p]) && trim_ends(ls[p]).len() > 0
                implies split_lines(c).contains(trim_ends(ls[p])) by {
            lemma_normalize_contains(ls, p);
        }
    }
}

/// Cleaning is idempotent: cleaning already-cleaned text changes
/// nothing.
pub proof fn lemma_clean_idempotent(s: Seq<char>)
    ensures
        clean_spec(clean_spec(s)) == clean_spec(s),
{
    let ls = split_lines(strip_tags(s));
    let nl = normalize_lines(ls);
    let c = clean_spec(s);
    lemma_good_clean(s);
    lemma_good_strip_id(c);
    lemma_split_no_newline(strip_tags(s));
    lemma_normalize_emits(ls);
    if nl.len() == 0 {
        assert(c == Seq::<char>::empty());
        assert(strip_tags(c) == c);
        assert(find_char(c, '\n') == 0);
        assert(split_lines(c) == seq![c]);
        assert(trim_ends(c).len() == 0);
        assert(split_lines(c).subrange(1, 1) =~= Seq::<Seq<char>>::empty());
        assert(split_lines(c)[0] == c);
        assert(normalize_lines(Seq::<Seq<char>>::empty()) == Seq::<Seq<char>>::empty());
        assert(normalize_lines(split_lines(c)) == normalize_lines(split_lines(c).subrange(1, 1)));
        assert(normalize_lines(split_lines(c)) == Seq::<Seq<char>>::empty());
        assert(clean_spec(c) == c);
    } else {
        lemma_split_join(nl);
        lemma_normalize_noop(nl);
        assert(clean_spec(c) == join_lines(normalize_lines(split_lines(strip_tags(c)))));
        assert(strip_tags(c) == c);
        assert(split_lines(c) == nl);
        assert(normalize_lines(nl) == nl);
        assert(clean_spec(c) == c);
    }
}


} // verus!

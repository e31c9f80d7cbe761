//! The content cleaner: strips residual HTML tags, drops citation-marker
//! lines such as `[12]`, and joins the surviving lines into compact,
//! trimmed prose.  Everything here is pure text processing.

use vstd::prelude::*;

verus! {

/// The characters that count as whitespace when lines are trimmed
/// (the Unicode white-space set).
pub open spec fn is_space(c: char) -> bool {
    ||| c == ' '
    ||| c == '\t'
    ||| c == '\n'
    ||| c == '\r'
    ||| c == '\u{000b}'
    ||| c == '\u{000c}'
    ||| c == '\u{0085}'
    ||| c == '\u{00a0}'
    ||| c == '\u{1680}'
    ||| (0x2000 <= c as u32 && c as u32 <= 0x200a)
    ||| c == '\u{2028}'
    ||| c == '\u{2029}'
    ||| c == '\u{202f}'
    ||| c == '\u{205f}'
    ||| c == '\u{3000}'
}

pub open spec fn is_digit(c: char) -> bool {
    0x30 <= c as u32 && c as u32 <= 0x39
}

/// `j` closes an HTML tag that opens at position 0 of `s`: it is the first
/// `>` after the opening `<`, and at least one character stands between.
pub open spec fn tag_close_at(s: Seq<char>, j: int) -> bool {
    &&& 2 <= j < s.len()
    &&& s[j] == '>'
    &&& forall|k: int| 1 <= k < j ==> s[k] != '>'
}

/// A tag pattern (`<`, one or more non-`>` characters, `>`) starts at
/// position 0 of `s`.
pub open spec fn tag_at_start(s: Seq<char>) -> bool {
    s.len() >= 3 && s[0] == '<' && exists|j: int| tag_close_at(s, j)
}

/// Removes every tag pattern from `s`, scanning left to right; each match
/// runs from a `<` to the first `>` after it with at least one character
/// between them.
pub open spec fn strip_tags(s: Seq<char>) -> Seq<char>
    decreases s.len(),
{
    if s.len() == 0 {
        Seq::empty()
    } else if tag_at_start(s) {
        let j = choose|j: int| tag_close_at(s, j);
        strip_tags(s.subrange(j + 1, s.len() as int))
    } else {
        seq![s[0]] + strip_tags(s.subrange(1, s.len() as int))
    }
}

/// The index of the first occurrence of `c` in `s`, or `s.len()` if there
/// is none.
pub open spec fn find_char(s: Seq<char>, c: char) -> int
    decreases s.len(),
{
    if s.len() == 0 {
        0
    } else if s[0] == c {
        0
    } else {
        1 + find_char(s.subrange(1, s.len() as int), c)
    }
}

pub proof fn lemma_find_char_bounds(s: Seq<char>, c: char)
    ensures
        0 <= find_char(s, c) <= s.len(),
        find_char(s, c) < s.len() ==> s[find_char(s, c)] == c,
        forall|k: int| 0 <= k < find_char(s, c) ==> s[k] != c,
    decreases s.len(),
{
    if s.len() == 0 {
    } else if s[0] == c {
    } else {
        let s1 = s.subrange(1, s.len() as int);
        lemma_find_char_bounds(s1, c);
        assert(forall|k: int| 1 <= k < find_char(s, c) ==> s[k] == s1[k - 1] && s1[k - 1] != c);
    }
}

/// `find_char` is pinned down by its characteristic property.
pub proof fn lemma_find_char_is(s: Seq<char>, c: char, i: int)
    requires
        0 <= i <= s.len(),
        forall|k: int| 0 <= k < i ==> s[k] != c,
        i < s.len() ==> s[i] == c,
    ensures
        find_char(s, c) == i,
    decreases s.len(),
{
    if s.len() == 0 {
    } else if s[0] == c {
        assert(i == 0);
    } else {
        let s1 = s.subrange(1, s.len() as int);
        assert(i >= 1);
        assert(forall|k: int| 0 <= k < i - 1 ==> s1[k] == s[k + 1] && s[k + 1] != c);
        lemma_find_char_is(s1, c, i - 1);
    }
}

#[via_fn]
proof fn split_lines_decreases(s: Seq<char>)
{
    lemma_find_char_bounds(s, '\n');
}

/// Splits `s` at every newline; the result always holds at least one
/// (possibly empty) segment, and no segment contains a newline.
pub open spec fn split_lines(s: Seq<char>) -> Seq<Seq<char>>
    decreases s.len(),
    via split_lines_decreases
{
    let i = find_char(s, '\n');
    if i == s.len() {
        seq![s]
    } else {
        seq![s.subrange(0, i)] + split_lines(s.subrange(i + 1, s.len() as int))
    }
}

/// A citation marker `[` digits `]` spans positions `i..=j` of `l`.
pub open spec fn cite_at(l: Seq<char>, i: int, j: int) -> bool {
    &&& 0 <= i
    &&& i + 1 < j < l.len()
    &&& l[i] == '['
    &&& l[j] == ']'
    &&& forall|k: int| i < k < j ==> is_digit(l[k])
}

/// The line holds a bracketed run of one or more digits, such as `[12]`.
pub open spec fn has_citation(l: Seq<char>) -> bool {
    exists|i: int, j: int| cite_at(l, i, j)
}

pub open spec fn trim_front(l: Seq<char>) -> Seq<char>
    decreases l.len(),
{
    if l.len() > 0 && is_space(l[0]) {
        trim_front(l.subrange(1, l.len() as int))
    } else {
        l
    }
}

pub open spec fn trim_back(l: Seq<char>) -> Seq<char>
    decreases l.len(),
{
    if l.len() > 0 && is_space(l[l.len() - 1]) {
        trim_back(l.subrange(0, l.len() - 1))
    } else {
        l
    }
}

/// `l` without leading and trailing whitespace.
pub open spec fn trim_ends(l: Seq<char>) -> Seq<char> {
    trim_back(trim_front(l))
}

/// Drops every line holding a citation marker, trims the rest, and drops
/// those that trim to nothing.
pub open spec fn normalize_lines(ls: Seq<Seq<char>>) -> Seq<Seq<char>>
    decreases ls.len(),
{
    if ls.len() == 0 {
        Seq::empty()
    } else {
        let rest = normalize_lines(ls.subrange(1, ls.len() as int));
        if has_citation(ls[0]) || trim_ends(ls[0]).len() == 0 {
            rest
        } else {
            seq![trim_ends(ls[0])] + rest
        }
    }
}

/// The surviving lines joined by single newlines, with no separator at
/// either end.
pub open spec fn join_lines(ts: Seq<Seq<char>>) -> Seq<char>
    decreases ts.len(),
{
    if ts.len() == 0 {
        Seq::empty()
    } else if ts.len() == 1 {
        ts[0]
    } else {
        ts[0] + seq!['\n'] + join_lines(ts.subrange(1, ts.len() as int))
    }
}

/// What `clean_content` returns: tags stripped, citation lines dropped,
/// every surviving line trimmed, blank lines gone, lines joined by single
/// newlines.
pub open spec fn clean_spec(s: Seq<char>) -> Seq<char> {
    join_lines(normalize_lines(split_lines(strip_tags(s))))
}

pub fn is_space_char(c: char) -> (r: bool)
    ensures
        r == is_space(c),
{
    let u = c as u32;
    u == 0x20 || (0x09 <= u && u <= 0x0d) || u == 0x85 || u == 0xa0 || u == 0x1680 || (0x2000
        <= u && u <= 0x200a) || u == 0x2028 || u == 0x2029 || u == 0x202f || u == 0x205f || u
        == 0x3000
}

pub fn is_digit_char(c: char) -> (r: bool)
    ensures
        r == is_digit(c),
{
    let u = c as u32;
    0x30 <= u && u <= 0x39
}

proof fn lemma_strip_step_match(s: Seq<char>, j: int)
    requires
        s.len() > 0,
        s[0] == '<',
        tag_close_at(s, j),
    ensures
        strip_tags(s) == strip_tags(s.subrange(j + 1, s.len() as int)),
{
    assert(tag_at_start(s));
    let jc = choose|jc: int| tag_close_at(s, jc);
    if jc < j {
        assert(s[jc] != '>');
    }
    if j < jc {
        assert(s[j] != '>');
    }
    assert(jc == j);
}

proof fn lemma_strip_step_nomatch(s: Seq<char>)
    requires
        s.len() > 0,
        !tag_at_start(s),
    ensures
        strip_tags(s) == seq![s[0]] + strip_tags(s.subrange(1, s.len() as int)),
{
}

/// Removes every tag pattern from `v`, as [`strip_tags`] says.
pub fn strip_tags_exec(v: &Vec<char>) -> (out: Vec<char>)
    ensures
        out@ == strip_tags(v@),
{
    let n: usize = v.len();
    let mut out: Vec<char> = Vec::new();
    let mut i: usize = 0;
    proof {
        assert(v@.subrange(0, n as int) =~= v@);
        assert(Seq::<char>::empty() + strip_tags(v@) =~= strip_tags(v@));
    }
    while i < n
        invariant
            0 <= i <= n,
            n == v@.len(),
            strip_tags(v@) == out@ + strip_tags(v@.subrange(i as int, n as int)),
        decreases n - i,
    {
        let ghost rem = v@.subrange(i as int, n as int);
        if v[i] == '<' {
            let mut j: usize = i + 1;
            while j < n && v[j] != '>'
                invariant
                    i + 1 <= j <= n,
                    n == v@.len(),
                    forall|k: int| i + 1 <= k < j ==> v@[k] != '>',
                decreases n - j,
            {
                j = j + 1;
            }
            if j < n && j > i + 1 {
                // The tag opened at i closes at j.
                proof {
                    assert(rem[j - i] == v@[j as int]);
                    assert forall|k: int| 1 <= k < j - i implies rem[k] != '>' by {
                        assert(rem[k] == v@[i + k]);
                    }
                    assert(tag_close_at(rem, j - i));
                    lemma_strip_step_match(rem, j - i);
                    assert(rem.subrange(j - i + 1, rem.len() as int) =~= v@.subrange(
                        j + 1,
                        n as int,
                    ));
                }
                i = j + 1;
            } else {
                // Either there is no later `>`, or it stands right next to
                // the `<`; no tag opens here.
                proof {
                    assert forall|jj: int| !tag_close_at(rem, jj) by {
                        if tag_close_at(rem, jj) {
                            assert(rem[jj] == v@[i + jj]);
                            if j == i + 1 {
                                // v[i + 1] == '>' stops any close at jj >= 2.
                                assert(rem[1] == v@[i + 1]);
                                assert(rem[1] != '>');
                            } else {
                                // j == n: no '>' anywhere after i.
                                assert(v@[i + jj] != '>');
                            }
                        }
                    }
                    assert(!tag_at_start(rem));
                    lemma_strip_step_nomatch(rem);
                    assert(rem[0] == v@[i as int]);
                    assert(rem.subrange(1, rem.len() as int) =~= v@.subrange(i + 1, n as int));
                    assert(out@ + seq![v@[i as int]] + strip_tags(v@.subrange(i + 1, n as int))
                        =~= out@ + (seq![v@[i as int]] + strip_tags(
                        v@.subrange(i + 1, n as int),
                    )));
                }
                let c = v[i];
                out.push(c);
                i = i + 1;
            }
        } else {
            proof {
                assert(rem[0] == v@[i as int]);
                assert(!tag_at_start(rem));
                lemma_strip_step_nomatch(rem);
                assert(rem.subrange(1, rem.len() as int) =~= v@.subrange(i + 1, n as int));
                assert(out@ + seq![v@[i as int]] + strip_tags(v@.subrange(i + 1, n as int)) =~= out@
                    + (seq![v@[i as int]] + strip_tags(v@.subrange(i + 1, n as int))));
            }
            let c = v[i];
            out.push(c);
            i = i + 1;
        }
    }
    proof {
        assert(v@.subrange(n as int, n as int) =~= Seq::<char>::empty());
        assert(out@ + Seq::<char>::empty() =~= out@);
    }
    out
}

/// Whether the slice `v[lo..hi]` holds a citation marker.
fn line_has_citation(v: &Vec<char>, lo: usize, hi: usize) -> (r: bool)
    requires
        lo <= hi <= v@.len(),
    ensures
        r == has_citation(v@.subrange(lo as int, hi as int)),
{
    let ghost l = v@.subrange(lo as int, hi as int);
    let mut p: usize = lo;
    while p < hi
        invariant
            lo <= p <= hi <= v@.len(),
            l == v@.subrange(lo as int, hi as int),
            forall|ii: int, jj: int| ii < p - lo ==> !cite_at(l, ii, jj),
        decreases hi - p,
    {
        if v[p] == '[' {
            let mut q: usize = p + 1;
            while q < hi && is_digit_char(v[q])
                invariant
                    p + 1 <= q <= hi <= v@.len(),
                    forall|k: int| p + 1 <= k < q ==> is_digit(v@[k]),
                decreases hi - q,
            {
                q = q + 1;
            }
            if q > p + 1 && q < hi && v[q] == ']' {
                proof {
                    assert(l[p - lo] == v@[p as int]);
                    assert(l[q - lo] == v@[q as int]);
                    assert forall|k: int| p - lo < k < q - lo implies is_digit(l[k]) by {
                        assert(l[k] == v@[lo + k]);
                    }
                    assert(cite_at(l, p - lo, q - lo));
                }
                return true;
            }
            proof {
                assert forall|jj: int| !(#[trigger] cite_at(l, p - lo, jj)) by {
                    if cite_at(l, p - lo, jj) {
                        // A marker at p would need a digit run ending in `]`,
                        // but the digit scan stopped without seeing `]`.
                        assert(l[jj] == v@[lo + jj]);
                        if lo + jj < q {
                            assert(is_digit(v@[lo + jj]));
                            assert(v@[lo + jj] == ']');
                            assert(false);
                        } else if lo + jj == q {
                            // Here q < hi, so the scan stopped on a non-digit
                            // that is not `]`, or on q == p + 1.
                            if q == p + 1 {
                                assert(jj > p - lo + 1);
                                assert(false);
                            } else {
                                assert(v@[q as int] != ']');
                                assert(false);
                            }
                        } else {
                            // q lies strictly inside the bracket span, so it
                            // would have to be a digit; it is not.
                            assert(jj < hi - lo);
                            assert(lo + jj < hi);
                            assert(q < hi);
                            if q == p + 1 {
                                assert(is_digit(l[p - lo + 1]));
                                assert(l[p - lo + 1] == v@[p + 1]);
                                assert(!is_digit(v@[q as int]));
                                assert(false);
                            } else {
                                assert(is_digit(l[q - lo]));
                                assert(l[q - lo] == v@[q as int]);
                                assert(!is_digit(v@[q as int]));
                                assert(false);
                            }
                        }
                    }
                }
            }
        } else {
            proof {
                assert forall|jj: int| !(#[trigger] cite_at(l, p - lo, jj)) by {
                    if cite_at(l, p - lo, jj) {
                        assert(l[p - lo] == v@[p as int]);
                    }
                }
            }
        }
        p = p + 1;
    }
    proof {
        assert forall|ii: int, jj: int| !(#[trigger] cite_at(l, ii, jj)) by {
            if cite_at(l, ii, jj) {
                assert(ii < l.len());
                assert(ii < p - lo);
            }
        }
    }
    false
}

proof fn lemma_trim_front_skip(l: Seq<char>, a: int)
    requires
        0 <= a <= l.len(),
        forall|k: int| 0 <= k < a ==> is_space(l[k]),
        a < l.len() ==> !is_space(l[a]),
    ensures
        trim_front(l) == l.subrange(a, l.len() as int),
    decreases l.len(),
{
    if a == 0 {
        assert(l.subrange(0, l.len() as int) =~= l);
    } else {
        let l1 = l.subrange(1, l.len() as int);
        assert(is_space(l[0]));
        assert(forall|k: int| 0 <= k < a - 1 ==> l1[k] == l[k + 1] && is_space(l[k + 1]));
        assert(a - 1 < l1.len() ==> l1[a - 1] == l[a]);
        lemma_trim_front_skip(l1, a - 1);
        assert(l1.subrange(a - 1, l1.len() as int) =~= l.subrange(a, l.len() as int));
    }
}

proof fn lemma_trim_back_take(l: Seq<char>, b: int)
    requires
        0 <= b <= l.len(),
        forall|k: int| b <= k < l.len() ==> is_space(l[k]),
        b > 0 ==> !is_space(l[b - 1]),
    ensures
        trim_back(l) == l.subrange(0, b),
    decreases l.len(),
{
    if b == l.len() {
        assert(l.subrange(0, l.len() as int) =~= l);
    } else {
        let l1 = l.subrange(0, l.len() - 1);
        assert(is_space(l[l.len() - 1]));
        assert(forall|k: int| b <= k < l1.len() ==> l1[k] == l[k] && is_space(l[k]));
        lemma_trim_back_take(l1, b);
        assert(l1.subrange(0, b) =~= l.subrange(0, b));
    }
}

/// The bounds of `v[lo..hi]` with surrounding whitespace removed:
/// `v[r.0..r.1]` is the trimmed line.
fn trimmed_bounds(v: &Vec<char>, lo: usize, hi: usize) -> (r: (usize, usize))
    requires
        lo <= hi <= v@.len(),
    ensures
        lo <= r.0 <= r.1 <= hi,
        v@.subrange(r.0 as int, r.1 as int) == trim_ends(v@.subrange(lo as int, hi as int)),
{
    let ghost l = v@.subrange(lo as int, hi as int);
    let mut a: usize = lo;
    while a < hi && is_space_char(v[a])
        invariant
            lo <= a <= hi <= v@.len(),
            forall|k: int| lo <= k < a ==> is_space(v@[k]),
        decreases hi - a,
    {
        a = a + 1;
    }
    proof {
        assert(forall|k: int| 0 <= k < a - lo ==> l[k] == v@[lo + k] && is_space(v@[lo + k]));
        assert(a - lo < l.len() ==> l[a - lo] == v@[a as int]);
        lemma_trim_front_skip(l, a - lo);
        assert(l.subrange(a - lo, l.len() as int) =~= v@.subrange(a as int, hi as int));
    }
    let ghost lf = v@.subrange(a as int, hi as int);
    let mut b: usize = hi;
    while b > a && is_space_char(v[b - 1])
        invariant
            a <= b <= hi <= v@.len(),
            forall|k: int| b <= k < hi ==> is_space(v@[k]),
        decreases b,
    {
        b = b - 1;
    }
    proof {
        assert(forall|k: int| b - a <= k < lf.len() ==> lf[k] == v@[a + k] && is_space(v@[a + k]));
        assert(b - a > 0 ==> lf[b - a - 1] == v@[b - 1]);
        lemma_trim_back_take(lf, b - a);
        assert(lf.subrange(0, b - a) =~= v@.subrange(a as int, b as int));
    }
    (a, b)
}

proof fn lemma_normalize_append(ls: Seq<Seq<char>>, l: Seq<char>)
    ensures
        normalize_lines(ls.push(l)) == if has_citation(l) || trim_ends(l).len() == 0 {
            normalize_lines(ls)
        } else {
            normalize_lines(ls).push(trim_ends(l))
        },
    decreases ls.len(),
{
    let lsp = ls.push(l);
    let dropped = has_citation(l) || trim_ends(l).len() == 0;
    if ls.len() == 0 {
        assert(lsp[0] == l);
        assert(lsp.subrange(1, lsp.len() as int) =~= Seq::<Seq<char>>::empty());
        assert(normalize_lines(lsp.subrange(1, lsp.len() as int)) == Seq::<Seq<char>>::empty());
        if dropped {
            assert(normalize_lines(lsp) == Seq::<Seq<char>>::empty());
            assert(normalize_lines(ls) == Seq::<Seq<char>>::empty());
        } else {
            assert(normalize_lines(lsp) == seq![trim_ends(l)] + Seq::<Seq<char>>::empty());
            assert(seq![trim_ends(l)] + Seq::<Seq<char>>::empty() =~= Seq::<
                Seq<char>,
            >::empty().push(trim_ends(l)));
        }
    } else {
        assert(lsp[0] == ls[0]);
        let ls1 = ls.subrange(1, ls.len() as int);
        assert(lsp.subrange(1, lsp.len() as int) =~= ls1.push(l));
        lemma_normalize_append(ls1, l);
        let head_dropped = has_citation(ls[0]) || trim_ends(ls[0]).len() == 0;
        if head_dropped {
            assert(normalize_lines(lsp) == normalize_lines(ls1.push(l)));
            assert(normalize_lines(ls) == normalize_lines(ls1));
        } else {
            assert(normalize_lines(lsp) == seq![trim_ends(ls[0])] + normalize_lines(ls1.push(l)));
            assert(normalize_lines(ls) == seq![trim_ends(ls[0])] + normalize_lines(ls1));
            if !dropped {
                assert(seq![trim_ends(ls[0])] + normalize_lines(ls1).push(trim_ends(l)) =~= (
                seq![trim_ends(ls[0])] + normalize_lines(ls1)).push(trim_ends(l)));
            }
        }
    }
}

proof fn lemma_join_append(ts: Seq<Seq<char>>, t: Seq<char>)
    ensures
        join_lines(ts.push(t)) == if ts.len() == 0 {
            t
        } else {
            join_lines(ts) + seq!['\n'] + t
        },
    decreases ts.len(),
{
    let tsp = ts.push(t);
    if ts.len() == 0 {
        assert(tsp.len() == 1);
        assert(tsp[0] == t);
    } else if ts.len() == 1 {
        assert(tsp.len() == 2);
        assert(tsp[0] == ts[0]);
        assert(tsp.subrange(1, 2) =~= Seq::<Seq<char>>::empty().push(t));
        lemma_join_append(Seq::<Seq<char>>::empty(), t);
        assert(join_lines(tsp.subrange(1, 2)) == t);
    } else {
        assert(tsp[0] == ts[0]);
        let ts1 = ts.subrange(1, ts.len() as int);
        assert(tsp.subrange(1, tsp.len() as int) =~= ts1.push(t));
        lemma_join_append(ts1, t);
        assert(ts[0] + seq!['\n'] + (join_lines(ts1) + seq!['\n'] + t) =~= (ts[0] + seq!['\n']
            + join_lines(ts1)) + seq!['\n'] + t);
    }
}

/// Removes every HTML-tag fragment, drops citation-marker lines such as
/// `[12]`, trims each remaining line, drops blank lines, and joins what
/// is left with single newlines, trimmed at both ends.
pub fn clean_content(content: String) -> (r: String)
    ensures
        r@ == clean_spec(content@),
{
    let v = crate::chartext::chars_of(content.as_str());
    let st = strip_tags_exec(&v);
    let n: usize = st.len();
    let ghost full = st@;
    let mut out: Vec<char> = Vec::new();
    let mut have_any: bool = false;
    let mut i: usize = 0;
    let ghost mut done: Seq<Seq<char>> = Seq::empty();
    proof {
        assert(full.subrange(0, n as int) =~= full);
        assert(Seq::<Seq<char>>::empty() + split_lines(full) =~= split_lines(full));
    }
    loop
        invariant_except_break
            0 <= i <= n,
            n == st@.len(),
            st@ == full,
            split_lines(full) == done + split_lines(full.subrange(i as int, n as int)),
            out@ == join_lines(normalize_lines(done)),
            have_any == (normalize_lines(done).len() > 0),
        ensures
            out@ == join_lines(normalize_lines(split_lines(full))),
        decreases n - i,
    {
        let mut e: usize = i;
        while e < n && st[e] != '\n'
            invariant
                i <= e <= n,
                n == st@.len(),
                st@ == full,
                forall|k: int| i <= k < e ==> full[k] != '\n',
            decreases n - e,
        {
            e = e + 1;
        }
        let ghost line = full.subrange(i as int, e as int);
        let ghost rem = full.subrange(i as int, n as int);
        proof {
            assert(forall|k: int| 0 <= k < e - i ==> rem[k] == full[i + k] && full[i + k] != '\n');
            assert(e - i < rem.len() ==> rem[e - i] == full[e as int]);
            lemma_find_char_is(rem, '\n', e - i);
            assert(rem.subrange(0, e - i) =~= line);
        }
        let cited = line_has_citation(&st, i, e);
        let (a, b) = trimmed_bounds(&st, i, e);
        let keep = !cited && b > a;
        proof {
            lemma_normalize_append(done, line);
            if keep {
                lemma_join_append(normalize_lines(done), trim_ends(line));
            }
        }
        if keep {
            if have_any {
                out.push('\n');
            }
            let ghost base = out@;
            let mut p: usize = a;
            while p < b
                invariant
                    a <= p <= b <= st@.len(),
                    st@ == full,
                    out@ == base + full.subrange(a as int, p as int),
                decreases b - p,
            {
                let c = st[p];
                out.push(c);
                proof {
                    assert(base + full.subrange(a as int, p as int) + seq![full[p as int]] =~= base
                        + full.subrange(a as int, p + 1));
                }
                p = p + 1;
            }
            proof {
                assert(trim_ends(line) == full.subrange(a as int, b as int));
                if !have_any {
                    assert(out@ =~= Seq::<char>::empty() + full.subrange(a as int, b as int));
                    assert(out@ =~= trim_ends(line));
                }
            }
            have_any = true;
        }
        proof {
            done = done.push(line);
            assert(done.drop_last() =~= done.subrange(0, done.len() - 1));
        }
        if e == n {
            proof {
                assert(split_lines(rem) =~= seq![rem]);
                assert(rem =~= line);
                assert(done =~= done.subrange(0, done.len() - 1).push(line));
                assert(split_lines(full) =~= done);
            }
            break;
        } else {
            proof {
                assert(rem.subrange(e - i + 1, rem.len() as int) =~= full.subrange(
                    e + 1,
                    n as int,
                ));
                assert(split_lines(rem) =~= seq![line] + split_lines(full.subrange(e + 1, n as int)));
                assert(done.subrange(0, done.len() - 1).push(line) + split_lines(full.subrange(
                    e + 1,
                    n as int,
                )) =~= done.subrange(0, done.len() - 1) + (seq![line] + split_lines(full.subrange(
                    e + 1,
                    n as int,
                ))));
            }
            i = e + 1;
        }
    }
    crate::chartext::string_of_chars(&out)
}

} // verus!

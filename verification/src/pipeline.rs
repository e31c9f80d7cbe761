//! The content-extraction pipeline: status validation, a sanitizing
//! pre-pass that keeps the HTML renderer inside its safe inputs,
//! HTML-to-text rendering, cleaning, and the minimum-length check.
//! The application performs the HTTP GET and hands the status code and
//! body text here.

use vstd::prelude::*;
use vstd::string::StrSliceExecFns;
use vstd::string::StringExecFns;
use crate::cleaner::clean_spec;
use crate::errors::FetchError;

verus! {

/// Cleaned text shorter than this many characters is rejected as too
/// short to summarize; empty text is rejected as no content at all.
pub const MIN_CONTENT_CHARS: usize = 20;

/// The deepest element nesting (as [`tag_depth`] estimates it) a page
/// may have before it is rejected as unparsable, well beyond real
/// documents and well within what the renderer's recursion can take.
pub const MAX_TAG_DEPTH: usize = 256;

/// The narrowest wrap width ever handed to the renderer: each nesting
/// level can narrow its sub-renderer by at most a list prefix (23
/// columns covers the widest numeric prefix), so this floor keeps the
/// width positive at every admitted depth.
pub const MIN_RENDER_WIDTH: usize = 80 + 23 * MAX_TAG_DEPTH;

/// The scalar value used for case-insensitive comparison: ASCII capital
/// letters fold to their lowercase form, everything else is itself.
pub open spec fn lower_u(c: char) -> int {
    if 0x41 <= c as u32 && c as u32 <= 0x5A {
        c as u32 + 0x20
    } else {
        (c as u32) as int
    }
}

fn lower_u_exec(c: char) -> (r: u32)
    ensures
        r as int == lower_u(c),
{
    let u = c as u32;
    if 0x41 <= u && u <= 0x5A {
        u + 0x20
    } else {
        u
    }
}

/// HTML insignificant whitespace, as it may stand between an attribute
/// name and its `=`.
pub open spec fn is_hws(c: char) -> bool {
    c == ' ' || c == '\t' || c == '\n' || c == '\r' || c == '\u{000c}'
}

fn is_hws_exec(c: char) -> (r: bool)
    ensures
        r == is_hws(c),
{
    c == ' ' || c == '\t' || c == '\n' || c == '\r' || c == '\u{000c}'
}

/// The first index at or after `i` that holds no such whitespace.
pub open spec fn skip_hws(s: Seq<char>, i: int) -> int
    decreases s.len() - i,
{
    if 0 <= i && i < s.len() && is_hws(s[i]) {
        skip_hws(s, i + 1)
    } else {
        i
    }
}

proof fn lemma_skip_hws_bounds(s: Seq<char>, i: int)
    ensures
        skip_hws(s, i) >= i,
        i <= s.len() ==> skip_hws(s, i) <= s.len(),
    decreases s.len() - i,
{
    if 0 <= i && i < s.len() && is_hws(s[i]) {
        lemma_skip_hws_bounds(s, i + 1);
    }
}

/// Skipping whitespace lands at the same place in two texts whose
/// characters are whitespace at the same positions.
proof fn lemma_skip_hws_same(a: Seq<char>, b: Seq<char>, k: int)
    requires
        a.len() == b.len(),
        forall|t: int| 0 <= t < a.len() ==> is_hws(a[t]) == is_hws(b[t]),
    ensures
        skip_hws(a, k) == skip_hws(b, k),
    decreases a.len() - k,
{
    if 0 <= k && k < a.len() && is_hws(a[k]) {
        lemma_skip_hws_same(a, b, k + 1);
    }
}

/// Skipping whitespace commutes with taking a suffix.
proof fn lemma_skip_hws_shift(s: Seq<char>, m: int, x: int)
    requires
        0 <= m <= s.len(),
        0 <= x,
    ensures
        skip_hws(s.subrange(m, s.len() as int), x) == skip_hws(s, m + x) - m,
    decreases s.len() - m - x,
{
    let s2 = s.subrange(m, s.len() as int);
    if 0 <= x && x < s2.len() && is_hws(s2[x]) {
        assert(s2[x] == s[m + x]);
        lemma_skip_hws_shift(s, m, x + 1);
    } else {
        if m + x < s.len() {
            assert(s2[x] == s[m + x]);
        }
    }
}

/// Position `j` is followed, after optional whitespace, by `=`: the only
/// shape that gives an attribute named just before `j` a value.
pub open spec fn eq_follows(s: Seq<char>, j: int) -> bool {
    let k = skip_hws(s, j);
    k < s.len() && s[k] == '='
}

fn eq_follows_exec(v: &Vec<char>, j: usize) -> (r: bool)
    requires
        j <= v@.len(),
    ensures
        r == eq_follows(v@, j as int),
{
    let mut k = j;
    while k < v.len() && is_hws_exec(v[k])
        invariant
            j <= k <= v@.len(),
            skip_hws(v@, j as int) == skip_hws(v@, k as int),
        decreases v@.len() - k,
    {
        k = k + 1;
    }
    k < v.len() && v[k] == '='
}

/// A valued `colspan` attribute name stands at `i`: the word, in any
/// letter case, followed after optional whitespace by `=`.  Without the
/// `=` the attribute has no value and the renderer uses its default.
pub open spec fn colspan_attr_at(s: Seq<char>, i: int) -> bool {
    &&& 0 <= i
    &&& i + 7 <= s.len()
    &&& lower_u(s[i]) == 'c' as u32
    &&& lower_u(s[i + 1]) == 'o' as u32
    &&& lower_u(s[i + 2]) == 'l' as u32
    &&& lower_u(s[i + 3]) == 's' as u32
    &&& lower_u(s[i + 4]) == 'p' as u32
    &&& lower_u(s[i + 5]) == 'a' as u32
    &&& lower_u(s[i + 6]) == 'n' as u32
    &&& eq_follows(s, i + 7)
}

/// A valued `start` attribute name stands at `i`, in the same shape.
pub open spec fn start_attr_at(s: Seq<char>, i: int) -> bool {
    &&& 0 <= i
    &&& i + 5 <= s.len()
    &&& lower_u(s[i]) == 's' as u32
    &&& lower_u(s[i + 1]) == 't' as u32
    &&& lower_u(s[i + 2]) == 'a' as u32
    &&& lower_u(s[i + 3]) == 'r' as u32
    &&& lower_u(s[i + 4]) == 't' as u32
    &&& eq_follows(s, i + 5)
}

pub open spec fn has_colspan_attr(s: Seq<char>) -> bool {
    exists|i: int| colspan_attr_at(s, i)
}

pub open spec fn has_start_attr(s: Seq<char>) -> bool {
    exists|i: int| start_attr_at(s, i)
}

/// `s` with every valued `colspan` or `start` attribute name defused:
/// the name's final letter becomes `_`, so the renderer sees an unknown
/// attribute and keeps its safe default (a span of one; a list numbered
/// from one).  Nothing else changes, and the length is kept, so the
/// words in visible prose survive unless an `=` follows them.
pub open spec fn defuse_attrs(s: Seq<char>) -> Seq<char>
    decreases s.len(),
{
    if s.len() == 0 {
        Seq::empty()
    } else if colspan_attr_at(s, 0) {
        seq![s[0], s[1], s[2], s[3], s[4], s[5], '_'] + defuse_attrs(
            s.subrange(7, s.len() as int),
        )
    } else if start_attr_at(s, 0) {
        seq![s[0], s[1], s[2], s[3], '_'] + defuse_attrs(s.subrange(5, s.len() as int))
    } else {
        seq![s[0]] + defuse_attrs(s.subrange(1, s.len() as int))
    }
}

/// The defused text keeps its length, changes letters only to `_` (and
/// only a final `n` or `t`), and carries a `_` where each valued
/// attribute name's final letter stood.
#[verifier::rlimit(80)]
proof fn lemma_defuse_marks(s: Seq<char>)
    ensures
        defuse_attrs(s).len() == s.len(),
        forall|k: int|
            0 <= k < s.len() ==> defuse_attrs(s)[k] == s[k] || (defuse_attrs(s)[k] == '_' && (
            lower_u(s[k]) == 'n' as u32 || lower_u(s[k]) == 't' as u32)),
        forall|k: int| colspan_attr_at(s, k) ==> defuse_attrs(s)[k + 6] == '_',
        forall|k: int| start_attr_at(s, k) ==> defuse_attrs(s)[k + 4] == '_',
    decreases s.len(),
{
    let out = defuse_attrs(s);
    if s.len() == 0 {
    } else if colspan_attr_at(s, 0) {
        let s7 = s.subrange(7, s.len() as int);
        lemma_defuse_marks(s7);
        assert(forall|k: int| 7 <= k < s.len() ==> out[k] == defuse_attrs(s7)[k - 7]);
        assert(forall|k: int| 7 <= k < s.len() ==> s7[k - 7] == s[k]);
        assert forall|k: int| colspan_attr_at(s, k) && k >= 7 implies colspan_attr_at(
            s7,
            k - 7,
        ) by {
            lemma_skip_hws_shift(s, 7, k);
            lemma_skip_hws_bounds(s, k + 7);
        }
        assert forall|k: int| start_attr_at(s, k) && k >= 7 implies start_attr_at(s7, k - 7) by {
            lemma_skip_hws_shift(s, 7, k - 2);
            lemma_skip_hws_bounds(s, k + 5);
        }
        assert forall|k: int| colspan_attr_at(s, k) implies out[k + 6] == '_' by {
            if 1 <= k <= 6 {
                assert(false);
            } else if k >= 7 {
                assert(colspan_attr_at(s7, k - 7));
            }
        }
        assert forall|k: int| start_attr_at(s, k) implies out[k + 4] == '_' by {
            if 0 <= k <= 6 {
                assert(false);
            } else {
                assert(start_attr_at(s7, k - 7));
            }
        }
    } else if start_attr_at(s, 0) {
        let s5 = s.subrange(5, s.len() as int);
        lemma_defuse_marks(s5);
        assert(forall|k: int| 5 <= k < s.len() ==> out[k] == defuse_attrs(s5)[k - 5]);
        assert(forall|k: int| 5 <= k < s.len() ==> s5[k - 5] == s[k]);
        assert forall|k: int| colspan_attr_at(s, k) && k >= 5 implies colspan_attr_at(
            s5,
            k - 5,
        ) by {
            lemma_skip_hws_shift(s, 5, k + 2);
            lemma_skip_hws_bounds(s, k + 7);
        }
        assert forall|k: int| start_attr_at(s, k) && k >= 5 implies start_attr_at(s5, k - 5) by {
            lemma_skip_hws_shift(s, 5, k);
            lemma_skip_hws_bounds(s, k + 5);
        }
        assert forall|k: int| colspan_attr_at(s, k) implies out[k + 6] == '_' by {
            if 0 <= k <= 4 {
                assert(false);
            } else {
                assert(colspan_attr_at(s5, k - 5));
            }
        }
        assert forall|k: int| start_attr_at(s, k) implies out[k + 4] == '_' by {
            if 1 <= k <= 4 {
                assert(false);
            } else if k >= 5 {
                assert(start_attr_at(s5, k - 5));
            }
        }
    } else {
        let s1 = s.subrange(1, s.len() as int);
        lemma_defuse_marks(s1);
        assert(forall|k: int| 1 <= k < s.len() ==> out[k] == defuse_attrs(s1)[k - 1]);
        assert(forall|k: int| 1 <= k < s.len() ==> s1[k - 1] == s[k]);
        assert forall|k: int| colspan_attr_at(s, k) && k >= 1 implies colspan_attr_at(
            s1,
            k - 1,
        ) by {
            lemma_skip_hws_shift(s, 1, k + 6);
            lemma_skip_hws_bounds(s, k + 7);
        }
        assert forall|k: int| start_attr_at(s, k) && k >= 1 implies start_attr_at(s1, k - 1) by {
            lemma_skip_hws_shift(s, 1, k + 4);
            lemma_skip_hws_bounds(s, k + 5);
        }
        assert forall|k: int| colspan_attr_at(s, k) implies out[k + 6] == '_' by {
            assert(k != 0);
            assert(colspan_attr_at(s1, k - 1));
        }
        assert forall|k: int| start_attr_at(s, k) implies out[k + 4] == '_' by {
            assert(k != 0);
            assert(start_attr_at(s1, k - 1));
        }
    }
}

/// After defusing, no valued `colspan` or `start` attribute name is
/// left.
proof fn lemma_defuse_clean(s: Seq<char>)
    ensures
        !has_colspan_attr(defuse_attrs(s)),
        !has_start_attr(defuse_attrs(s)),
{
    let out = defuse_attrs(s);
    lemma_defuse_marks(s);
    assert forall|t: int| 0 <= t < s.len() implies is_hws(out[t]) == is_hws(s[t]) by {
        if out[t] != s[t] {
            assert(out[t] == '_');
            assert(!is_hws('_'));
            assert(lower_u(s[t]) == 'n' as u32 || lower_u(s[t]) == 't' as u32);
            assert(!is_hws(s[t]));
        }
    }
    assert forall|i: int| !(#[trigger] colspan_attr_at(out, i)) by {
        if colspan_attr_at(out, i) {
            assert(lower_u('_') == 0x5F);
            assert(out[i] == s[i] && out[i + 1] == s[i + 1] && out[i + 2] == s[i + 2] && out[i + 3]
                == s[i + 3] && out[i + 4] == s[i + 4] && out[i + 5] == s[i + 5] && out[i + 6] == s[i
                + 6]);
            lemma_skip_hws_same(out, s, i + 7);
            lemma_skip_hws_bounds(out, i + 7);
            let k = skip_hws(s, i + 7);
            assert(out[k] == '=');
            assert(s[k] == '=');
            assert(colspan_attr_at(s, i));
            assert(out[i + 6] == '_');
            assert(false);
        }
    }
    assert forall|i: int| !(#[trigger] start_attr_at(out, i)) by {
        if start_attr_at(out, i) {
            assert(lower_u('_') == 0x5F);
            assert(out[i] == s[i] && out[i + 1] == s[i + 1] && out[i + 2] == s[i + 2] && out[i + 3]
                == s[i + 3] && out[i + 4] == s[i + 4]);
            lemma_skip_hws_same(out, s, i + 5);
            lemma_skip_hws_bounds(out, i + 5);
            let k = skip_hws(s, i + 5);
            assert(out[k] == '=');
            assert(s[k] == '=');
            assert(start_attr_at(s, i));
            assert(out[i + 4] == '_');
            assert(false);
        }
    }
}

/// Defuses every valued `colspan` or `start` attribute name in `v`, as
/// [`defuse_attrs`] says.
fn defuse_attrs_exec(v: &Vec<char>) -> (out: Vec<char>)
    ensures
        out@ == defuse_attrs(v@),
{
    let n: usize = v.len();
    let mut out: Vec<char> = Vec::new();
    let mut i: usize = 0;
    proof {
        assert(v@.subrange(0, n as int) =~= v@);
        assert(Seq::<char>::empty() + defuse_attrs(v@) =~= defuse_attrs(v@));
    }
    while i < n
        invariant
            0 <= i <= n,
            n == v@.len(),
            defuse_attrs(v@) == out@ + defuse_attrs(v@.subrange(i as int, n as int)),
        decreases n - i,
    {
        let ghost rem = v@.subrange(i as int, n as int);
        let c_hit = n - i >= 7 && lower_u_exec(v[i]) == 0x63 && lower_u_exec(v[i + 1]) == 0x6F
            && lower_u_exec(v[i + 2]) == 0x6C && lower_u_exec(v[i + 3]) == 0x73 && lower_u_exec(
            v[i + 4],
        ) == 0x70 && lower_u_exec(v[i + 5]) == 0x61 && lower_u_exec(v[i + 6]) == 0x6E
            && eq_follows_exec(v, i + 7);
        proof {
            assert(forall|k: int| 0 <= k < rem.len() ==> rem[k] == v@[i + k]);
            lemma_skip_hws_shift(v@, i as int, 7);
            lemma_skip_hws_bounds(v@, i + 7);
            if n - i >= 7 {
                assert(eq_follows(rem, 7) == eq_follows(v@, i + 7));
            }
            assert(c_hit == colspan_attr_at(rem, 0));
        }
        let ghost out0 = out@;
        if c_hit {
            out.push(v[i]);
            out.push(v[i + 1]);
            out.push(v[i + 2]);
            out.push(v[i + 3]);
            out.push(v[i + 4]);
            out.push(v[i + 5]);
            out.push('_');
            proof {
                assert(rem.subrange(7, rem.len() as int) =~= v@.subrange(i + 7, n as int));
                assert(defuse_attrs(rem) == seq![
                    rem[0],
                    rem[1],
                    rem[2],
                    rem[3],
                    rem[4],
                    rem[5],
                    '_',
                ] + defuse_attrs(v@.subrange(i + 7, n as int)));
                assert(out@ + defuse_attrs(v@.subrange(i + 7, n as int)) =~= out0 + defuse_attrs(
                    rem,
                ));
            }
            i = i + 7;
        } else {
            let s_hit = n - i >= 5 && lower_u_exec(v[i]) == 0x73 && lower_u_exec(v[i + 1]) == 0x74
                && lower_u_exec(v[i + 2]) == 0x61 && lower_u_exec(v[i + 3]) == 0x72
                && lower_u_exec(v[i + 4]) == 0x74 && eq_follows_exec(v, i + 5);
            proof {
                lemma_skip_hws_shift(v@, i as int, 5);
                lemma_skip_hws_bounds(v@, i + 5);
                if n - i >= 5 {
                    assert(eq_follows(rem, 5) == eq_follows(v@, i + 5));
                }
                assert(s_hit == start_attr_at(rem, 0));
            }
            if s_hit {
                out.push(v[i]);
                out.push(v[i + 1]);
                out.push(v[i + 2]);
                out.push(v[i + 3]);
                out.push('_');
                proof {
                    assert(rem.subrange(5, rem.len() as int) =~= v@.subrange(i + 5, n as int));
                    assert(defuse_attrs(rem) == seq![rem[0], rem[1], rem[2], rem[3], '_']
                        + defuse_attrs(v@.subrange(i + 5, n as int)));
                    assert(out@ + defuse_attrs(v@.subrange(i + 5, n as int)) =~= out0
                        + defuse_attrs(rem));
                }
                i = i + 5;
            } else {
                out.push(v[i]);
                proof {
                    assert(rem.subrange(1, rem.len() as int) =~= v@.subrange(i + 1, n as int));
                    assert(out@ + defuse_attrs(v@.subrange(i + 1, n as int)) =~= out0
                        + defuse_attrs(rem));
                }
                i = i + 1;
            }
        }
    }
    proof {
        assert(v@.subrange(n as int, n as int) =~= Seq::<char>::empty());
        assert(out@ + Seq::<char>::empty() =~= out@);
    }
    out
}

pub open spec fn is_tag_letter(c: char) -> bool {
    (0x41 <= c as u32 && c as u32 <= 0x5A) || (0x61 <= c as u32 && c as u32 <= 0x7A)
}

fn is_tag_letter_exec(c: char) -> (r: bool)
    ensures
        r == is_tag_letter(c),
{
    let u = c as u32;
    (0x41 <= u && u <= 0x5A) || (0x61 <= u && u <= 0x7A)
}

pub open spec fn is_name_char(c: char) -> bool {
    is_tag_letter(c) || crate::cleaner::is_digit(c)
}

fn is_name_char_exec(c: char) -> (r: bool)
    ensures
        r == is_name_char(c),
{
    let u = c as u32;
    is_tag_letter_exec(c) || (0x30 <= u && u <= 0x39)
}

/// The first index at or after `i` that does not hold a name character.
pub open spec fn name_end(s: Seq<char>, i: int) -> int
    decreases s.len() - i,
{
    if 0 <= i && i < s.len() && is_name_char(s[i]) {
        name_end(s, i + 1)
    } else {
        i
    }
}

pub proof fn lemma_name_end_bounds(s: Seq<char>, i: int)
    ensures
        name_end(s, i) >= i,
        i <= s.len() ==> name_end(s, i) <= s.len(),
    decreases s.len() - i,
{
    if 0 <= i && i < s.len() && is_name_char(s[i]) {
        lemma_name_end_bounds(s, i + 1);
    }
}

fn name_end_exec(v: &Vec<char>, i: usize) -> (r: usize)
    requires
        i <= v@.len(),
    ensures
        r as int == name_end(v@, i as int),
        i <= r <= v@.len(),
{
    let mut j = i;
    while j < v.len() && is_name_char_exec(v[j])
        invariant
            i <= j <= v@.len(),
            name_end(v@, i as int) == name_end(v@, j as int),
        decreases v@.len() - j,
    {
        j = j + 1;
    }
    j
}

/// Case-insensitive equality of two character sequences.
pub open spec fn ci_eq(a: Seq<char>, b: Seq<char>) -> bool {
    a.len() == b.len() && forall|k: int| 0 <= k < a.len() ==> lower_u(a[k]) == lower_u(b[k])
}

/// The HTML void elements: they never hold children, so they add no
/// nesting depth.
pub open spec fn is_void_tag(n: Seq<char>) -> bool {
    ||| ci_eq(n, "area"@)
    ||| ci_eq(n, "base"@)
    ||| ci_eq(n, "br"@)
    ||| ci_eq(n, "col"@)
    ||| ci_eq(n, "embed"@)
    ||| ci_eq(n, "hr"@)
    ||| ci_eq(n, "img"@)
    ||| ci_eq(n, "input"@)
    ||| ci_eq(n, "link"@)
    ||| ci_eq(n, "meta"@)
    ||| ci_eq(n, "param"@)
    ||| ci_eq(n, "source"@)
    ||| ci_eq(n, "track"@)
    ||| ci_eq(n, "wbr"@)
}

fn ranges_ci_eq(v: &Vec<char>, a1: usize, b1: usize, a2: usize, b2: usize) -> (r: bool)
    requires
        a1 <= b1 <= v@.len(),
        a2 <= b2 <= v@.len(),
    ensures
        r == ci_eq(v@.subrange(a1 as int, b1 as int), v@.subrange(a2 as int, b2 as int)),
{
    let ghost x = v@.subrange(a1 as int, b1 as int);
    let ghost y = v@.subrange(a2 as int, b2 as int);
    if b1 - a1 != b2 - a2 {
        return false;
    }
    let m = b1 - a1;
    let mut k: usize = 0;
    while k < m
        invariant
            0 <= k <= m,
            m == b1 - a1 == b2 - a2,
            a1 <= b1 <= v@.len(),
            a2 <= b2 <= v@.len(),
            x == v@.subrange(a1 as int, b1 as int),
            y == v@.subrange(a2 as int, b2 as int),
            forall|t: int| 0 <= t < k ==> lower_u(x[t]) == lower_u(y[t]),
        decreases m - k,
    {
        if lower_u_exec(v[a1 + k]) != lower_u_exec(v[a2 + k]) {
            proof {
                assert(x[k as int] == v@[a1 + k]);
                assert(y[k as int] == v@[a2 + k]);
            }
            return false;
        }
        proof {
            assert(x[k as int] == v@[a1 + k]);
            assert(y[k as int] == v@[a2 + k]);
        }
        k = k + 1;
    }
    true
}

fn range_ci_lit(v: &Vec<char>, a: usize, b: usize, lit: &str) -> (r: bool)
    requires
        a <= b <= v@.len(),
    ensures
        r == ci_eq(v@.subrange(a as int, b as int), lit@),
{
    let ghost x = v@.subrange(a as int, b as int);
    let lv = crate::chartext::chars_of(lit);
    if b - a != lv.len() {
        return false;
    }
    let m = b - a;
    let mut k: usize = 0;
    while k < m
        invariant
            0 <= k <= m,
            m == b - a,
            a <= b <= v@.len(),
            lv@ == lit@,
            m == lit@.len(),
            x == v@.subrange(a as int, b as int),
            forall|t: int| 0 <= t < k ==> lower_u(x[t]) == lower_u(lit@[t]),
        decreases m - k,
    {
        if lower_u_exec(v[a + k]) != lower_u_exec(lv[k]) {
            proof {
                assert(x[k as int] == v@[a + k]);
            }
            return false;
        }
        proof {
            assert(x[k as int] == v@[a + k]);
        }
        k = k + 1;
    }
    true
}

fn range_is_void(v: &Vec<char>, a: usize, b: usize) -> (r: bool)
    requires
        a <= b <= v@.len(),
    ensures
        r == is_void_tag(v@.subrange(a as int, b as int)),
{
    range_ci_lit(v, a, b, "area") || range_ci_lit(v, a, b, "base") || range_ci_lit(v, a, b, "br")
        || range_ci_lit(v, a, b, "col") || range_ci_lit(v, a, b, "embed") || range_ci_lit(
        v,
        a,
        b,
        "hr",
    ) || range_ci_lit(v, a, b, "img") || range_ci_lit(v, a, b, "input") || range_ci_lit(
        v,
        a,
        b,
        "link",
    ) || range_ci_lit(v, a, b, "meta") || range_ci_lit(v, a, b, "param") || range_ci_lit(
        v,
        a,
        b,
        "source",
    ) || range_ci_lit(v, a, b, "track") || range_ci_lit(v, a, b, "wbr")
}

/// The elements an HTML parser closes when the same element opens again
/// beside them (`<p><p>` never nests), so a repeat of the one on top of
/// the stack adds no depth.
pub open spec fn closes_sibling(n: Seq<char>) -> bool {
    ||| ci_eq(n, "p"@)
    ||| ci_eq(n, "li"@)
    ||| ci_eq(n, "td"@)
    ||| ci_eq(n, "th"@)
    ||| ci_eq(n, "tr"@)
    ||| ci_eq(n, "dd"@)
    ||| ci_eq(n, "dt"@)
    ||| ci_eq(n, "option"@)
    ||| ci_eq(n, "optgroup"@)
    ||| ci_eq(n, "tbody"@)
    ||| ci_eq(n, "thead"@)
    ||| ci_eq(n, "tfoot"@)
}

fn range_closes_sibling(v: &Vec<char>, a: usize, b: usize) -> (r: bool)
    requires
        a <= b <= v@.len(),
    ensures
        r == closes_sibling(v@.subrange(a as int, b as int)),
{
    range_ci_lit(v, a, b, "p") || range_ci_lit(v, a, b, "li") || range_ci_lit(v, a, b, "td")
        || range_ci_lit(v, a, b, "th") || range_ci_lit(v, a, b, "tr") || range_ci_lit(
        v,
        a,
        b,
        "dd",
    ) || range_ci_lit(v, a, b, "dt") || range_ci_lit(v, a, b, "option") || range_ci_lit(
        v,
        a,
        b,
        "optgroup",
    ) || range_ci_lit(v, a, b, "tbody") || range_ci_lit(v, a, b, "thead") || range_ci_lit(
        v,
        a,
        b,
        "tfoot",
    )
}

#[via_fn]
proof fn depth_scan_decreases(s: Seq<char>, i: int, st: Seq<Seq<char>>, hi: int) {
    lemma_name_end_bounds(s, i + 1);
    lemma_name_end_bounds(s, i + 2);
}

/// An upper estimate of the element nesting a parser would build from
/// `s`: open tags push their name, a closing tag pops only when it
/// matches the most recent open name, and the deepest stack seen is
/// returned.  Mismatched closes pop nothing, so the estimate never
/// falls below the nesting an error-recovering parser keeps.
pub open spec fn depth_scan(s: Seq<char>, i: int, st: Seq<Seq<char>>, hi: int) -> int
    decreases s.len() - i,
    via depth_scan_decreases
{
    if !(0 <= i && i < s.len()) {
        hi
    } else if s[i] == '<' {
        if i + 1 < s.len() && is_tag_letter(s[i + 1]) {
            let e = name_end(s, i + 1);
            let n = s.subrange(i + 1, e);
            if is_void_tag(n) {
                depth_scan(s, e, st, hi)
            } else if st.len() > 0 && ci_eq(st.last(), n) && closes_sibling(n) {
                depth_scan(s, e, st, hi)
            } else {
                let st2 = st.push(n);
                depth_scan(
                    s,
                    e,
                    st2,
                    if st2.len() > hi {
                        st2.len() as int
                    } else {
                        hi
                    },
                )
            }
        } else if i + 2 < s.len() && s[i + 1] == '/' && is_tag_letter(s[i + 2]) {
            let e = name_end(s, i + 2);
            let n = s.subrange(i + 2, e);
            if st.len() > 0 && ci_eq(st.last(), n) {
                depth_scan(s, e, st.drop_last(), hi)
            } else {
                depth_scan(s, e, st, hi)
            }
        } else {
            depth_scan(s, i + 1, st, hi)
        }
    } else {
        depth_scan(s, i + 1, st, hi)
    }
}

/// The estimated element nesting depth of a whole document.
pub open spec fn tag_depth(s: Seq<char>) -> int {
    depth_scan(s, 0, Seq::empty(), 0)
}

/// Computes [`tag_depth`].
fn tag_depth_exec(v: &Vec<char>) -> (r: usize)
    ensures
        r as int == tag_depth(v@),
{
    let n: usize = v.len();
    let mut st: Vec<(usize, usize)> = Vec::new();
    let ghost mut gst: Seq<Seq<char>> = Seq::empty();
    let mut hi: usize = 0;
    let mut i: usize = 0;
    while i < n
        invariant
            0 <= i <= n,
            n == v@.len(),
            gst.len() == st@.len(),
            forall|p: int|
                0 <= p < st@.len() ==> (#[trigger] st@[p]).0 <= st@[p].1 <= v@.len() && gst[p]
                    == v@.subrange(st@[p].0 as int, st@[p].1 as int),
            tag_depth(v@) == depth_scan(v@, i as int, gst, hi as int),
        decreases n - i,
    {
        if v[i] == '<' {
            if i + 1 < n && is_tag_letter_exec(v[i + 1]) {
                let e = name_end_exec(v, i + 1);
                let repeat_sibling = if st.len() > 0 {
                    let top = st[st.len() - 1];
                    ranges_ci_eq(v, top.0, top.1, i + 1, e) && range_closes_sibling(v, i + 1, e)
                } else {
                    false
                };
                proof {
                    if st@.len() > 0 {
                        assert(gst.last() == v@.subrange(st@[st@.len() - 1].0 as int, st@[st@.len() - 1].1 as int));
                    }
                }
                if range_is_void(v, i + 1, e) {
                    i = e;
                } else if repeat_sibling {
                    i = e;
                } else {
                    st.push((i + 1, e));
                    proof {
                        gst = gst.push(v@.subrange(i + 1, e as int));
                    }
                    if st.len() > hi {
                        hi = st.len();
                    }
                    i = e;
                }
            } else if n - i > 2 && v[i + 1] == '/' && is_tag_letter_exec(v[i + 2]) {
                let e = name_end_exec(v, i + 2);
                if st.len() > 0 {
                    let top = st[st.len() - 1];
                    let ghost st0 = st@;
                    if ranges_ci_eq(v, top.0, top.1, i + 2, e) {
                        let _ = st.pop();
                        proof {
                            assert(gst.last() == v@.subrange(top.0 as int, top.1 as int));
                            gst = gst.drop_last();
                            assert(st@ =~= st0.drop_last());
                        }
                    } else {
                        proof {
                            assert(gst.last() == v@.subrange(top.0 as int, top.1 as int));
                            assert(!ci_eq(gst.last(), v@.subrange(i + 2, e as int)));
                        }
                    }
                }
                i = e;
            } else {
                i = i + 1;
            }
        } else {
            i = i + 1;
        }
    }
    hi
}

/// The plain-text rendering of an HTML document at a given wrap width.
pub uninterp spec fn rendered_text(html: Seq<char>, width: int) -> Seq<char>;

/// The wrap width used when rendering a document: its character count,
/// but never below [`MIN_RENDER_WIDTH`].
pub open spec fn render_width(html: Seq<char>) -> int {
    if html.len() < MIN_RENDER_WIDTH {
        MIN_RENDER_WIDTH as int
    } else {
        html.len() as int
    }
}

/// Relies on `html2text::from_read`: renders HTML to plain text wrapped
/// to `width` columns; the result is a function of the two arguments.
/// The requirements keep out the inputs on which the renderer's own
/// arithmetic fails: a valued `colspan` attribute (value zero divides
/// by zero in its table layout), a valued ordered-list `start`
/// attribute (a value near the integer limit overflows its item
/// numbering), deep element nesting (it recurses once per level), and a
/// width too narrow for the per-level prefix narrowing it applies
/// without a floor.
#[verifier::external_body]
fn render_html(html: &str, width: usize) -> (r: String)
    requires
        !has_colspan_attr(html@),
        !has_start_attr(html@),
        tag_depth(html@) <= MAX_TAG_DEPTH as int,
        width >= MIN_RENDER_WIDTH,
    ensures
        r@ == rendered_text(html@, width as int),
{
    html2text::from_read(html.as_bytes(), width)
}

/// Cleans extracted text and enforces the minimum-length rule: empty
/// cleaned text means nothing was extracted, fewer than
/// [`MIN_CONTENT_CHARS`] characters are too short, and anything else is
/// returned cleaned.
pub fn refine_content(text: &str) -> (r: Result<String, FetchError>)
    ensures
        clean_spec(text@).len() == 0 ==> r == Err::<String, FetchError>(
            FetchError::ExtractionFailed,
        ),
        0 < clean_spec(text@).len() < MIN_CONTENT_CHARS ==> r == Err::<String, FetchError>(
            FetchError::ContentTooShort,
        ),
        clean_spec(text@).len() >= MIN_CONTENT_CHARS ==> (r matches Ok(s) && s@ == clean_spec(
            text@,
        )),
{
    let cleaned = crate::cleaner::clean_content(text.to_owned());
    let n = cleaned.as_str().unicode_len();
    if n == 0 {
        Err(FetchError::ExtractionFailed)
    } else if n < MIN_CONTENT_CHARS {
        Err(FetchError::ContentTooShort)
    } else {
        Ok(cleaned)
    }
}

/// Turns one fetched response into cleaned page text: a non-2xx status
/// fails with that status; a page nested beyond [`MAX_TAG_DEPTH`] fails
/// as unparsable; otherwise the body, with its valued `colspan` and
/// `start` attributes defused, is rendered to plain text, cleaned, and
/// held to the minimum-length rule.
pub fn process_fetched(status: u16, body: &str) -> (r: Result<String, FetchError>)
    ensures
        !(200 <= status < 300) ==> r == Err::<String, FetchError>(FetchError::HttpStatus(status)),
        (200 <= status < 300) && tag_depth(defuse_attrs(body@)) > MAX_TAG_DEPTH ==> (r
            matches Err(e) && (e matches FetchError::HtmlParse(m) && m@ == "嵌套过深"@)),
        (200 <= status < 300) && tag_depth(defuse_attrs(body@)) <= MAX_TAG_DEPTH ==> {
            let c = clean_spec(rendered_text(defuse_attrs(body@), render_width(body@)));
            &&& c.len() == 0 ==> r == Err::<String, FetchError>(FetchError::ExtractionFailed)
            &&& 0 < c.len() < MIN_CONTENT_CHARS ==> r == Err::<String, FetchError>(
                FetchError::ContentTooShort,
            )
            &&& c.len() >= MIN_CONTENT_CHARS ==> (r matches Ok(s) && s@ == c)
        },
{
    if !crate::http_status_is_success(status) {
        return Err(FetchError::HttpStatus(status));
    }
    let v = crate::chartext::chars_of(body);
    let sani = defuse_attrs_exec(&v);
    let d = tag_depth_exec(&sani);
    if d > MAX_TAG_DEPTH {
        return Err(FetchError::HtmlParse("嵌套过深".to_owned()));
    }
    let n = v.len();
    let width: usize = if n < MIN_RENDER_WIDTH {
        MIN_RENDER_WIDTH
    } else {
        n
    };
    let page = crate::chartext::string_of_chars(&sani);
    proof {
        lemma_defuse_clean(body@);
    }
    let text = render_html(page.as_str(), width);
    refine_content(text.as_str())
}

} // verus!

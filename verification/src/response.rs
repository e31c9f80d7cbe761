//! Parsing of the summarizer's JSON response.  The parser accepts the
//! standard JSON grammar (strings with the short escapes, objects,
//! arrays, literals, and numbers), finds the first
//! `choices` entry, and extracts the `content` of its first element's
//! `message`.  A `\u` escape must name a valid scalar value, or be a
//! high surrogate followed at once by a low one, which decode together.

use vstd::prelude::*;
use vstd::string::StringExecFns;
use crate::cleaner::is_digit;
use crate::errors::FetchError;

verus! {

/// JSON insignificant whitespace.
pub open spec fn is_jws(c: char) -> bool {
    c == ' ' || c == '\t' || c == '\n' || c == '\r'
}

fn is_jws_exec(c: char) -> (r: bool)
    ensures
        r == is_jws(c),
{
    c == ' ' || c == '\t' || c == '\n' || c == '\r'
}

/// The first index at or after `i` that does not hold whitespace.
pub open spec fn sk_ws(s: Seq<char>, i: int) -> int
    decreases s.len() - i,
{
    if 0 <= i && i < s.len() && is_jws(s[i]) {
        sk_ws(s, i + 1)
    } else {
        i
    }
}

fn sk_ws_exec(v: &Vec<char>, i: usize) -> (r: usize)
    requires
        i <= v@.len(),
    ensures
        r as int == sk_ws(v@, i as int),
        i <= r <= v@.len(),
{
    let mut j = i;
    while j < v.len() && is_jws_exec(v[j])
        invariant
            i <= j <= v@.len(),
            sk_ws(v@, i as int) == sk_ws(v@, j as int),
        decreases v@.len() - j,
    {
        j = j + 1;
    }
    j
}

/// What each short escape after a backslash decodes to, if it is one.
pub open spec fn esc_code(e: char) -> Option<char> {
    if e == '"' {
        Some('"')
    } else if e == '\\' {
        Some('\\')
    } else if e == '/' {
        Some('/')
    } else if e == 'n' {
        Some('\n')
    } else if e == 't' {
        Some('\t')
    } else if e == 'r' {
        Some('\r')
    } else if e == 'b' {
        Some('\u{0008}')
    } else if e == 'f' {
        Some('\u{000c}')
    } else {
        None
    }
}

fn esc_code_exec(e: char) -> (r: Option<char>)
    ensures
        r == esc_code(e),
{
    if e == '"' {
        Some('"')
    } else if e == '\\' {
        Some('\\')
    } else if e == '/' {
        Some('/')
    } else if e == 'n' {
        Some('\n')
    } else if e == 't' {
        Some('\t')
    } else if e == 'r' {
        Some('\r')
    } else if e == 'b' {
        Some('\u{0008}')
    } else if e == 'f' {
        Some('\u{000c}')
    } else {
        None
    }
}

/// The value of a hex digit, or a negative marker for any other
/// character.
pub open spec fn hex_val(c: char) -> int {
    if 0x30 <= c as u32 && c as u32 <= 0x39 {
        c as u32 - 0x30
    } else if 0x61 <= c as u32 && c as u32 <= 0x66 {
        c as u32 - 0x57
    } else if 0x41 <= c as u32 && c as u32 <= 0x46 {
        c as u32 - 0x37
    } else {
        -1
    }
}

fn hex_val_exec(c: char) -> (r: i32)
    ensures
        r as int == hex_val(c),
{
    let u = c as u32;
    if 0x30 <= u && u <= 0x39 {
        (u - 0x30) as i32
    } else if 0x61 <= u && u <= 0x66 {
        (u - 0x57) as i32
    } else if 0x41 <= u && u <= 0x46 {
        (u - 0x37) as i32
    } else {
        -1
    }
}

fn hex4_exec(v: &Vec<char>, k: usize) -> (r: i32)
    requires
        k <= v@.len(),
    ensures
        r as int == hex4(v@, k as int),
        r < 0x10000,
{
    if v.len() - k <= 3 {
        return -1;
    }
    let h0 = hex_val_exec(v[k]);
    let h1 = hex_val_exec(v[k + 1]);
    let h2 = hex_val_exec(v[k + 2]);
    let h3 = hex_val_exec(v[k + 3]);
    if h0 < 0 || h1 < 0 || h2 < 0 || h3 < 0 {
        return -1;
    }
    h0 * 4096 + h1 * 256 + h2 * 16 + h3
}

/// The value of the four hex digits starting at `i`, or a negative
/// marker if one is missing or not a hex digit.
pub open spec fn hex4(s: Seq<char>, i: int) -> int {
    if 0 <= i && i + 3 < s.len() && hex_val(s[i]) >= 0 && hex_val(s[i + 1]) >= 0 && hex_val(
        s[i + 2],
    ) >= 0 && hex_val(s[i + 3]) >= 0 {
        hex_val(s[i]) * 4096 + hex_val(s[i + 1]) * 256 + hex_val(s[i + 2]) * 16 + hex_val(
            s[i + 3],
        )
    } else {
        -1
    }
}

/// Two characters with the same scalar value are the same character.
proof fn lemma_char_injective(a: char, b: char)
    requires
        a as u32 == b as u32,
    ensures
        a == b,
{
}

/// The character with the given scalar value.
pub open spec fn char_of_code(code: int) -> char {
    choose|c: char| (#[trigger] (c as u32)) == code
}

/// Decodes a JSON string body starting just after the opening quote:
/// yields the decoded text and the index after the closing quote.
pub open spec fn jstr_body(s: Seq<char>, i: int) -> Option<(Seq<char>, int)>
    decreases s.len() - i,
{
    if !(0 <= i && i < s.len()) {
        None
    } else if s[i] == '"' {
        Some((Seq::empty(), i + 1))
    } else if s[i] == '\\' {
        if i + 1 < s.len() {
            if s[i + 1] == 'u' {
                let a = hex4(s, i + 2);
                if a < 0 {
                    None
                } else if !(0xD800 <= a && a <= 0xDFFF) {
                    match jstr_body(s, i + 6) {
                        Some(te) => Some((seq![char_of_code(a)] + te.0, te.1)),
                        None => None,
                    }
                } else if a <= 0xDBFF {
                    // a high surrogate: a low one must follow at once
                    if i + 7 < s.len() && s[i + 6] == '\\' && s[i + 7] == 'u' {
                        let b = hex4(s, i + 8);
                        if 0xDC00 <= b && b <= 0xDFFF {
                            let code = 0x10000 + (a - 0xD800) * 0x400 + (b - 0xDC00);
                            match jstr_body(s, i + 12) {
                                Some(te) => Some((seq![char_of_code(code)] + te.0, te.1)),
                                None => None,
                            }
                        } else {
                            None
                        }
                    } else {
                        None
                    }
                } else {
                    None
                }
            } else {
                match esc_code(s[i + 1]) {
                    Some(c) => match jstr_body(s, i + 2) {
                        Some(te) => Some((seq![c] + te.0, te.1)),
                        None => None,
                    },
                    None => None,
                }
            }
        } else {
            None
        }
    } else {
        match jstr_body(s, i + 1) {
            Some(te) => Some((seq![s[i]] + te.0, te.1)),
            None => None,
        }
    }
}

/// Maps an executable string-decode result onto the specification's.
pub open spec fn jstr_view(r: Option<(Vec<char>, usize)>) -> Option<(Seq<char>, int)> {
    match r {
        Some(te) => Some((te.0@, te.1 as int)),
        None => None,
    }
}

fn jstr_body_exec(v: &Vec<char>, i: usize) -> (r: Option<(Vec<char>, usize)>)
    requires
        i <= v@.len(),
    ensures
        jstr_view(r) == jstr_body(v@, i as int),
        r matches Some(te) ==> te.1 <= v@.len(),
{
    let mut out: Vec<char> = Vec::new();
    let mut j = i;
    proof {
        assert(out@ + Seq::<char>::empty() =~= out@);
    }
    loop
        invariant
            i <= j <= v@.len(),
            jstr_body(v@, i as int) == match jstr_body(v@, j as int) {
                Some(te) => Some((out@ + te.0, te.1)),
                None => None::<(Seq<char>, int)>,
            },
        decreases v@.len() - j,
    {
        if j >= v.len() {
            return None;
        }
        let c = v[j];
        if c == '"' {
            proof {
                assert(out@ + Seq::<char>::empty() =~= out@);
            }
            return Some((out, j + 1));
        } else if c == '\\' {
            if j + 1 >= v.len() {
                return None;
            }
            if v[j + 1] == 'u' {
                let a = hex4_exec(v, j + 2);
                if a < 0 {
                    return None;
                }
                if !(0xd800 <= a && a <= 0xdfff) {
                    let d = match char::from_u32(a as u32) {
                        Some(d) => d,
                        None => {
                            proof {
                                assert(false);
                            }
                            return None;
                        },
                    };
                    let ghost old_out = out@;
                    out.push(d);
                    proof {
                        assert(d as u32 == a as u32);
                        assert(exists|c2: char| (#[trigger] (c2 as u32)) == a as int);
                        assert(char_of_code(a as int) as u32 == a as int);
                        lemma_char_injective(d, char_of_code(a as int));
                        if jstr_body(v@, j + 6) is Some {
                            let te = jstr_body(v@, j + 6).unwrap();
                            assert(old_out + (seq![d] + te.0) =~= out@ + te.0);
                        }
                    }
                    j = j + 6;
                    continue;
                }
                if a > 0xdbff {
                    return None;
                }
                // a high surrogate: a low one must follow at once
                if v.len() - j <= 7 {
                    return None;
                }
                if !(v[j + 6] == '\\' && v[j + 7] == 'u') {
                    return None;
                }
                let b = hex4_exec(v, j + 8);
                if !(0xdc00 <= b && b <= 0xdfff) {
                    return None;
                }
                let code: u32 = 0x10000 + ((a as u32) - 0xd800) * 0x400 + ((b as u32) - 0xdc00);
                let d = match char::from_u32(code) {
                    Some(d) => d,
                    None => {
                        proof {
                            assert(false);
                        }
                        return None;
                    },
                };
                let ghost old_out = out@;
                out.push(d);
                proof {
                    assert(code as int == 0x10000 + (a - 0xD800) * 0x400 + (b - 0xDC00));
                    assert(d as u32 == code);
                    assert(exists|c2: char| (#[trigger] (c2 as u32)) == code as int);
                    assert(char_of_code(code as int) as u32 == code as int);
                    lemma_char_injective(d, char_of_code(code as int));
                    if jstr_body(v@, j + 12) is Some {
                        let te = jstr_body(v@, j + 12).unwrap();
                        assert(old_out + (seq![d] + te.0) =~= out@ + te.0);
                    }
                }
                j = j + 12;
                continue;
            }
            match esc_code_exec(v[j + 1]) {
                Some(d) => {
                    let ghost old_out = out@;
                    out.push(d);
                    proof {
                        if jstr_body(v@, j + 2) is Some {
                            let te = jstr_body(v@, j + 2).unwrap();
                            assert(old_out + (seq![d] + te.0) =~= out@ + te.0);
                        }
                    }
                    j = j + 2;
                },
                None => {
                    return None;
                },
            }
        } else {
            let ghost old_out = out@;
            out.push(c);
            proof {
                if jstr_body(v@, j + 1) is Some {
                    let te = jstr_body(v@, j + 1).unwrap();
                    assert(old_out + (seq![c] + te.0) =~= out@ + te.0);
                }
            }
            j = j + 1;
        }
    }
}

fn is_digit_exec(c: char) -> (r: bool)
    ensures
        r == is_digit(c),
{
    let u = c as u32;
    0x30 <= u && u <= 0x39
}

/// The first index at or after `i` that holds no digit.
pub open spec fn digits_end(s: Seq<char>, i: int) -> int
    decreases s.len() - i,
{
    if 0 <= i && i < s.len() && is_digit(s[i]) {
        digits_end(s, i + 1)
    } else {
        i
    }
}

fn digits_end_exec(v: &Vec<char>, i: usize) -> (r: usize)
    requires
        i <= v@.len(),
    ensures
        r as int == digits_end(v@, i as int),
        i <= r <= v@.len(),
{
    let mut j = i;
    while j < v.len() && is_digit_exec(v[j])
        invariant
            i <= j <= v@.len(),
            digits_end(v@, i as int) == digits_end(v@, j as int),
        decreases v@.len() - j,
    {
        j = j + 1;
    }
    j
}

/// The optional exponent of a JSON number starting at `q`, and the
/// token's end.
pub open spec fn num_exp(s: Seq<char>, q: int) -> Option<int> {
    if 0 <= q && q < s.len() && (s[q] == 'e' || s[q] == 'E') {
        let r = if q + 1 < s.len() && (s[q + 1] == '+' || s[q + 1] == '-') {
            q + 2
        } else {
            q + 1
        };
        if r < s.len() && is_digit(s[r]) {
            Some(digits_end(s, r))
        } else {
            None
        }
    } else {
        Some(q)
    }
}

/// The end of the JSON number starting at `i`: an optional minus, an
/// integer part without leading zeros, an optional fraction, an
/// optional exponent — or nothing if the token is not a JSON number.
pub open spec fn num_end(s: Seq<char>, i: int) -> Option<int> {
    let p = if 0 <= i && i < s.len() && s[i] == '-' {
        i + 1
    } else {
        i
    };
    if !(0 <= p && p < s.len() && is_digit(s[p])) {
        None
    } else {
        let q = if s[p] == '0' {
            p + 1
        } else {
            digits_end(s, p)
        };
        if q < s.len() && s[q] == '.' {
            if q + 1 < s.len() && is_digit(s[q + 1]) {
                num_exp(s, digits_end(s, q + 1))
            } else {
                None
            }
        } else {
            num_exp(s, q)
        }
    }
}

fn num_exp_exec(v: &Vec<char>, q: usize) -> (r: Option<usize>)
    requires
        q <= v@.len(),
    ensures
        oi(r) == num_exp(v@, q as int),
        r matches Some(e) ==> e <= v@.len(),
{
    if q < v.len() && (v[q] == 'e' || v[q] == 'E') {
        let p = if q + 1 < v.len() && (v[q + 1] == '+' || v[q + 1] == '-') {
            q + 2
        } else {
            q + 1
        };
        if p < v.len() && is_digit_exec(v[p]) {
            Some(digits_end_exec(v, p))
        } else {
            None
        }
    } else {
        Some(q)
    }
}

fn num_end_exec(v: &Vec<char>, i: usize) -> (r: Option<usize>)
    requires
        i <= v@.len(),
    ensures
        oi(r) == num_end(v@, i as int),
        r matches Some(e) ==> e <= v@.len(),
{
    let p = if i < v.len() && v[i] == '-' {
        i + 1
    } else {
        i
    };
    if !(p < v.len() && is_digit_exec(v[p])) {
        return None;
    }
    let q = if v[p] == '0' {
        p + 1
    } else {
        digits_end_exec(v, p)
    };
    if q < v.len() && v[q] == '.' {
        if q + 1 < v.len() && is_digit_exec(v[q + 1]) {
            num_exp_exec(v, digits_end_exec(v, q + 1))
        } else {
            None
        }
    } else {
        num_exp_exec(v, q)
    }
}

/// Skips one JSON value starting at `i` (no leading whitespace): yields
/// the index just after it.  `fuel` bounds the recursion; the top-level
/// entry point seeds it with more than any input can use.
pub open spec fn skip_value(s: Seq<char>, i: int, fuel: nat) -> Option<int>
    decreases fuel,
{
    if fuel == 0 {
        None
    } else if !(0 <= i && i < s.len()) {
        None
    } else {
        let c = s[i];
        if c == '"' {
            match jstr_body(s, i + 1) {
                Some(te) => Some(te.1),
                None => None,
            }
        } else if c == '{' {
            match obj_scan(s, i + 1, Seq::empty(), true, (fuel - 1) as nat) {
                Some(fe) => Some(fe.1),
                None => None,
            }
        } else if c == '[' {
            arr_scan(s, i + 1, true, (fuel - 1) as nat)
        } else if c == 't' {
            if i + 3 < s.len() && s[i + 1] == 'r' && s[i + 2] == 'u' && s[i + 3] == 'e' {
                Some(i + 4)
            } else {
                None
            }
        } else if c == 'f' {
            if i + 4 < s.len() && s[i + 1] == 'a' && s[i + 2] == 'l' && s[i + 3] == 's' && s[i + 4]
                == 'e' {
                Some(i + 5)
            } else {
                None
            }
        } else if c == 'n' {
            if i + 3 < s.len() && s[i + 1] == 'u' && s[i + 2] == 'l' && s[i + 3] == 'l' {
                Some(i + 4)
            } else {
                None
            }
        } else if is_digit(c) || c == '-' {
            num_end(s, i)
        } else {
            None
        }
    }
}

/// Scans the members of an object from just after its `{` (or from just
/// after a member when `first` is false): validates them all, remembers
/// where the value of the first member named `target` starts, and yields
/// that together with the index after the closing `}`.
pub open spec fn obj_scan(s: Seq<char>, i: int, target: Seq<char>, first: bool, fuel: nat) -> Option<
    (Option<int>, int),
>
    decreases fuel,
{
    if fuel == 0 {
        None
    } else {
        let j = sk_ws(s, i);
        if !(0 <= j && j < s.len()) {
            None
        } else if s[j] == '}' {
            Some((None, j + 1))
        } else if first {
            obj_member(s, j, target, (fuel - 1) as nat)
        } else if s[j] == ',' {
            obj_member(s, sk_ws(s, j + 1), target, (fuel - 1) as nat)
        } else {
            None
        }
    }
}

/// One `"key": value` member starting at `m`, followed by the rest of
/// the object.
pub open spec fn obj_member(s: Seq<char>, m: int, target: Seq<char>, fuel: nat) -> Option<
    (Option<int>, int),
>
    decreases fuel,
{
    if fuel == 0 {
        None
    } else if !(0 <= m && m < s.len() && s[m] == '"') {
        None
    } else {
        match jstr_body(s, m + 1) {
            None => None,
            Some(kk) => {
                let k2 = sk_ws(s, kk.1);
                if !(0 <= k2 && k2 < s.len() && s[k2] == ':') {
                    None
                } else {
                    let w = sk_ws(s, k2 + 1);
                    match skip_value(s, w, (fuel - 1) as nat) {
                        None => None,
                        Some(ve) => match obj_scan(s, ve, target, false, (fuel - 1) as nat) {
                            None => None,
                            Some(fe) => Some(
                                (
                                    if kk.0 == target {
                                        Some(w)
                                    } else {
                                        fe.0
                                    },
                                    fe.1,
                                ),
                            ),
                        },
                    }
                }
            },
        }
    }
}

/// Scans the elements of an array from just after its `[` (or from just
/// after an element when `first` is false): validates them all and
/// yields the index after the closing `]`.
pub open spec fn arr_scan(s: Seq<char>, i: int, first: bool, fuel: nat) -> Option<int>
    decreases fuel,
{
    if fuel == 0 {
        None
    } else {
        let j = sk_ws(s, i);
        if !(0 <= j && j < s.len()) {
            None
        } else if s[j] == ']' {
            Some(j + 1)
        } else if first {
            match skip_value(s, j, (fuel - 1) as nat) {
                None => None,
                Some(e) => arr_scan(s, e, false, (fuel - 1) as nat),
            }
        } else if s[j] == ',' {
            let k = sk_ws(s, j + 1);
            match skip_value(s, k, (fuel - 1) as nat) {
                None => None,
                Some(e) => arr_scan(s, e, false, (fuel - 1) as nat),
            }
        } else {
            None
        }
    }
}

pub open spec fn oi(r: Option<usize>) -> Option<int> {
    match r {
        Some(e) => Some(e as int),
        None => None,
    }
}

pub open spec fn ofe(r: Option<(Option<usize>, usize)>) -> Option<(Option<int>, int)> {
    match r {
        Some(fe) => Some((oi(fe.0), fe.1 as int)),
        None => None,
    }
}

fn vec_chars_eq(a: &Vec<char>, b: &Vec<char>) -> (r: bool)
    ensures
        r == (a@ == b@),
{
    if a.len() != b.len() {
        proof {
            assert(a@ != b@);
        }
        return false;
    }
    let mut i: usize = 0;
    while i < a.len()
        invariant
            0 <= i <= a@.len(),
            a@.len() == b@.len(),
            forall|k: int| 0 <= k < i ==> a@[k] == b@[k],
        decreases a@.len() - i,
    {
        if a[i] != b[i] {
            proof {
                assert(a@[i as int] != b@[i as int]);
            }
            return false;
        }
        i = i + 1;
    }
    proof {
        assert(a@ =~= b@);
    }
    true
}

fn skip_value_exec(v: &Vec<char>, i: usize, fuel: usize) -> (r: Option<usize>)
    requires
        i <= v@.len(),
    ensures
        oi(r) == skip_value(v@, i as int, fuel as nat),
        r matches Some(e) ==> e <= v@.len(),
    decreases fuel,
{
    if fuel == 0 {
        return None;
    }
    if i >= v.len() {
        return None;
    }
    let c = v[i];
    if c == '"' {
        match jstr_body_exec(v, i + 1) {
            Some(te) => Some(te.1),
            None => None,
        }
    } else if c == '{' {
        let empty_target: Vec<char> = Vec::new();
        match obj_scan_exec(v, i + 1, &empty_target, true, fuel - 1) {
            Some(fe) => Some(fe.1),
            None => None,
        }
    } else if c == '[' {
        arr_scan_exec(v, i + 1, true, fuel - 1)
    } else if c == 't' {
        if v.len() - i > 3 && v[i + 1] == 'r' && v[i + 2] == 'u' && v[i + 3] == 'e' {
            Some(i + 4)
        } else {
            None
        }
    } else if c == 'f' {
        if v.len() - i > 4 && v[i + 1] == 'a' && v[i + 2] == 'l' && v[i + 3] == 's' && v[i + 4]
            == 'e' {
            Some(i + 5)
        } else {
            None
        }
    } else if c == 'n' {
        if v.len() - i > 3 && v[i + 1] == 'u' && v[i + 2] == 'l' && v[i + 3] == 'l' {
            Some(i + 4)
        } else {
            None
        }
    } else if is_digit_exec(c) || c == '-' {
        num_end_exec(v, i)
    } else {
        None
    }
}

fn obj_scan_exec(v: &Vec<char>, i: usize, target: &Vec<char>, first: bool, fuel: usize) -> (r:
    Option<(Option<usize>, usize)>)
    requires
        i <= v@.len(),
    ensures
        ofe(r) == obj_scan(v@, i as int, target@, first, fuel as nat),
        r matches Some(fe) ==> fe.1 <= v@.len(),
    decreases fuel,
{
    if fuel == 0 {
        return None;
    }
    let j = sk_ws_exec(v, i);
    if j >= v.len() {
        return None;
    }
    if v[j] == '}' {
        Some((None, j + 1))
    } else if first {
        obj_member_exec(v, j, target, fuel - 1)
    } else if v[j] == ',' {
        let m = sk_ws_exec(v, j + 1);
        obj_member_exec(v, m, target, fuel - 1)
    } else {
        None
    }
}

fn obj_member_exec(v: &Vec<char>, m: usize, target: &Vec<char>, fuel: usize) -> (r: Option<
    (Option<usize>, usize),
>)
    requires
        m <= v@.len(),
    ensures
        ofe(r) == obj_member(v@, m as int, target@, fuel as nat),
        r matches Some(fe) ==> fe.1 <= v@.len(),
    decreases fuel,
{
    if fuel == 0 {
        return None;
    }
    if m >= v.len() || v[m] != '"' {
        return None;
    }
    let kk = match jstr_body_exec(v, m + 1) {
        Some(kk) => kk,
        None => {
            return None;
        },
    };
    let k2 = sk_ws_exec(v, kk.1);
    if k2 >= v.len() || v[k2] != ':' {
        return None;
    }
    let w = sk_ws_exec(v, k2 + 1);
    let ve = match skip_value_exec(v, w, fuel - 1) {
        Some(ve) => ve,
        None => {
            return None;
        },
    };
    match obj_scan_exec(v, ve, target, false, fuel - 1) {
        None => None,
        Some(fe) => {
            let hit = vec_chars_eq(&kk.0, target);
            if hit {
                Some((Some(w), fe.1))
            } else {
                Some((fe.0, fe.1))
            }
        },
    }
}

fn arr_scan_exec(v: &Vec<char>, i: usize, first: bool, fuel: usize) -> (r: Option<usize>)
    requires
        i <= v@.len(),
    ensures
        oi(r) == arr_scan(v@, i as int, first, fuel as nat),
        r matches Some(e) ==> e <= v@.len(),
    decreases fuel,
{
    if fuel == 0 {
        return None;
    }
    let j = sk_ws_exec(v, i);
    if j >= v.len() {
        return None;
    }
    if v[j] == ']' {
        Some(j + 1)
    } else if first {
        match skip_value_exec(v, j, fuel - 1) {
            None => None,
            Some(e) => arr_scan_exec(v, e, false, fuel - 1),
        }
    } else if v[j] == ',' {
        let k = sk_ws_exec(v, j + 1);
        match skip_value_exec(v, k, fuel - 1) {
            None => None,
            Some(e) => arr_scan_exec(v, e, false, fuel - 1),
        }
    } else {
        None
    }
}


/// What a response body means: the extracted content of the first
/// choice's message, an explicitly empty choice list, or a malformed
/// document.
pub enum ResponseContent {
    Text(Seq<char>),
    NoChoices,
    Malformed,
}

/// The recursion allowance used for a whole document: more than any
/// input of that length can consume.
pub open spec fn parse_fuel(s: Seq<char>) -> nat {
    (2 * s.len() + 8) as nat
}

pub open spec fn message_content(s: Seq<char>, mv: int, fl: nat) -> ResponseContent {
    if !(0 <= mv && mv < s.len() && s[mv] == '{') {
        ResponseContent::Malformed
    } else {
        match obj_scan(s, mv + 1, "content"@, true, fl) {
            None => ResponseContent::Malformed,
            Some(fe) => match fe.0 {
                None => ResponseContent::Malformed,
                Some(ct) => {
                    if 0 <= ct && ct < s.len() && s[ct] == '"' {
                        match jstr_body(s, ct + 1) {
                            Some(te) => ResponseContent::Text(te.0),
                            None => ResponseContent::Malformed,
                        }
                    } else {
                        ResponseContent::Malformed
                    }
                },
            },
        }
    }
}

pub open spec fn choices_content(s: Seq<char>, cv: int, fl: nat) -> ResponseContent {
    if !(0 <= cv && cv < s.len() && s[cv] == '[') {
        ResponseContent::Malformed
    } else {
        let j = sk_ws(s, cv + 1);
        if 0 <= j && j < s.len() && s[j] == ']' {
            ResponseContent::NoChoices
        } else if 0 <= j && j < s.len() && s[j] == '{' {
            match obj_scan(s, j + 1, "message"@, true, fl) {
                None => ResponseContent::Malformed,
                Some(fe) => match fe.0 {
                    None => ResponseContent::Malformed,
                    Some(mv) => message_content(s, mv, fl),
                },
            }
        } else {
            ResponseContent::Malformed
        }
    }
}

/// What the whole response body parses to.  The document must be a
/// single JSON object holding a `choices` member; members it does not
/// know are skipped, and the first occurrence of a repeated key counts.
/// A body longer than a hundred million characters is rejected
/// outright.
pub open spec fn response_of(s: Seq<char>) -> ResponseContent {
    if s.len() > 100000000 {
        ResponseContent::Malformed
    } else {
        let fl = parse_fuel(s);
        let j = sk_ws(s, 0);
        if !(0 <= j && j < s.len() && s[j] == '{') {
            ResponseContent::Malformed
        } else {
            match obj_scan(s, j + 1, "choices"@, true, fl) {
                None => ResponseContent::Malformed,
                Some(fe) => {
                    if sk_ws(s, fe.1) != s.len() {
                        ResponseContent::Malformed
                    } else {
                        match fe.0 {
                            None => ResponseContent::Malformed,
                            Some(cv) => choices_content(s, cv, fl),
                        }
                    }
                },
            }
        }
    }
}

fn malformed_err() -> (r: Result<String, FetchError>)
    ensures
        r matches Err(e) && (e matches FetchError::AiRequestFailed(m) && m@ == "无法解析AI响应"@),
{
    Err(FetchError::AiRequestFailed("无法解析AI响应".to_owned()))
}

/// Parses the summarizer's JSON response and extracts the content of
/// the first choice's message; an empty choice list and a document that
/// does not parse each fail with their own diagnostic.
pub fn parse_summary_response(body: &str) -> (r: Result<String, FetchError>)
    ensures
        match response_of(body@) {
            ResponseContent::Text(t) => r matches Ok(s) && s@ == t,
            ResponseContent::NoChoices => r matches Err(e) && (e
                matches FetchError::AiRequestFailed(m) && m@ == "AI返回了空结果"@),
            ResponseContent::Malformed => r matches Err(e) && (e
                matches FetchError::AiRequestFailed(m) && m@ == "无法解析AI响应"@),
        },
{
    let v = crate::chartext::chars_of(body);
    if v.len() > 100000000 {
        return malformed_err();
    }
    let fuel: usize = 2 * v.len() + 8;
    let j = sk_ws_exec(&v, 0);
    if j >= v.len() || v[j] != '{' {
        return malformed_err();
    }
    let choices_key = crate::chartext::chars_of("choices");
    let fe = match obj_scan_exec(&v, j + 1, &choices_key, true, fuel) {
        Some(fe) => fe,
        None => {
            return malformed_err();
        },
    };
    let endp = sk_ws_exec(&v, fe.1);
    if endp != v.len() {
        return malformed_err();
    }
    let cv = match fe.0 {
        Some(cv) => cv,
        None => {
            return malformed_err();
        },
    };
    if cv >= v.len() || v[cv] != '[' {
        return malformed_err();
    }
    let j2 = sk_ws_exec(&v, cv + 1);
    if j2 < v.len() && v[j2] == ']' {
        return Err(FetchError::AiRequestFailed("AI返回了空结果".to_owned()));
    }
    if j2 >= v.len() || v[j2] != '{' {
        return malformed_err();
    }
    let message_key = crate::chartext::chars_of("message");
    let mfe = match obj_scan_exec(&v, j2 + 1, &message_key, true, fuel) {
        Some(mfe) => mfe,
        None => {
            return malformed_err();
        },
    };
    let mv = match mfe.0 {
        Some(mv) => mv,
        None => {
            return malformed_err();
        },
    };
    if mv >= v.len() || v[mv] != '{' {
        return malformed_err();
    }
    let content_key = crate::chartext::chars_of("content");
    let cfe = match obj_scan_exec(&v, mv + 1, &content_key, true, fuel) {
        Some(cfe) => cfe,
        None => {
            return malformed_err();
        },
    };
    let ct = match cfe.0 {
        Some(ct) => ct,
        None => {
            return malformed_err();
        },
    };
    if ct >= v.len() || v[ct] != '"' {
        return malformed_err();
    }
    match jstr_body_exec(&v, ct + 1) {
        Some(te) => Ok(crate::chartext::string_of_chars(&te.0)),
        None => malformed_err(),
    }
}


/// Validates one response of the summarization POST: a non-2xx status
/// fails with the status code as the diagnostic, and a success status
/// hands the body to [`parse_summary_response`].
pub fn process_summary_response(status: u16, body: &str) -> (r: Result<String, FetchError>)
    ensures
        !(200 <= status < 300) ==> (r matches Err(e) && (e matches FetchError::AiRequestFailed(m)
            && m@ == "HTTP "@ + crate::errors::dec_digits(status as nat))),
        (200 <= status < 300) ==> match response_of(body@) {
            ResponseContent::Text(t) => r matches Ok(s) && s@ == t,
            ResponseContent::NoChoices => r matches Err(e) && (e
                matches FetchError::AiRequestFailed(m) && m@ == "AI返回了空结果"@),
            ResponseContent::Malformed => r matches Err(e) && (e
                matches FetchError::AiRequestFailed(m) && m@ == "无法解析AI响应"@),
        },
{
    if !crate::http_status_is_success(status) {
        let num = crate::errors::u16_to_dec_string(status);
        return Err(FetchError::AiRequestFailed("HTTP ".to_owned().concat(num.as_str())));
    }
    parse_summary_response(body)
}

} // verus!

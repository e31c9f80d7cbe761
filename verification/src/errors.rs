//! The failure taxonomy of the pipeline and its user-facing rendering.

use vstd::prelude::*;
use vstd::string::StringExecFns;

verus! {

/// Every way a fetch-and-summarize request can fail.  All failures are
/// terminal for the current request; each is rendered to the user through
/// [`FetchError::to_user_message`] and never shown raw.
#[derive(Debug)]
pub enum FetchError {
    /// The transport could not connect or the request could not be sent.
    Network(String),
    /// The response carried a non-2xx status code.
    HttpStatus(u16),
    /// The response body could not be decoded as text.
    HtmlParse(String),
    /// Cleaning left no usable text at all.
    ExtractionFailed,
    /// Cleaning left fewer characters than the minimum worth summarizing.
    ContentTooShort,
    /// Any failure outside the other kinds.
    Unknown(String),
    /// The summarization request failed; carries the inner diagnostic.
    AiRequestFailed(String),
}

pub open spec fn digit_char(d: nat) -> char {
    if d == 0 {
        '0'
    } else if d == 1 {
        '1'
    } else if d == 2 {
        '2'
    } else if d == 3 {
        '3'
    } else if d == 4 {
        '4'
    } else if d == 5 {
        '5'
    } else if d == 6 {
        '6'
    } else if d == 7 {
        '7'
    } else if d == 8 {
        '8'
    } else {
        '9'
    }
}

/// The decimal rendering of `n`, most significant digit first, with no
/// leading zeros (just `0` for zero).
pub open spec fn dec_digits(n: nat) -> Seq<char>
    decreases n,
{
    if n < 10 {
        seq![digit_char(n)]
    } else {
        dec_digits(n / 10).push(digit_char(n % 10))
    }
}

pub(crate) fn digit_char_exec(d: u16) -> (c: char)
    requires
        d < 10,
    ensures
        c == digit_char(d as nat),
{
    if d == 0 {
        '0'
    } else if d == 1 {
        '1'
    } else if d == 2 {
        '2'
    } else if d == 3 {
        '3'
    } else if d == 4 {
        '4'
    } else if d == 5 {
        '5'
    } else if d == 6 {
        '6'
    } else if d == 7 {
        '7'
    } else if d == 8 {
        '8'
    } else {
        '9'
    }
}

/// Renders `x` in decimal.
pub fn u16_to_dec_string(x: u16) -> (s: String)
    ensures
        s@ == dec_digits(x as nat),
{
    if x == 0 {
        proof {
            reveal_strlit("0");
            assert("0"@ =~= seq!['0']);
        }
        return "0".to_owned();
    }
    let mut digits: Vec<char> = Vec::new();
    let mut n: u16 = x;
    proof {
        assert(dec_digits(x as nat) + Seq::<char>::empty() =~= dec_digits(x as nat));
    }
    loop
        invariant_except_break
            1 <= n,
            dec_digits(x as nat) == dec_digits(n as nat) + digits@,
        ensures
            digits@ == dec_digits(x as nat),
        decreases n,
    {
        let ghost old_digits = digits@;
        let d = n % 10;
        let c = digit_char_exec(d);
        let nn = n / 10;
        digits.insert(0, c);
        proof {
            assert(digits@ =~= seq![c] + old_digits);
            if nn > 0 {
                assert(n >= 10);
                assert(dec_digits(n as nat) == dec_digits(n as nat / 10).push(
                    digit_char(n as nat % 10),
                ));
                assert(dec_digits(nn as nat).push(c) + old_digits =~= dec_digits(nn as nat) + (
                seq![c] + old_digits));
            } else {
                assert(n < 10);
                assert(dec_digits(n as nat) == seq![digit_char(n as nat)]);
                assert(seq![c] + old_digits =~= dec_digits(n as nat) + old_digits);
            }
        }
        n = nn;
        if n == 0 {
            break;
        }
    }
    crate::chartext::string_of_chars(&digits)
}

/// What each failure reads as to the user.  Only the status code and the
/// summarization diagnostic are interpolated; all other internal detail
/// is dropped.
pub open spec fn user_message(e: FetchError) -> Seq<char> {
    match e {
        FetchError::Network(_) => "无法连接到网址，请检查网络或网址是否正确。"@,
        FetchError::HttpStatus(code) => "网页返回异常状态码："@ + dec_digits(code as nat)
            + "。"@,
        FetchError::HtmlParse(_) => "无法解析网页内容，可能网页结构异常。"@,
        FetchError::ExtractionFailed => "没找到有效正文内容，请换一个链接。"@,
        FetchError::ContentTooShort => "网页内容过短，无法生成有效摘要。"@,
        FetchError::Unknown(_) => "出现未知错误，请稍后再试。"@,
        FetchError::AiRequestFailed(msg) => "AI摘要生成失败: "@ + msg@,
    }
}

impl FetchError {
    /// The fixed, localized sentence shown to the user for this failure.
    pub fn to_user_message(&self) -> (r: String)
        ensures
            r@ == user_message(*self),
    {
        match self {
            FetchError::Network(_) => "无法连接到网址，请检查网络或网址是否正确。".to_owned(),
            FetchError::HttpStatus(code) => {
                let num = u16_to_dec_string(*code);
                "网页返回异常状态码：".to_owned().concat(num.as_str()).concat("。")
            },
            FetchError::HtmlParse(_) => "无法解析网页内容，可能网页结构异常。".to_owned(),
            FetchError::ExtractionFailed => "没找到有效正文内容，请换一个链接。".to_owned(),
            FetchError::ContentTooShort => "网页内容过短，无法生成有效摘要。".to_owned(),
            FetchError::Unknown(_) => "出现未知错误，请稍后再试。".to_owned(),
            FetchError::AiRequestFailed(msg) => "AI摘要生成失败: ".to_owned().concat(
                msg.as_str(),
            ),
        }
    }
}

} // verus!

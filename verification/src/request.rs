//! Settings resolution and the chat-completion request that the
//! summarizer sends: configuration defaults, JSON string escaping, and
//! the exact request body.

use vstd::prelude::*;
use vstd::string::StringExecFns;
use crate::errors::FetchError;

verus! {

/// The four optional values read from the settings store.
pub struct SettingsRecord {
    pub api_key: Option<String>,
    pub api_model: Option<String>,
    pub api_url: Option<String>,
    pub api_path: Option<String>,
}

/// Everything the application needs to send one summarization request:
/// the full endpoint URL, the bearer token, and the JSON body.
pub struct PreparedRequest {
    pub url: String,
    pub bearer: String,
    pub body: String,
}

pub open spec fn model_of(s: SettingsRecord) -> Seq<char> {
    match s.api_model {
        Some(m) => m@,
        None => "gpt-4o"@,
    }
}

pub open spec fn url_of(s: SettingsRecord) -> Seq<char> {
    match s.api_url {
        Some(u) => u@,
        None => "https://api.openai.com"@,
    }
}

pub open spec fn path_of(s: SettingsRecord) -> Seq<char> {
    match s.api_path {
        Some(p) => p@,
        None => "/v1/chat/completions"@,
    }
}

pub open spec fn hex_char(d: nat) -> char {
    if d < 10 {
        crate::errors::digit_char(d)
    } else if d == 10 {
        'a'
    } else if d == 11 {
        'b'
    } else if d == 12 {
        'c'
    } else if d == 13 {
        'd'
    } else if d == 14 {
        'e'
    } else {
        'f'
    }
}

/// How one character appears inside a JSON string literal: quotes and
/// backslashes are escaped, control characters take their short escape or
/// a `\u00..` form, everything else stands as itself.
pub open spec fn esc_char(c: char) -> Seq<char> {
    if c == '"' {
        seq!['\\', '"']
    } else if c == '\\' {
        seq!['\\', '\\']
    } else if c == '\n' {
        seq!['\\', 'n']
    } else if c == '\r' {
        seq!['\\', 'r']
    } else if c == '\t' {
        seq!['\\', 't']
    } else if c == '\u{0008}' {
        seq!['\\', 'b']
    } else if c == '\u{000c}' {
        seq!['\\', 'f']
    } else if (c as u32) < 0x20 {
        seq!['\\', 'u', '0', '0', hex_char((c as u32 / 16) as nat), hex_char((c as u32 % 16) as nat)]
    } else {
        seq![c]
    }
}

/// The JSON-escaped form of a whole string.
pub open spec fn json_escape(s: Seq<char>) -> Seq<char>
    decreases s.len(),
{
    if s.len() == 0 {
        Seq::empty()
    } else {
        json_escape(s.drop_last()) + esc_char(s.last())
    }
}

fn esc_char_exec(c: char, out: &mut Vec<char>)
    ensures
        final(out)@ == old(out)@ + esc_char(c),
{
    let u = c as u32;
    if c == '"' {
        out.push('\\');
        out.push('"');
    } else if c == '\\' {
        out.push('\\');
        out.push('\\');
    } else if c == '\n' {
        out.push('\\');
        out.push('n');
    } else if c == '\r' {
        out.push('\\');
        out.push('r');
    } else if c == '\t' {
        out.push('\\');
        out.push('t');
    } else if u == 0x08 {
        out.push('\\');
        out.push('b');
    } else if u == 0x0c {
        out.push('\\');
        out.push('f');
    } else if u < 0x20 {
        out.push('\\');
        out.push('u');
        out.push('0');
        out.push('0');
        let hi = (u / 16) as u16;
        let lo = (u % 16) as u16;
        let hc = if hi < 10 {
            crate::errors::digit_char_exec(hi)
        } else {
            hex_letter(hi)
        };
        let lc = if lo < 10 {
            crate::errors::digit_char_exec(lo)
        } else {
            hex_letter(lo)
        };
        out.push(hc);
        out.push(lc);
    } else {
        out.push(c);
    }
    proof {
        assert(out@ =~= old(out)@ + esc_char(c));
    }
}

fn hex_letter(d: u16) -> (c: char)
    requires
        10 <= d < 16,
    ensures
        c == hex_char(d as nat),
{
    if d == 10 {
        'a'
    } else if d == 11 {
        'b'
    } else if d == 12 {
        'c'
    } else if d == 13 {
        'd'
    } else if d == 14 {
        'e'
    } else {
        'f'
    }
}

/// Escapes `s` for use inside a JSON string literal.
pub fn json_escape_exec(s: &str) -> (r: Vec<char>)
    ensures
        r@ == json_escape(s@),
{
    let v = crate::chartext::chars_of(s);
    let mut out: Vec<char> = Vec::new();
    let mut i: usize = 0;
    while i < v.len()
        invariant
            0 <= i <= v@.len(),
            v@ == s@,
            out@ == json_escape(s@.take(i as int)),
        decreases v@.len() - i,
    {
        let c = v[i];
        esc_char_exec(c, &mut out);
        i = i + 1;
        proof {
            assert(s@.take(i as int).drop_last() =~= s@.take(i - 1));
            assert(s@.take(i as int).last() == s@[i - 1]);
        }
    }
    proof {
        assert(s@.take(s@.len() as int) =~= s@);
    }
    out
}

/// The fixed system instruction sent with every summarization request.
pub fn system_prompt() -> (r: &'static str)
    ensures
        r@ == system_prompt_spec(),
{
    "你是一个专业的信息摘要助手，我给你提供待总结的内容，内容可能是各种语言。请将内容进行总结，突出重点和难点，并以中文的Markdown格式返回。"
}

pub open spec fn system_prompt_spec() -> Seq<char> {
    "你是一个专业的信息摘要助手，我给你提供待总结的内容，内容可能是各种语言。请将内容进行总结，突出重点和难点，并以中文的Markdown格式返回。"@
}

/// The serialized chat-completion request: the model, a fixed system
/// message, the content as the user message, temperature 0.5.
pub open spec fn request_body_spec(model: Seq<char>, content: Seq<char>) -> Seq<char> {
    "{\"model\":\""@ + json_escape(model) + "\",\"messages\":[{\"role\":\"system\",\"content\":\""@
        + json_escape(system_prompt_spec()) + "\"},{\"role\":\"user\",\"content\":\""@
        + json_escape(content) + "\"}],\"temperature\":0.5}"@
}

/// Builds the JSON body of one summarization request.
pub fn build_request_body(model: &str, content: &str) -> (r: String)
    ensures
        r@ == request_body_spec(model@, content@),
{
    let em = crate::chartext::string_of_chars(&json_escape_exec(model));
    let es = crate::chartext::string_of_chars(&json_escape_exec(system_prompt()));
    let ec = crate::chartext::string_of_chars(&json_escape_exec(content));
    let r = "{\"model\":\"".to_owned().concat(em.as_str()).concat(
        "\",\"messages\":[{\"role\":\"system\",\"content\":\"",
    ).concat(es.as_str()).concat("\"},{\"role\":\"user\",\"content\":\"").concat(
        ec.as_str(),
    ).concat("\"}],\"temperature\":0.5}");
    r
}

/// Resolves the settings and builds the request that would summarize
/// `content`: fails exactly when no API key is configured, and otherwise
/// yields the endpoint URL, bearer token and JSON body, with the
/// documented defaults filled in.
pub fn prepare_summary_request(content: &str, settings: SettingsRecord) -> (r: Result<
    PreparedRequest,
    FetchError,
>)
    ensures
        settings.api_key is None ==> (r matches Err(e) && e matches FetchError::AiRequestFailed(m)
            && m@ == "未设置API Key"@),
        settings.api_key matches Some(k) ==> (r matches Ok(p) && p.bearer@ == k@ && p.url@
            == url_of(settings) + path_of(settings) && p.body@ == request_body_spec(
            model_of(settings),
            content@,
        )),
{
    let SettingsRecord { api_key, api_model, api_url, api_path } = settings;
    let key = match api_key {
        Some(k) => k,
        None => {
            return Err(FetchError::AiRequestFailed("未设置API Key".to_owned()));
        },
    };
    let model = match api_model {
        Some(m) => m,
        None => "gpt-4o".to_owned(),
    };
    let url = match api_url {
        Some(u) => u,
        None => "https://api.openai.com".to_owned(),
    };
    let path = match api_path {
        Some(p) => p,
        None => "/v1/chat/completions".to_owned(),
    };
    let body = build_request_body(model.as_str(), content);
    let full_url = url.concat(path.as_str());
    Ok(PreparedRequest { url: full_url, bearer: key, body })
}

} // verus!

use pagesum::errors::FetchError;
use pagesum::request::{build_request_body, prepare_summary_request, SettingsRecord};

const SYSTEM_PROMPT: &str = "你是一个专业的信息摘要助手，我给你提供待总结的内容，内容可能是各种语言。请将内容进行总结，突出重点和难点，并以中文的Markdown格式返回。";

fn full_settings() -> SettingsRecord {
    SettingsRecord {
        api_key: Some("test-key".to_string()),
        api_model: Some("gpt-4o-mini".to_string()),
        api_url: Some("https://example.com".to_string()),
        api_path: Some("/v2/chat".to_string()),
    }
}

#[test]
fn missing_api_key_fails_before_anything_else() {
    let settings = SettingsRecord {
        api_key: None,
        api_model: Some("m".to_string()),
        api_url: Some("u".to_string()),
        api_path: Some("p".to_string()),
    };
    let r = prepare_summary_request("content", settings);
    match r {
        Err(FetchError::AiRequestFailed(m)) => assert_eq!(m, "未设置API Key"),
        _ => panic!("expected AiRequestFailed"),
    }
    let r2 = prepare_summary_request(
        "content",
        SettingsRecord { api_key: None, api_model: None, api_url: None, api_path: None },
    );
    match r2 {
        Err(e) => assert_eq!(e.to_user_message(), "AI摘要生成失败: 未设置API Key"),
        _ => panic!("expected an error"),
    }
}

#[test]
fn defaults_fill_in_for_absent_settings() {
    let settings = SettingsRecord {
        api_key: Some("k".to_string()),
        api_model: None,
        api_url: None,
        api_path: None,
    };
    let p = prepare_summary_request("some text", settings).unwrap();
    assert_eq!(p.url, "https://api.openai.com/v1/chat/completions");
    assert_eq!(p.bearer, "k");
    assert!(p.body.contains("\"model\":\"gpt-4o\""));
}

#[test]
fn configured_settings_are_used_verbatim() {
    let p = prepare_summary_request("text", full_settings()).unwrap();
    assert_eq!(p.url, "https://example.com/v2/chat");
    assert_eq!(p.bearer, "test-key");
    assert!(p.body.contains("\"model\":\"gpt-4o-mini\""));
}

#[test]
fn request_body_has_exact_shape() {
    let body = build_request_body("gpt-4o", "hello page");
    let expected = format!(
        "{{\"model\":\"gpt-4o\",\"messages\":[{{\"role\":\"system\",\"content\":\"{}\"}},{{\"role\":\"user\",\"content\":\"hello page\"}}],\"temperature\":0.5}}",
        SYSTEM_PROMPT
    );
    assert_eq!(body, expected);
}

#[test]
fn request_body_escapes_content() {
    let body = build_request_body("m", "a \"quoted\"\nline\\with\tstuff\u{1}");
    assert!(body.contains("a \\\"quoted\\\"\\nline\\\\with\\tstuff\\u0001"));
}

#[test]
fn request_body_is_valid_json() {
    let body = build_request_body("gpt-4o", "content with \"quotes\" and\nnewlines");
    let v: serde_json::Value = serde_json::from_str(&body).expect("body must parse as JSON");
    assert_eq!(v["model"], "gpt-4o");
    assert_eq!(v["temperature"], 0.5);
    assert_eq!(v["messages"][0]["role"], "system");
    assert_eq!(v["messages"][1]["role"], "user");
    assert_eq!(
        v["messages"][1]["content"],
        "content with \"quotes\" and\nnewlines"
    );
}

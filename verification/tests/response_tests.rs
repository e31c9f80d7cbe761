use pagesum::errors::FetchError;
use pagesum::response::parse_summary_response;
use pagesum::response::process_summary_response;

#[test]
fn well_formed_response_yields_content() {
    let r = parse_summary_response("{\"choices\":[{\"message\":{\"content\":\"hello\"}}]}");
    assert_eq!(r.unwrap(), "hello");
}

#[test]
fn empty_choices_is_an_ai_failure() {
    let r = parse_summary_response("{\"choices\": []}");
    match r {
        Err(FetchError::AiRequestFailed(m)) => assert_eq!(m, "AI返回了空结果"),
        _ => panic!("expected AiRequestFailed"),
    }
}

#[test]
fn extra_fields_are_skipped() {
    let body = "{\"id\":\"cmpl-1\",\"object\":\"chat.completion\",\"created\":1700000000,\
                \"model\":\"gpt-4o\",\"choices\":[{\"index\":0,\"message\":{\"role\":\"assistant\",\
                \"content\":\"hi there\"},\"finish_reason\":\"stop\"}],\
                \"usage\":{\"prompt_tokens\":10,\"completion_tokens\":2,\"total_tokens\":12}}";
    assert_eq!(parse_summary_response(body).unwrap(), "hi there");
}

#[test]
fn escapes_in_content_are_decoded() {
    let body = "{\"choices\":[{\"message\":{\"content\":\"line\\none \\\"two\\\" \\\\ slash\\/ tab\\t\"}}]}";
    assert_eq!(
        parse_summary_response(body).unwrap(),
        "line\none \"two\" \\ slash/ tab\t"
    );
}

#[test]
fn later_choices_are_tolerated_only_first_is_read() {
    let body = "{\"choices\":[{\"message\":{\"content\":\"first\"}},{\"message\":{\"content\":\"second\"}}]}";
    assert_eq!(parse_summary_response(body).unwrap(), "first");
}

#[test]
fn whitespace_around_tokens_is_fine() {
    let body = " { \"choices\" : [ { \"message\" : { \"content\" : \"ok\" } } ] } ";
    assert_eq!(parse_summary_response(body).unwrap(), "ok");
}

#[test]
fn malformed_documents_fail() {
    let cases = [
        "",
        "not json",
        "{\"choices\":[{\"message\":{\"content\":\"x\"}}]",
        "{\"choices\":[{\"message\":{\"content\":42}}]}",
        "{\"nochoices\":[]}",
        "{\"choices\":\"notanarray\"}",
        "{\"choices\":[{\"message\":{\"content\":\"x\"}}]} trailing",
    ];
    for body in cases {
        match parse_summary_response(body) {
            Err(FetchError::AiRequestFailed(m)) => {
                assert_eq!(m, "无法解析AI响应", "on {:?}", body)
            },
            other => panic!("expected parse failure on {:?}, got {:?}", body, other.is_ok()),
        }
    }
}

#[test]
fn message_without_content_fails() {
    let body = "{\"choices\":[{\"message\":{\"role\":\"assistant\"}}]}";
    assert!(matches!(
        parse_summary_response(body),
        Err(FetchError::AiRequestFailed(_))
    ));
}

#[test]
fn unicode_escapes_are_decoded() {
    let body = "{\"choices\":[{\"message\":{\"content\":\"\\u4f60\\u597dA\\u0041\"}}]}";
    assert_eq!(parse_summary_response(body).unwrap(), "你好AA");
}

#[test]
fn lone_surrogate_escape_fails() {
    let body = "{\"choices\":[{\"message\":{\"content\":\"\\ud83d\"}}]}";
    assert!(matches!(
        parse_summary_response(body),
        Err(FetchError::AiRequestFailed(_))
    ));
}

#[test]
fn bad_hex_escape_fails() {
    let body = "{\"choices\":[{\"message\":{\"content\":\"\\uzz11\"}}]}";
    assert!(matches!(
        parse_summary_response(body),
        Err(FetchError::AiRequestFailed(_))
    ));
}

#[test]
fn surrogate_pair_escapes_are_combined() {
    let body = "{\"choices\":[{\"message\":{\"content\":\"\\ud83d\\ude00 ok\"}}]}";
    assert_eq!(parse_summary_response(body).unwrap(), "\u{1F600} ok");
}

#[test]
fn high_surrogate_without_low_fails() {
    let body = "{\"choices\":[{\"message\":{\"content\":\"\\ud83dx\"}}]}";
    assert!(matches!(
        parse_summary_response(body),
        Err(FetchError::AiRequestFailed(_))
    ));
}

#[test]
fn summary_post_status_is_checked() {
    let good = "{\"choices\":[{\"message\":{\"content\":\"hello\"}}]}";
    assert_eq!(process_summary_response(200, good).unwrap(), "hello");
    assert_eq!(process_summary_response(299, good).unwrap(), "hello");
    match process_summary_response(500, good) {
        Err(FetchError::AiRequestFailed(m)) => assert_eq!(m, "HTTP 500"),
        _ => panic!("expected AiRequestFailed"),
    }
    match process_summary_response(401, good) {
        Err(e) => assert_eq!(e.to_user_message(), "AI摘要生成失败: HTTP 401"),
        _ => panic!("expected an error"),
    }
}

#[test]
fn malformed_number_tokens_fail() {
    let cases = [
        "{\"created\":1.2.3e++5,\"choices\":[{\"message\":{\"content\":\"x\"}}]}",
        "{\"created\":01,\"choices\":[{\"message\":{\"content\":\"x\"}}]}",
        "{\"created\":-,\"choices\":[{\"message\":{\"content\":\"x\"}}]}",
        "{\"created\":1.,\"choices\":[{\"message\":{\"content\":\"x\"}}]}",
        "{\"created\":1e,\"choices\":[{\"message\":{\"content\":\"x\"}}]}",
    ];
    for body in cases {
        match parse_summary_response(body) {
            Err(FetchError::AiRequestFailed(m)) => assert_eq!(m, "无法解析AI响应", "on {:?}", body),
            other => panic!("expected parse failure on {:?}, got ok={}", body, other.is_ok()),
        }
    }
}

#[test]
fn well_formed_number_tokens_are_skipped() {
    let body = "{\"a\":-0.5e+10,\"b\":0,\"c\":123E2,\"d\":7.25,\
                \"choices\":[{\"message\":{\"content\":\"numbers fine\"}}]}";
    assert_eq!(parse_summary_response(body).unwrap(), "numbers fine");
}

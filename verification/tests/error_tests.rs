use pagesum::errors::FetchError;

#[test]
fn network_message_is_fixed() {
    let e = FetchError::Network("tcp reset".to_string());
    assert_eq!(e.to_user_message(), "无法连接到网址，请检查网络或网址是否正确。");
}

#[test]
fn http_status_message_interpolates_code() {
    assert_eq!(
        FetchError::HttpStatus(404).to_user_message(),
        "网页返回异常状态码：404。"
    );
    assert_eq!(
        FetchError::HttpStatus(0).to_user_message(),
        "网页返回异常状态码：0。"
    );
    assert_eq!(
        FetchError::HttpStatus(65535).to_user_message(),
        "网页返回异常状态码：65535。"
    );
    assert_eq!(
        FetchError::HttpStatus(500).to_user_message(),
        "网页返回异常状态码：500。"
    );
}

#[test]
fn html_parse_message_is_fixed() {
    let e = FetchError::HtmlParse("bad utf8".to_string());
    assert_eq!(e.to_user_message(), "无法解析网页内容，可能网页结构异常。");
}

#[test]
fn extraction_failed_message_is_fixed() {
    assert_eq!(
        FetchError::ExtractionFailed.to_user_message(),
        "没找到有效正文内容，请换一个链接。"
    );
}

#[test]
fn content_too_short_message_is_fixed() {
    assert_eq!(
        FetchError::ContentTooShort.to_user_message(),
        "网页内容过短，无法生成有效摘要。"
    );
}

#[test]
fn unknown_message_is_fixed() {
    let e = FetchError::Unknown("panic".to_string());
    assert_eq!(e.to_user_message(), "出现未知错误，请稍后再试。");
}

#[test]
fn ai_request_failed_interpolates_detail() {
    let e = FetchError::AiRequestFailed("timeout".to_string());
    assert_eq!(e.to_user_message(), "AI摘要生成失败: timeout");
}

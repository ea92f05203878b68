use backend::server::{
    parse_u16, port_from_setting, scan_reply, scan_target, ScanOutcome, ScanRequest, DEFAULT_PORT,
};

#[test]
fn scan_target_trims_the_url() {
    let req = ScanRequest { url: "  https://github.com/a/b \n".to_string() };
    assert_eq!(scan_target(&req).unwrap(), "https://github.com/a/b");
}

#[test]
fn empty_url_is_a_bad_request() {
    for url in ["", "   ", "\t\n"] {
        let req = ScanRequest { url: url.to_string() };
        let reply = scan_target(&req).unwrap_err();
        assert_eq!(reply.status, 400);
        assert_eq!(reply.error.as_deref(), Some("url must not be empty"));
    }
}

#[test]
fn replies_to_outcomes() {
    let ok = scan_reply(&ScanOutcome::Analyzed);
    assert_eq!(ok.status, 200);
    assert!(ok.error.is_none());
    let failed = scan_reply(&ScanOutcome::Failed("clone remote repository".to_string()));
    assert_eq!(failed.status, 500);
    assert_eq!(failed.error.as_deref(), Some("clone remote repository"));
    let join = scan_reply(&ScanOutcome::JoinFailed("task 7 panicked".to_string()));
    assert_eq!(join.status, 500);
    assert_eq!(join.error.as_deref(), Some("task join: task 7 panicked"));
}

#[test]
fn parse_u16_like_str_parse() {
    assert_eq!(parse_u16("8080"), Some(8080));
    assert_eq!(parse_u16("+80"), Some(80));
    assert_eq!(parse_u16("0"), Some(0));
    assert_eq!(parse_u16("0080"), Some(80));
    assert_eq!(parse_u16("65535"), Some(65535));
    assert_eq!(parse_u16("65536"), None);
    assert_eq!(parse_u16("99999999999999999999"), None);
    assert_eq!(parse_u16(""), None);
    assert_eq!(parse_u16("+"), None);
    assert_eq!(parse_u16("-1"), None);
    assert_eq!(parse_u16(" 80"), None);
    assert_eq!(parse_u16("8o"), None);
    for s in ["1", "443", "65535", "65536", "+7", "x", "", "00000"] {
        assert_eq!(parse_u16(s), s.parse::<u16>().ok());
    }
}

#[test]
fn port_setting_falls_back_to_default() {
    assert_eq!(DEFAULT_PORT, 8787);
    assert_eq!(port_from_setting(None), 8787);
    assert_eq!(port_from_setting(Some("abc")), 8787);
    assert_eq!(port_from_setting(Some("70000")), 8787);
    assert_eq!(port_from_setting(Some("3000")), 3000);
}

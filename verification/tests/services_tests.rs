use minesweeper_backend::credentials::{
    check_password, ensure_account_free, hash_password, LoginRequest, PasswordError, RegisterRequest,
};
use minesweeper_backend::errors::ApiError;
use minesweeper_backend::public_url::{
    cors_origin_allowed, ip_literal_candidate, public_site, request_public_host, resolve_invite_base_url, HeaderText,
};
use minesweeper_backend::rate_limit::{client_ip, limits_disabled, rate_limit_bucket, rate_limit_key, RateLimitState};

fn text(s: &str) -> HeaderText {
    HeaderText::Text(s.to_string())
}

#[test]
fn buckets() {
    assert_eq!(rate_limit_bucket("/api/auth/login"), ("auth", 300));
    assert_eq!(rate_limit_bucket("/api/records"), ("records", 1000));
    assert_eq!(rate_limit_bucket("/api/records/user/1"), ("records", 1000));
    assert_eq!(rate_limit_bucket("/api/recordsx"), ("default", 100));
    assert_eq!(rate_limit_bucket("/api/minesweeper/games/1/reveal"), ("minesweeper_reveal", 12000));
    assert_eq!(rate_limit_bucket("/api/minesweeper/games/1/mark"), ("minesweeper_mark", 8000));
    assert_eq!(rate_limit_bucket("/api/minesweeper/games"), ("minesweeper_other", 4000));
    assert_eq!(rate_limit_bucket("/api/online/lobbies"), ("online", 250000));
    assert_eq!(rate_limit_bucket("/health"), ("default", 100));
}

#[test]
fn client_addresses_and_keys() {
    assert_eq!(client_ip(Some("10.0.0.1".to_string()), Some("1.2.3.4")), "10.0.0.1");
    assert_eq!(client_ip(None, Some(" 1.2.3.4 , 5.6.7.8")), "1.2.3.4");
    assert_eq!(client_ip(None, None), "unknown");
    assert_eq!(rate_limit_key("1.2.3.4", "auth"), "1.2.3.4:auth");
}

#[test]
fn sliding_window_limit() {
    let mut st = RateLimitState::new();
    let window = 900_000_000_000u64;
    assert!(st.check_and_record("k".to_string(), 0, window, 2));
    assert!(st.check_and_record("k".to_string(), 10, window, 2));
    assert!(!st.check_and_record("k".to_string(), 20, window, 2));
    assert!(st.check_and_record("other".to_string(), 20, window, 2));
    assert!(!st.check_and_record("k".to_string(), window - 1, window, 2));
    // at window + 5 the request at 0 has aged out; the one at 10 still counts
    assert!(st.check_and_record("k".to_string(), window + 5, window, 2));
    assert!(!st.check_and_record("k".to_string(), window + 9, window, 2));
    // at window + 10 the request at 10 has aged out too
    assert!(st.check_and_record("k".to_string(), window + 10, window, 2));
    assert!(!st.check_and_record("k".to_string(), window + 11, window, 2));
    assert!(st.check_and_record("k".to_string(), 3 * window, window, 2));
}

#[test]
fn public_host_from_headers() {
    assert_eq!(request_public_host(text("play.example.org, proxy"), text("api:3000")), Some("play.example.org".to_string()));
    assert_eq!(request_public_host(HeaderText::Absent, text(" 203.0.113.5:8080 ")), Some("203.0.113.5:8080".to_string()));
    assert_eq!(request_public_host(HeaderText::Absent, text("LOCALHOST:3000")), None);
    assert_eq!(request_public_host(HeaderText::Absent, text("127.0.0.1:3000")), None);
    assert_eq!(request_public_host(HeaderText::Unreadable, text("site.org")), None);
    assert_eq!(request_public_host(HeaderText::Absent, HeaderText::Absent), None);
    assert_eq!(request_public_host(HeaderText::Absent, text("localhost")), Some("localhost".to_string()));
}

#[test]
fn public_sites() {
    assert_eq!(ip_literal_candidate("[::1]:8080"), "::1");
    assert_eq!(ip_literal_candidate("10.1.2.3:80"), "10.1.2.3");
    assert_eq!(ip_literal_candidate("example.org"), "example.org");
    assert_eq!(public_site("10.1.2.3:80", None, true), "http://10.1.2.3:80");
    assert_eq!(public_site("example.org", None, false), "https://example.org");
    assert_eq!(public_site("example.org", Some(" http , https"), false), "http://example.org");
    assert_eq!(
        resolve_invite_base_url(&Some("https://front.example/".to_string()), Some("https://other".to_string()), "http://localhost:5173"),
        "https://front.example"
    );
    assert_eq!(resolve_invite_base_url(&None, Some("https://other".to_string()), "http://localhost:5173"), "https://other");
    assert_eq!(resolve_invite_base_url(&None, None, "http://localhost:5173"), "http://localhost:5173");
}

#[test]
fn account_requests() {
    let ok = RegisterRequest { username: "sa_123".to_string(), email: "smoke@local.test".to_string(), password: "secret1".to_string() };
    assert!(ok.validate().is_ok());
    let bad = RegisterRequest { username: "ab".to_string(), email: "not-an-email".to_string(), password: "12345".to_string() };
    let v = bad.validate().unwrap_err();
    assert!(v.username_length && v.email && v.password_length);
    let long = RegisterRequest { username: "a".repeat(21), email: "x@y.z".to_string(), password: "123456".to_string() };
    let v = long.validate().unwrap_err();
    assert!(v.username_length && !v.email && !v.password_length);
    let unicode = RegisterRequest { username: "日本語".to_string(), email: "x@y.z".to_string(), password: "пароль".to_string() };
    assert!(unicode.validate().is_ok());
    assert!(LoginRequest { email: "a@b.c".to_string(), password: String::new() }.validate().is_ok());
    assert!(LoginRequest { email: "nope".to_string(), password: String::new() }.validate().is_err());
    assert_eq!(ensure_account_free(0), Ok(()));
    assert_eq!(ensure_account_free(1), Err(ApiError::AccountExists));
}

#[test]
fn passwords() {
    let h = bcrypt::hash("hunter22", 4).unwrap();
    assert_eq!(check_password("hunter22", &h), Ok(()));
    assert_eq!(check_password("hunter23", &h), Err(PasswordError::Refused(ApiError::InvalidCredentials)));
    let cause = bcrypt::verify("hunter22", "not a hash").unwrap_err().to_string();
    assert_eq!(
        check_password("hunter22", "not a hash"),
        Err(PasswordError::Internal(format!("Internal server error: {cause}")))
    );
    assert_eq!(
        check_password("hunter22", "not a hash"),
        Err(PasswordError::Internal("Internal server error: Invalid hash: not a hash".to_string()))
    );
    let stored = hash_password("pw123456").unwrap();
    assert_ne!(stored, "pw123456");
    assert_eq!(check_password("pw123456", &stored), Ok(()));
}

#[test]
fn cors_origins() {
    let none: Option<String> = None;
    let configured = Some("https://front.example".to_string());
    assert!(cors_origin_allowed("http://localhost:5173", &configured));
    assert!(cors_origin_allowed("https://poise52.github.io", &configured));
    assert!(cors_origin_allowed("https://front.example", &configured));
    assert!(!cors_origin_allowed("https://evil.example", &configured));
    assert!(cors_origin_allowed("https://evil.example", &none));
    assert!(cors_origin_allowed("http://10.0.0.1:8080", &none));
    assert!(!cors_origin_allowed("ftp://files.example", &none));
    assert!(!cors_origin_allowed("", &none));
}

#[test]
fn limit_switch_values() {
    for v in ["1", "true", "TRUE", "True", "tRuE"] {
        assert!(limits_disabled(v), "{v}");
    }
    for v in ["", "0", "yes", "true ", " true", "truee", "tru", "2", "11", "ｔrue"] {
        assert!(!limits_disabled(v), "{v}");
        assert_eq!(limits_disabled(v), v == "1" || v.eq_ignore_ascii_case("true"));
    }
}

#[test]
fn switched_off_limits_let_everything_through() {
    let mut st = RateLimitState::new();
    for t in 0..5u64 {
        assert!(st.let_through(Some("TRUE"), "k".to_string(), t, 100, 1));
    }
    // nothing was recorded while limits were off
    assert!(st.let_through(None, "k".to_string(), 10, 100, 1));
    assert!(!st.let_through(None, "k".to_string(), 11, 100, 1));
    assert!(!st.let_through(Some("0"), "k".to_string(), 12, 100, 1));
    assert!(st.let_through(Some("1"), "k".to_string(), 13, 100, 1));
}

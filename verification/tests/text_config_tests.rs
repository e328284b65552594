use minesweeper_backend::auth::{bearer_token, claims_for, effective_role, role_allows_client_dev, session_token};
use minesweeper_backend::config::{duration_is_defined, parse_duration_seconds, Config};
use minesweeper_backend::errors::ApiError;
use minesweeper_backend::text::{
    find, first_segment, is_white_space, parse_unsigned_decimal, starts_with, str_eq, take_chars, trim,
    trim_end_char, trim_start_matches,
};

#[test]
fn white_space_matches_std() {
    for u in 0u32..=0x10FFFF {
        if let Some(c) = char::from_u32(u) {
            assert_eq!(is_white_space(c), c.is_whitespace(), "U+{u:04X}");
        }
    }
}

#[test]
fn trimming_and_splitting() {
    assert_eq!(trim("  a b \t\n"), "a b");
    assert_eq!(trim("\u{3000}x\u{2009}"), "x");
    assert_eq!(trim("   "), "");
    assert_eq!(first_segment("a,b,c", ','), "a");
    assert_eq!(first_segment("abc", ','), "abc");
    assert_eq!(trim_end_char("http://x.org///", '/'), "http://x.org");
    assert_eq!(trim_start_matches("Bearer Bearer tok", "Bearer "), "tok");
    assert_eq!(trim_start_matches("abc", ""), "abc");
    assert_eq!(take_chars("héllo", 2), "hé");
    assert_eq!(take_chars("ab", 6), "ab");
    assert!(starts_with("Bearer x", "Bearer "));
    assert!(!starts_with("Bear", "Bearer "));
    assert!(str_eq("ä", "ä"));
    assert!(!str_eq("a", "ab"));
}

#[test]
fn finding_text() {
    assert_eq!(find("abcabc", "ca"), Some(2));
    assert_eq!(find("ééinvite=", "invite="), Some(2));
    assert_eq!(find("abc", "x"), None);
    assert_eq!(find("abc", ""), Some(0));
    assert_eq!(find("", "a"), None);
}

#[test]
fn parsing_unsigned_numbers() {
    assert_eq!(parse_unsigned_decimal("42", u64::MAX), Some(42));
    assert_eq!(parse_unsigned_decimal("+7", u64::MAX), Some(7));
    assert_eq!(parse_unsigned_decimal("+", u64::MAX), None);
    assert_eq!(parse_unsigned_decimal("", u64::MAX), None);
    assert_eq!(parse_unsigned_decimal("-1", u64::MAX), None);
    assert_eq!(parse_unsigned_decimal(" 1", u64::MAX), None);
    assert_eq!(parse_unsigned_decimal("18446744073709551615", u64::MAX), Some(u64::MAX));
    assert_eq!(parse_unsigned_decimal("18446744073709551616", u64::MAX), None);
    assert_eq!(parse_unsigned_decimal("65535", 65535), Some(65535));
    assert_eq!(parse_unsigned_decimal("65536", 65535), None);
    for s in ["0", "007", "+12", "99999999999999999999", "1_0", "١"] {
        assert_eq!(parse_unsigned_decimal(s, u64::MAX), s.parse::<u64>().ok(), "{s}");
    }
}

#[test]
fn durations() {
    assert_eq!(parse_duration_seconds("90s"), Some(90));
    assert_eq!(parse_duration_seconds("15m"), Some(900));
    assert_eq!(parse_duration_seconds("12h"), Some(43200));
    assert_eq!(parse_duration_seconds(" 7d "), Some(604800));
    assert_eq!(parse_duration_seconds("3600"), Some(3600));
    assert_eq!(parse_duration_seconds("5"), None);
    assert_eq!(parse_duration_seconds(""), None);
    assert_eq!(parse_duration_seconds("   "), None);
    assert_eq!(parse_duration_seconds("xd"), None);
    assert_eq!(parse_duration_seconds("10x"), None);
    assert!(duration_is_defined("7d"));
    assert!(!duration_is_defined("5é"));
    assert!(!duration_is_defined("999999999999999999d"));
    assert!(duration_is_defined("999999999999999999s"));
}

#[test]
fn config_defaults() {
    let c = Config::from_values(None, "postgres://db".to_string(), None, None, None);
    assert_eq!(c.port, 3000);
    assert_eq!(c.database_url, "postgres://db");
    assert_eq!(c.jwt_secret, "your-secret-key");
    assert_eq!(c.jwt_expires_in_seconds, 604800);
    assert_eq!(c.frontend_url, None);
    let c = Config::from_values(
        Some("8080"),
        "x".to_string(),
        Some("s3cret".to_string()),
        Some("2h"),
        Some("https://site".to_string()),
    );
    assert_eq!(c.port, 8080);
    assert_eq!(c.jwt_secret, "s3cret");
    assert_eq!(c.jwt_expires_in_seconds, 7200);
    assert_eq!(c.frontend_url.as_deref(), Some("https://site"));
    let c = Config::from_values(Some("70000"), "x".to_string(), None, Some("bogus"), None);
    assert_eq!(c.port, 3000);
    assert_eq!(c.jwt_expires_in_seconds, 604800);
}

#[test]
fn roles() {
    assert!(role_allows_client_dev("admin"));
    assert!(role_allows_client_dev("superuser"));
    assert!(!role_allows_client_dev("user"));
    assert!(!role_allows_client_dev("Admin"));
    assert_eq!(effective_role(""), "user");
    assert_eq!(effective_role("admin"), "admin");
}

#[test]
fn claims_expiry_saturates() {
    let c = claims_for("u1", "admin", 1_000, 60);
    assert_eq!(c.user_id, "u1");
    assert_eq!(c.role, "admin");
    assert_eq!(c.exp, 1_060);
    let c = claims_for("u1", "", u64::MAX - 5, 60);
    assert_eq!(c.exp as u64, u64::MAX);
}

#[test]
fn authorization_headers() {
    assert_eq!(bearer_token("Bearer  abc "), Some("abc"));
    assert_eq!(bearer_token("bearer abc"), None);
    assert_eq!(bearer_token("Bearer Bearer x"), Some("Bearer x"));
    assert_eq!(session_token(Some("Bearer Bearer x")), Ok("x"));
    assert_eq!(session_token(Some("Bearer  tok ")), Ok("tok"));
    assert_eq!(session_token(Some("Basic abc")), Err(ApiError::Unauthorized));
    assert_eq!(session_token(None), Err(ApiError::Unauthorized));
}

#[test]
fn error_statuses_and_messages() {
    assert_eq!(ApiError::InvalidCell.status_code(), 400);
    assert_eq!(ApiError::InvalidCell.message(), "Invalid cell");
    assert_eq!(ApiError::NotInLobby.status_code(), 403);
    assert_eq!(ApiError::NoActiveMatch.status_code(), 404);
    assert_eq!(ApiError::InvalidToken.status_code(), 401);
    assert_eq!(ApiError::WinnerNotMatchPlayer.message(), "winnerId must be a match player");
}

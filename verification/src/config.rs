//! Server settings and the duration syntax used for token lifetimes.
use vstd::prelude::*;
use vstd::string::StrSliceExecFns;
use crate::text::{parse_unsigned, parse_unsigned_decimal, take_chars, trim, trimmed};

verus! {

/// Settings the server starts with.
#[derive(Clone, Debug)]
pub struct Config {
    pub port: u16,
    pub database_url: String,
    pub jwt_secret: String,
    pub jwt_expires_in_seconds: u64,
    pub frontend_url: Option<String>,
}

/// Seconds denoted by a duration such as `90s`, `15m`, `12h` or `7d` (white space around it
/// ignored). The number before the unit must parse on its own; when the last character is not
/// one of the units, the whole text is read as a number of seconds.
pub open spec fn duration_seconds(raw: Seq<char>) -> Option<int> {
    let t = trimmed(raw);
    if t.len() == 0 {
        None
    } else {
        match parse_unsigned(t.drop_last(), u64::MAX as int) {
            None => None,
            Some(v) => {
                let u = t.last();
                if u == 's' {
                    Some(v)
                } else if u == 'm' {
                    Some(v * 60)
                } else if u == 'h' {
                    Some(v * 3600)
                } else if u == 'd' {
                    Some(v * 86400)
                } else {
                    parse_unsigned(t, u64::MAX as int)
                }
            },
        }
    }
}

/// Inputs the duration parser handles: the last character of the trimmed text is ASCII
/// and the number of seconds fits in 64 bits.
pub open spec fn duration_defined(raw: Seq<char>) -> bool {
    let t = trimmed(raw);
    t.len() == 0 || ((t.last() as u32) < 128 && match duration_seconds(raw) {
        Some(x) => x <= u64::MAX,
        None => true,
    })
}

/// Whether `parse_duration_seconds` handles `raw` (see `duration_defined`).
pub fn duration_is_defined(raw: &str) -> (ok: bool)
    ensures
        ok == duration_defined(raw@),
{
    let t = trim(raw);
    let n = t.unicode_len();
    if n == 0 {
        return true;
    }
    let unit = t.get_char(n - 1);
    if unit as u32 >= 128 {
        return false;
    }
    let num_part = take_chars(t, n - 1);
    assert(num_part@ =~= t@.drop_last());
    let value = match parse_unsigned_decimal(num_part, u64::MAX) {
        Some(v) => v,
        None => {
            return true;
        },
    };
    if unit == 'm' {
        value <= u64::MAX / 60
    } else if unit == 'h' {
        value <= u64::MAX / 3600
    } else if unit == 'd' {
        value <= u64::MAX / 86400
    } else {
        true
    }
}

/// Parses a duration such as `90s`, `15m`, `12h` or `7d` into seconds (see `duration_seconds`).
pub fn parse_duration_seconds(raw: &str) -> (secs: Option<u64>)
    requires
        duration_defined(raw@),
    ensures
        match secs {
            Some(x) => duration_seconds(raw@) == Some(x as int),
            None => duration_seconds(raw@) is None,
        },
{
    let t = trim(raw);
    let n = t.unicode_len();
    if n == 0 {
        return None;
    }
    let num_part = take_chars(t, n - 1);
    assert(num_part@ =~= t@.drop_last());
    let unit = t.get_char(n - 1);
    let value = match parse_unsigned_decimal(num_part, u64::MAX) {
        Some(v) => v,
        None => {
            return None;
        },
    };
    if unit == 's' {
        Some(value)
    } else if unit == 'm' {
        Some(value * 60)
    } else if unit == 'h' {
        Some(value * 60 * 60)
    } else if unit == 'd' {
        Some(value * 24 * 60 * 60)
    } else {
        parse_unsigned_decimal(t, u64::MAX)
    }
}

/// Port a server listens on: the given text when it is a valid port number, 3000 otherwise.
pub open spec fn port_from(raw: Option<Seq<char>>) -> int {
    match raw {
        Some(p) => match parse_unsigned(p, 65535) {
            Some(x) => x,
            None => 3000,
        },
        None => 3000,
    }
}

impl Config {
    /// Settings from their raw textual values: an unparsable or missing port means 3000, a
    /// missing secret means `your-secret-key`, a missing or unparsable lifetime means seven days.
    pub fn from_values(
        port: Option<&str>,
        database_url: String,
        jwt_secret: Option<String>,
        jwt_expires_in: Option<&str>,
        frontend_url: Option<String>,
    ) -> (cfg: Config)
        requires
            jwt_expires_in matches Some(raw) ==> duration_defined(raw@),
        ensures
            cfg.port as int == port_from(
                match port {
                    Some(p) => Some(p@),
                    None => None,
                },
            ),
            cfg.database_url == database_url,
            cfg.jwt_secret@ == match jwt_secret {
                Some(s) => s@,
                None => "your-secret-key"@,
            },
            cfg.jwt_expires_in_seconds as int == match jwt_expires_in {
                Some(raw) => match duration_seconds(raw@) {
                    Some(x) => x,
                    None => 604800,
                },
                None => 604800,
            },
            cfg.frontend_url == frontend_url,
    {
        let port_value: u16 = match port {
            Some(p) => match parse_unsigned_decimal(p, 65535) {
                Some(x) => x as u16,
                None => 3000,
            },
            None => 3000,
        };
        let secret = match jwt_secret {
            Some(s) => s,
            None => String::from_str("your-secret-key"),
        };
        let expires: u64 = match jwt_expires_in {
            Some(raw) => match parse_duration_seconds(raw) {
                Some(x) => x,
                None => 7 * 24 * 60 * 60,
            },
            None => 7 * 24 * 60 * 60,
        };
        Config {
            port: port_value,
            database_url,
            jwt_secret: secret,
            jwt_expires_in_seconds: expires,
            frontend_url,
        }
    }
}

} // verus!

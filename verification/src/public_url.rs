//! The public address of the site, used in invite links.
use vstd::prelude::*;
use vstd::string::StrSliceExecFns;
use crate::text::{
    before_char, first_segment, lowercase_of, starts_with, str_eq, suffix_from, to_lowercase, trim, trim_end_char,
    trim_end_char_seq, trimmed,
};
use crate::rate_limit::has_prefix;

verus! {

/// A request header as received: absent, present but not readable as text, or its text.
#[derive(Debug)]
pub enum HeaderText {
    Absent,
    Unreadable,
    Text(String),
}

/// The text of a header, when it has readable text.
pub open spec fn header_text(h: HeaderText) -> Option<Seq<char>> {
    match h {
        HeaderText::Text(s) => Some(s@),
        _ => None,
    }
}

/// The host a request was addressed to: `X-Forwarded-Host` when present, else `Host`; its first
/// comma-separated value, trimmed. A direct call on `localhost:` or `127.0.0.1:` gives nothing.
pub open spec fn public_host_of(forwarded_host: HeaderText, host: HeaderText) -> Option<Seq<char>> {
    let raw = match forwarded_host {
        HeaderText::Absent => header_text(host),
        _ => header_text(forwarded_host),
    };
    match raw {
        None => None,
        Some(r) => {
            let h = trimmed(before_char(r, ','));
            let lc = lowercase_of(h);
            if has_prefix(lc, "localhost:"@) || has_prefix(lc, "127.0.0.1:"@) {
                None
            } else {
                Some(h)
            }
        },
    }
}

/// The host a request was addressed to (see `public_host_of`).
pub fn request_public_host(forwarded_host: HeaderText, host: HeaderText) -> (h: Option<String>)
    ensures
        match h {
            Some(x) => public_host_of(forwarded_host, host) == Some(x@),
            None => public_host_of(forwarded_host, host) is None,
        },
{
    let raw = match &forwarded_host {
        HeaderText::Absent => match &host {
            HeaderText::Text(s) => s.as_str(),
            _ => {
                return None;
            },
        },
        HeaderText::Text(s) => s.as_str(),
        HeaderText::Unreadable => {
            return None;
        },
    };
    let h = trim(first_segment(raw, ','));
    let lc = to_lowercase(h);
    if starts_with(lc.as_str(), "localhost:") || starts_with(lc.as_str(), "127.0.0.1:") {
        return None;
    }
    Some(String::from_str(h))
}

/// The part of a host that would be an IP address: inside the brackets of `[...]`, otherwise
/// before the first `:`.
pub open spec fn ip_candidate_of(host: Seq<char>) -> Seq<char> {
    if host.len() > 0 && host[0] == '[' {
        before_char(host.drop_first(), ']')
    } else {
        before_char(host, ':')
    }
}

/// The part of a host that would be an IP address (see `ip_candidate_of`).
pub fn ip_literal_candidate(host: &str) -> (c: &str)
    ensures
        c@ == ip_candidate_of(host@),
{
    if host.unicode_len() > 0 && host.get_char(0) == '[' {
        let rest = suffix_from(host, 1);
        assert(rest@ =~= host@.drop_first());
        first_segment(rest, ']')
    } else {
        first_segment(host, ':')
    }
}

/// The public site of a host: the scheme is the first value of `X-Forwarded-Proto` (trimmed)
/// when readable, otherwise `http` for an IP address and `https` for a name.
pub open spec fn public_site_of(host: Seq<char>, forwarded_proto: Option<Seq<char>>, host_is_ip: bool) -> Seq<char> {
    let proto = match forwarded_proto {
        Some(p) => trimmed(before_char(p, ',')),
        None => if host_is_ip { "http"@ } else { "https"@ },
    };
    proto + "://"@ + host
}

/// The public site of a host (see `public_site_of`); `host_is_ip` tells whether the host's IP
/// candidate parses as an IP address.
pub fn public_site(host: &str, forwarded_proto: Option<&str>, host_is_ip: bool) -> (site: String)
    ensures
        site@ == public_site_of(
            host@,
            match forwarded_proto {
                Some(p) => Some(p@),
                None => None,
            },
            host_is_ip,
        ),
{
    let mut site = match forwarded_proto {
        Some(p) => String::from_str(trim(first_segment(p, ','))),
        None => if host_is_ip { String::from_str("http") } else { String::from_str("https") },
    };
    site.append("://");
    site.append(host);
    site
}

/// The base address of invite links: the configured public address without trailing
/// slashes, else the site the request came through, else the fallback.
pub fn resolve_invite_base_url(
    configured_public_url: &Option<String>,
    site_from_request: Option<String>,
    invite_fallback: &str,
) -> (base: String)
    ensures
        base@ == match configured_public_url {
            Some(u) => trim_end_char_seq(u@, '/'),
            None => match site_from_request {
                Some(s) => s@,
                None => invite_fallback@,
            },
        },
{
    match configured_public_url {
        Some(u) => String::from_str(trim_end_char(u.as_str(), '/')),
        None => match site_from_request {
            Some(s) => s,
            None => String::from_str(invite_fallback),
        },
    }
}

/// Whether a browser origin may call the API: the two known front ends always may; otherwise
/// the configured public address when there is one, else any `http://` or `https://` origin.
pub open spec fn origin_allowed(origin: Seq<char>, configured: Option<Seq<char>>) -> bool {
    origin == "http://localhost:5173"@ || origin == "https://poise52.github.io"@ || match configured {
        Some(c) => c == origin,
        None => has_prefix(origin, "http://"@) || has_prefix(origin, "https://"@),
    }
}

/// Whether a browser origin may call the API (see `origin_allowed`).
pub fn cors_origin_allowed(origin: &str, configured: &Option<String>) -> (ok: bool)
    ensures
        ok == origin_allowed(
            origin@,
            match configured {
                Some(c) => Some(c@),
                None => None,
            },
        ),
{
    if str_eq(origin, "http://localhost:5173") || str_eq(origin, "https://poise52.github.io") {
        return true;
    }
    match configured {
        Some(c) => str_eq(c.as_str(), origin),
        None => starts_with(origin, "http://") || starts_with(origin, "https://"),
    }
}

} // verus!

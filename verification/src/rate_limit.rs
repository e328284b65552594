//! Per-client request limits over a sliding window.
use vstd::prelude::*;
use vstd::hash_map::StringHashMap;
use vstd::string::StrSliceExecFns;
use crate::text::{before_char, find, first_segment, occurs_at, starts_with, str_eq, trim, trimmed};

verus! {

/// Requests allowed per window outside the named buckets.
pub const RATE_LIMIT_MAX: usize = 100;
/// Length of the window, in seconds.
pub const RATE_LIMIT_WINDOW_SECONDS: u64 = 900;
/// Requests allowed per window on authentication routes.
pub const AUTH_RATE_LIMIT_MAX: usize = 300;
/// Requests allowed per window on record routes.
pub const RECORDS_RATE_LIMIT_MAX: usize = 1000;
/// Cell openings allowed per window.
pub const MINESWEEPER_REVEAL_RATE_LIMIT_MAX: usize = 12000;
/// Cell markings allowed per window.
pub const MINESWEEPER_MARK_RATE_LIMIT_MAX: usize = 8000;
/// Other game requests allowed per window.
pub const MINESWEEPER_OTHER_RATE_LIMIT_MAX: usize = 4000;
/// Online-mode requests allowed per window.
pub const ONLINE_RATE_LIMIT_MAX: usize = 250000;

/// Recent request times (nanoseconds on a monotonic clock) per client and bucket.
pub struct RateLimitState {
    pub hits: StringHashMap<Vec<u64>>,
}

/// `prefix` begins `s`.
pub open spec fn has_prefix(s: Seq<char>, prefix: Seq<char>) -> bool {
    prefix.len() <= s.len() && s.subrange(0, prefix.len() as int) == prefix
}

/// `pat` occurs somewhere in `s`.
pub open spec fn contains_text(s: Seq<char>, pat: Seq<char>) -> bool {
    exists|k: int| #[trigger] occurs_at(s, pat, k)
}

/// Bucket of a request path and the number of requests it allows per window.
pub open spec fn bucket_of(path: Seq<char>) -> (Seq<char>, int) {
    if has_prefix(path, "/api/auth/"@) {
        ("auth"@, 300)
    } else if has_prefix(path, "/api/records/"@) || path == "/api/records"@ {
        ("records"@, 1000)
    } else if contains_text(path, "/reveal"@) {
        ("minesweeper_reveal"@, 12000)
    } else if contains_text(path, "/mark"@) {
        ("minesweeper_mark"@, 8000)
    } else if has_prefix(path, "/api/minesweeper/"@) {
        ("minesweeper_other"@, 4000)
    } else if has_prefix(path, "/api/online/"@) {
        ("online"@, 250000)
    } else {
        ("default"@, 100)
    }
}

/// Code of a character with ASCII upper-case letters lowered.
pub open spec fn ascii_lower_code(c: char) -> u32 {
    if 'A' <= c <= 'Z' { (c as u32 + 32) as u32 } else { c as u32 }
}

/// Whether a setting turns request limits off: `1`, or `true` in any ASCII letter case.
pub open spec fn disables_limits(value: Seq<char>) -> bool {
    value == "1"@ || (value.len() == 4 && forall|i: int| 0 <= i < 4 ==> ascii_lower_code(#[trigger] value[i]) == "true"@[i] as u32)
}

/// Whether a setting turns request limits off (see `disables_limits`).
pub fn limits_disabled(value: &str) -> (off: bool)
    ensures
        off == disables_limits(value@),
{
    if str_eq(value, "1") {
        return true;
    }
    let n = value.unicode_len();
    if n != 4 {
        return false;
    }
    let word = "true";
    let mut i: usize = 0;
    while i < 4
        invariant
            0 <= i <= 4,
            n == value@.len(),
            n == 4,
            value@ != "1"@,
            word@ == "true"@,
            forall|k: int| 0 <= k < i ==> ascii_lower_code(#[trigger] value@[k]) == "true"@[k] as u32,
        decreases 4 - i,
    {
        proof {
            reveal_strlit("true");
        }
        let c = value.get_char(i);
        let code: u32 = if 'A' <= c && c <= 'Z' { (c as u32) + 32 } else { c as u32 };
        if code != word.get_char(i) as u32 {
            assert(ascii_lower_code(value@[i as int]) != "true"@[i as int] as u32);
            return false;
        }
        i = i + 1;
    }
    true
}

fn contains(s: &str, pat: &str) -> (b: bool)
    ensures
        b == contains_text(s@, pat@),
{
    match find(s, pat) {
        Some(i) => {
            assert(occurs_at(s@, pat@, i as int));
            true
        },
        None => false,
    }
}

/// The bucket a request path counts against, with its limit per window.
pub fn rate_limit_bucket(path: &str) -> (bucket: (&'static str, usize))
    ensures
        (bucket.0@, bucket.1 as int) == bucket_of(path@),
{
    if starts_with(path, "/api/auth/") {
        ("auth", AUTH_RATE_LIMIT_MAX)
    } else if starts_with(path, "/api/records/") || str_eq(path, "/api/records") {
        ("records", RECORDS_RATE_LIMIT_MAX)
    } else if contains(path, "/reveal") {
        ("minesweeper_reveal", MINESWEEPER_REVEAL_RATE_LIMIT_MAX)
    } else if contains(path, "/mark") {
        ("minesweeper_mark", MINESWEEPER_MARK_RATE_LIMIT_MAX)
    } else if starts_with(path, "/api/minesweeper/") {
        ("minesweeper_other", MINESWEEPER_OTHER_RATE_LIMIT_MAX)
    } else if starts_with(path, "/api/online/") {
        ("online", ONLINE_RATE_LIMIT_MAX)
    } else {
        ("default", RATE_LIMIT_MAX)
    }
}

/// The client a request is counted for: the peer address when known, otherwise the first
/// address of `X-Forwarded-For` (trimmed), otherwise `unknown`.
pub open spec fn client_of(peer: Option<Seq<char>>, forwarded_for: Option<Seq<char>>) -> Seq<char> {
    match peer {
        Some(p) => p,
        None => match forwarded_for {
            Some(f) => trimmed(before_char(f, ',')),
            None => "unknown"@,
        },
    }
}

/// The client a request is counted for (see `client_of`); `forwarded_for` is absent when the
/// header is missing or not readable as text.
pub fn client_ip(peer: Option<String>, forwarded_for: Option<&str>) -> (ip: String)
    ensures
        ip@ == client_of(
            match peer {
                Some(p) => Some(p@),
                None => None,
            },
            match forwarded_for {
                Some(f) => Some(f@),
                None => None,
            },
        ),
{
    match peer {
        Some(p) => p,
        None => match forwarded_for {
            Some(f) => String::from_str(trim(first_segment(f, ','))),
            None => String::from_str("unknown"),
        },
    }
}

/// Key under which a client's requests in a bucket are counted: `ip:bucket`.
pub fn rate_limit_key(ip: &str, bucket: &str) -> (key: String)
    ensures
        key@ == ip@ + ":"@ + bucket@,
{
    let mut key = String::from_str(ip);
    key.append(":");
    key.append(bucket);
    key
}

/// A request at `t` still counts at `now`: less than `window` has passed (no time passes
/// for requests stamped after `now`).
pub open spec fn within_window(t: u64, now: u64, window: u64) -> bool {
    (if now >= t { now - t } else { 0 }) < window
}

/// The requests of `ts` that still count at `now`, in order.
pub open spec fn recent(ts: Seq<u64>, now: u64, window: u64) -> Seq<u64>
    decreases ts.len(),
{
    if ts.len() == 0 {
        Seq::empty()
    } else {
        let prev = recent(ts.drop_last(), now, window);
        if within_window(ts.last(), now, window) {
            prev.push(ts.last())
        } else {
            prev
        }
    }
}

/// The requests recorded under `key`.
pub open spec fn recorded(hits: Map<Seq<char>, Vec<u64>>, key: Seq<char>) -> Seq<u64> {
    if hits.contains_key(key) {
        hits[key]@
    } else {
        Seq::empty()
    }
}

impl RateLimitState {
    /// An empty record of requests.
    pub fn new() -> (s: Self)
        ensures
            s.hits@ == Map::<Seq<char>, Vec<u64>>::empty(),
    {
        RateLimitState { hits: StringHashMap::new() }
    }

    /// Decides a request: when `setting` (the value of the switch that turns limits off, absent
    /// when unset) disables limits, the request passes and nothing is recorded; otherwise it is
    /// counted as `check_and_record` counts it.
    pub fn let_through(&mut self, setting: Option<&str>, key: String, now: u64, window: u64, max_requests: usize) -> (allowed: bool)
        ensures
            (setting matches Some(v) && disables_limits(v@)) ==> allowed && final(self).hits@ == old(self).hits@,
            !(setting matches Some(v) && disables_limits(v@)) ==> ({
                let kept = recent(recorded(old(self).hits@, key@), now, window);
                &&& allowed == (kept.len() < max_requests)
                &&& final(self).hits@.dom() == old(self).hits@.dom().insert(key@)
                &&& forall|k: Seq<char>| k != key@ && #[trigger] old(self).hits@.contains_key(k) ==> final(self).hits@[k] == old(
                    self,
                ).hits@[k]
                &&& final(self).hits@[key@]@ == if allowed { kept.push(now) } else { kept }
            }),
    {
        if let Some(v) = setting {
            if limits_disabled(v) {
                return true;
            }
        }
        self.check_and_record(key, now, window, max_requests)
    }

    /// Counts a request under `key` at `now`: requests older than `window` are forgotten;
    /// when `max_requests` recent ones remain the request is refused, otherwise it is recorded.
    pub fn check_and_record(&mut self, key: String, now: u64, window: u64, max_requests: usize) -> (allowed: bool)
        ensures
            ({
                let kept = recent(recorded(old(self).hits@, key@), now, window);
                &&& allowed == (kept.len() < max_requests)
                &&& final(self).hits@.dom() == old(self).hits@.dom().insert(key@)
                &&& forall|k: Seq<char>| k != key@ && #[trigger] old(self).hits@.contains_key(k) ==> final(self).hits@[k] == old(
                    self,
                ).hits@[k]
                &&& final(self).hits@[key@]@ == if allowed { kept.push(now) } else { kept }
            }),
    {
        let ghost before = recorded(self.hits@, key@);
        let mut kept: Vec<u64> = Vec::new();
        match self.hits.get(key.as_str()) {
            Some(ts) => {
                assert(ts@ == before);
                let mut i: usize = 0;
                while i < ts.len()
                    invariant
                        0 <= i <= ts@.len(),
                        ts@ == before,
                        kept@ == recent(before.take(i as int), now, window),
                    decreases ts@.len() - i,
                {
                    assert(before.take(i + 1).drop_last() =~= before.take(i as int));
                    let t = ts[i];
                    let age = if now >= t { now - t } else { 0 };
                    if age < window {
                        kept.push(t);
                    }
                    i = i + 1;
                }
                assert(before.take(before.len() as int) =~= before);
            },
            None => {
                assert(before =~= Seq::<u64>::empty());
                assert(recent(before, now, window) =~= Seq::<u64>::empty());
            },
        }
        let allowed = kept.len() < max_requests;
        if allowed {
            kept.push(now);
        }
        let ghost old_hits = self.hits@;
        self.hits.insert(key, kept);
        assert(self.hits@.dom() =~= old_hits.dom().insert(key@));
        allowed
    }
}

proof fn lemma_recent(ts: Seq<u64>, now: u64, window: u64)
    ensures
        recent(ts, now, window).len() <= ts.len(),
        forall|i: int| 0 <= i < recent(ts, now, window).len() ==> within_window(#[trigger] recent(ts, now, window)[i], now, window),
    decreases ts.len(),
{
    if ts.len() > 0 {
        lemma_recent(ts.drop_last(), now, window);
        let prev = recent(ts.drop_last(), now, window);
        assert forall|i: int| 0 <= i < recent(ts, now, window).len() implies within_window(#[trigger] recent(ts, now, window)[i], now, window) by {
            if i < prev.len() {
                assert(recent(ts, now, window)[i] == prev[i]);
            }
        }
    }
}

/// A client never has more than `max_requests` requests on record in a bucket, and every
/// request on record after a check lies within the window: so no more than `max_requests`
/// requests are accepted in any window.
pub proof fn law_rate_limit_caps(ts: Seq<u64>, now: u64, window: u64, max_requests: int)
    requires
        ts.len() <= max_requests,
        window > 0,
    ensures
        ({
            let kept = recent(ts, now, window);
            let stored = if kept.len() < max_requests { kept.push(now) } else { kept };
            &&& stored.len() <= max_requests
            &&& forall|i: int| 0 <= i < stored.len() ==> within_window(#[trigger] stored[i], now, window)
        }),
{
    lemma_recent(ts, now, window);
    let kept = recent(ts, now, window);
    let stored = if kept.len() < max_requests { kept.push(now) } else { kept };
    assert forall|i: int| 0 <= i < stored.len() implies within_window(#[trigger] stored[i], now, window) by {
        if i < kept.len() {
            assert(stored[i] == kept[i]);
        }
    }
}

} // verus!

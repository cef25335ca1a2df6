//! GitHub data as the library sees it: contributors, stargazers pages and the
//! GraphQL reply, plus the decisions taken on each HTTP reply (retry, back
//! off, fail, or accept). The transport itself lives with the caller.

use vstd::prelude::*;

use vstd::string::StringSliceAdditionalSpecFns;

use crate::text::{
    chars_of, debug_quoted, debug_str, dec, lemma_pow2_pos, pow2, push_dec, push_str, str_eq,
    string_of_range,
};
use crate::timefmt::{parse_rfc3339, rfc3339_parse};
use crate::{is_api, is_usage, ScopeError};

verus! {

/// A repo contributor from the REST contributors endpoint.
#[derive(Debug, Clone)]
pub struct Contributor {
    pub login: Option<String>,
    pub avatar_url: Option<String>,
    pub contributions: u64,
    /// The account type (`"User"`, `"Bot"`, ...).
    pub kind: String,
}

impl Contributor {
    /// Whether the account is a bot.
    pub fn is_bot(&self) -> (r: bool)
        ensures
            r == (self.kind@ == "Bot"@),
    {
        str_eq(self.kind.as_str(), "Bot")
    }
}

/// One page of the stargazers connection.
#[derive(Debug, Clone)]
pub struct StarPage {
    pub total_count: u64,
    /// `starredAt` RFC 3339 timestamps in this page (chronological).
    pub starred_at: Vec<String>,
    pub has_next_page: bool,
    pub end_cursor: Option<String>,
    /// Rate-limit points remaining (when the API reports it).
    pub rate_remaining: Option<u64>,
}

/// Retries after the first attempt, for both REST and GraphQL requests.
pub const MAX_RETRIES: u32 = 5;
/// Cap on rate-limit sleeps per attempt so CI stays responsive.
pub const MAX_RATE_SLEEP_SECS: u64 = 600;

/// The REST path of one page of the contributors listing (100 per page).
pub fn contributors_path(repo: &str, page: u32) -> (r: String)
    ensures
        r@ == "/repos/"@ + repo@ + "/contributors?per_page=100&page="@ + dec(page as nat),
{
    let mut s = String::from_str("/repos/");
    s.append(repo);
    s.append("/contributors?per_page=100&page=");
    push_dec(&mut s, page as u64);
    s
}

/// `owner/name` split at its first `/`.
pub open spec fn repo_split(s: Seq<char>) -> Option<(Seq<char>, Seq<char>)> {
    if exists|p: int| 0 <= p < s.len() && s[p] == '/' {
        let p = choose|p: int|
            0 <= p < s.len() && s[p] == '/' && forall|q: int| 0 <= q < p ==> s[q] != '/';
        Some((s.take(p), s.skip(p + 1)))
    } else {
        None
    }
}

/// Split a repository into owner and name at its first `/`.
pub fn split_repo(repo: &str) -> (r: Result<(String, String), ScopeError>)
    ensures
        match repo_split(repo@) {
            Some((o, n)) => r matches Ok((ro, rn)) && ro@ == o && rn@ == n,
            None => r matches Err(e) && is_usage(e, "invalid repo "@ + debug_quoted(repo@)),
        },
{
    let cs = chars_of(repo);
    let mut i: usize = 0;
    while i < cs.len()
        invariant
            cs@ == repo@,
            i <= cs.len(),
            forall|q: int| 0 <= q < i ==> cs@[q] != '/',
        decreases cs.len() - i,
    {
        if cs[i] == '/' {
            let owner = string_of_range(cs.as_slice(), 0, i);
            let name = string_of_range(cs.as_slice(), i + 1, cs.len());
            proof {
                let p = choose|p: int|
                    0 <= p < cs@.len() && cs@[p] == '/' && forall|q: int| 0 <= q < p ==> cs@[q] != '/';
                if p < i {
                } else if p > i {
                    assert(cs@[i as int] != '/');
                }
                assert(cs@.subrange(0, i as int) == cs@.take(i as int));
                assert(cs@.subrange(i + 1, cs@.len() as int) == cs@.skip(i + 1));
            }
            return Ok((owner, name));
        }
        i += 1;
    }
    let mut m = String::from_str("invalid repo ");
    m.append(debug_str(repo).as_str());
    Err(ScopeError::Usage(m))
}

/// The numeric value of a run of decimal digits.
pub open spec fn digits_value(s: Seq<char>) -> int
    decreases s.len(),
{
    if s.len() == 0 {
        0
    } else {
        digits_value(s.drop_last()) * 10 + (s.last() as int - 48)
    }
}

/// Decimal digits only.
pub open spec fn all_digits(s: Seq<char>) -> bool {
    forall|i: int| 0 <= i < s.len() ==> '0' <= #[trigger] s[i] && s[i] <= '9'
}

/// What `str::parse::<u64>` accepts: an optional `+`, then at least one
/// decimal digit, with a value that fits in `u64`.
pub open spec fn parse_u64_spec(s: Seq<char>) -> Option<u64> {
    let d = if s.len() > 0 && s[0] == '+' {
        s.drop_first()
    } else {
        s
    };
    if d.len() > 0 && all_digits(d) && digits_value(d) <= u64::MAX {
        Some(digits_value(d) as u64)
    } else {
        None
    }
}

proof fn lemma_digits_value_prefix(s: Seq<char>, k: int)
    requires
        all_digits(s),
        0 <= k <= s.len(),
    ensures
        0 <= digits_value(s.take(k)) <= digits_value(s),
    decreases s.len(),
{
    if k == s.len() {
        assert(s.take(k) == s);
        lemma_digits_value_nonneg(s);
    } else {
        let p = s.drop_last();
        assert(p.take(k) == s.take(k));
        assert forall|i: int| 0 <= i < p.len() implies '0' <= #[trigger] p[i] && p[i] <= '9' by {
            assert(p[i] == s[i]);
        }
        lemma_digits_value_prefix(p, k);
        assert('0' <= s[s.len() - 1] && s[s.len() - 1] <= '9');
    }
}

proof fn lemma_digits_value_nonneg(s: Seq<char>)
    requires
        all_digits(s),
    ensures
        digits_value(s) >= 0,
    decreases s.len(),
{
    if s.len() > 0 {
        let p = s.drop_last();
        assert forall|i: int| 0 <= i < p.len() implies '0' <= #[trigger] p[i] && p[i] <= '9' by {
            assert(p[i] == s[i]);
        }
        lemma_digits_value_nonneg(p);
        assert('0' <= s[s.len() - 1] && s[s.len() - 1] <= '9');
    }
}

/// Parse an unsigned decimal (`str::parse::<u64>` rules).
pub fn parse_u64(s: &str) -> (r: Option<u64>)
    ensures
        r == parse_u64_spec(s@),
{
    let cs = chars_of(s);
    let start: usize = if cs.len() > 0 && cs[0] == '+' {
        1
    } else {
        0
    };
    let ghost d = if s@.len() > 0 && s@[0] == '+' {
        s@.drop_first()
    } else {
        s@
    };
    assert(d == cs@.skip(start as int));
    if start >= cs.len() {
        assert(d.len() == 0);
        return None;
    }
    let mut v: u64 = 0;
    let mut i: usize = start;
    while i < cs.len()
        invariant
            cs@ == s@,
            start <= i <= cs.len(),
            d == cs@.skip(start as int),
            d == (if s@.len() > 0 && s@[0] == '+' {
                s@.drop_first()
            } else {
                s@
            }),
            all_digits(cs@.subrange(start as int, i as int)),
            v == digits_value(cs@.subrange(start as int, i as int)),
        decreases cs.len() - i,
    {
        let c = cs[i];
        let ghost pre = cs@.subrange(start as int, i as int);
        let ghost next = cs@.subrange(start as int, i + 1);
        assert(next.drop_last() == pre);
        assert(next.last() == c);
        if !('0' <= c && c <= '9') {
            assert(d[i - start] == c);
            assert(!all_digits(d));
            return None;
        }
        let digit = (c as u64) - 48;
        if v > (u64::MAX - digit) / 10 {
            proof {
                assert forall|j: int| 0 <= j < next.len() implies '0' <= #[trigger] next[j] && next[j]
                    <= '9' by {
                    if j < pre.len() {
                        assert(next[j] == pre[j]);
                    }
                }
                assert(digits_value(next) > u64::MAX) by (nonlinear_arith)
                    requires
                        v > (u64::MAX - digit) / 10,
                        digits_value(next) == v * 10 + digit,
                        0 <= digit <= 9,
                ;
                if all_digits(d) {
                    assert(next == d.take(i + 1 - start));
                    lemma_digits_value_prefix(d, i + 1 - start);
                }
            }
            return None;
        }
        v = v * 10 + digit;
        assert forall|j: int| 0 <= j < next.len() implies '0' <= #[trigger] next[j] && next[j]
            <= '9' by {
            if j < pre.len() {
                assert(next[j] == pre[j]);
            }
        }
        i += 1;
    }
    assert(cs@.subrange(start as int, cs@.len() as int) == d);
    Some(v)
}

/// The exponential backoff before retry number `attempt`: `base * 2^(attempt-1)` ms.
pub open spec fn backoff_ms(base: u64, attempt: u32) -> int {
    base * pow2((attempt - 1) as nat)
}

/// The pause before a retry, in milliseconds: the server's `Retry-After`
/// seconds (capped at 10 minutes) when it parses, else the exponential backoff.
pub open spec fn retry_delay_ms(retry_after: Option<Seq<char>>, attempt: u32, base: u64) -> int {
    let hinted = match retry_after {
        Some(h) => parse_u64_spec(h),
        None => None,
    };
    match hinted {
        Some(secs) => (if secs > MAX_RATE_SLEEP_SECS {
            MAX_RATE_SLEEP_SECS as int
        } else {
            secs as int
        }) * 1000,
        None => backoff_ms(base, attempt),
    }
}

/// The pause before retry number `attempt` (computes the backoff as the
/// transport does, even when a hint is present).
pub fn retry_delay(retry_after: Option<&str>, attempt: u32, backoff_base_ms: u64) -> (r: u64)
    requires
        1 <= attempt <= MAX_RETRIES,
        backoff_ms(backoff_base_ms, attempt) <= u64::MAX,
    ensures
        r == retry_delay_ms(
            match retry_after {
                Some(h) => Some(h@),
                None => None,
            },
            attempt,
            backoff_base_ms,
        ),
{
    let mut p: u64 = 1;
    let mut k: u32 = 1;
    while k < attempt
        invariant
            1 <= k <= attempt <= MAX_RETRIES,
            p == pow2((k - 1) as nat),
            (k == 1 && p == 1) || (k == 2 && p == 2) || (k == 3 && p == 4) || (k == 4 && p == 8) || (k
                == 5 && p == 16),
        decreases attempt - k,
    {
        p = p * 2;
        k += 1;
    }
    proof {
        assert(p >= 1) by {
            lemma_pow2_pos((attempt - 1) as nat);
        }
        assert(backoff_base_ms * p <= u64::MAX);
    }
    let backoff = backoff_base_ms * p;
    let hinted = match retry_after {
        Some(h) => parse_u64(h),
        None => None,
    };
    match hinted {
        Some(secs) => {
            let capped = if secs > MAX_RATE_SLEEP_SECS {
                MAX_RATE_SLEEP_SECS
            } else {
                secs
            };
            capped * 1000
        },
        None => backoff,
    }
}

/// `200..=299`.
pub open spec fn is_success(status: u16) -> bool {
    200 <= status <= 299
}

/// `500..=599`.
pub open spec fn is_server_error(status: u16) -> bool {
    500 <= status <= 599
}

/// A value an HTTP header can carry: every character a tab, or at least a
/// space and not DEL (characters above U+007F encode to bytes above 0x7f).
pub open spec fn header_value_ok(s: Seq<char>) -> bool {
    forall|i: int|
        0 <= i < s.len() ==> #[trigger] s[i] == '\t' || (s[i] as int >= 32 && s[i] as int != 127)
}

/// `reqwest::header::HeaderValue::from_str(s).is_ok()`: `http` accepts a value
/// whose every byte is a tab or at least 32 and not 127.
#[verifier::external_body]
fn header_value_accepted(s: &str) -> (r: bool)
    ensures
        r == header_value_ok(s@),
{
    reqwest::header::HeaderValue::from_str(s).is_ok()
}

/// The `Authorization` header value for a token: `Bearer <token>`, or a usage
/// error when a header cannot carry it.
pub fn authorization_value(token: &str) -> (r: Result<String, ScopeError>)
    ensures
        header_value_ok("Bearer "@ + token@) ==> (r matches Ok(v) && v@ == "Bearer "@ + token@),
        !header_value_ok("Bearer "@ + token@) ==> (r matches Err(e) && is_usage(
            e,
            "token contains invalid characters"@,
        )),
{
    let mut v = String::from_str("Bearer ");
    v.append(token);
    if header_value_accepted(v.as_str()) {
        Ok(v)
    } else {
        Err(ScopeError::Usage(String::from_str("token contains invalid characters")))
    }
}

/// What to do after a request got no reply at all (connection refused or
/// reset, time-out).
#[derive(Debug)]
pub enum TransportStep {
    /// Pause this many milliseconds, then send the request again.
    Retry(u64),
    /// Give up with this error.
    Fail(ScopeError),
}

/// The decision after a transport failure of the request `label` (such as
/// `GET /repos/o/r/contributors?..` or `POST /graphql`) with error text
/// `detail`, where `attempt` counts this retry among all retries of the
/// request: back off exponentially while retries remain, else fail with
/// `label: detail`.
pub fn transport_step(label: &str, detail: &str, attempt: u32, backoff_base_ms: u64) -> (r:
    TransportStep)
    requires
        1 <= attempt,
        attempt <= MAX_RETRIES ==> backoff_ms(backoff_base_ms, attempt) <= u64::MAX,
    ensures
        attempt <= MAX_RETRIES ==> r == TransportStep::Retry(backoff_ms(backoff_base_ms, attempt) as u64),
        attempt > MAX_RETRIES ==> (r matches TransportStep::Fail(e) && is_api(
            e,
            label@ + ": "@ + detail@,
        )),
{
    if attempt <= MAX_RETRIES {
        TransportStep::Retry(retry_delay(None, attempt, backoff_base_ms))
    } else {
        let mut m = String::from_str(label);
        m.append(": ");
        m.append(detail);
        TransportStep::Fail(ScopeError::Api(m))
    }
}

/// What to do with a REST reply.
#[derive(Debug)]
pub enum RestStep {
    /// Success: read the body.
    Accept,
    /// Give up with this error.
    Fail(ScopeError),
    /// Give up after this many attempts, reporting the body.
    FailWithBody(u32),
    /// Sleep this many milliseconds, then retry (attempts so far given).
    Retry(u32, u64),
}

/// The not-found error for an inaccessible repository.
pub open spec fn not_found_msg() -> Seq<char> {
    "repository not found (or token lacks access)"@
}

/// The decision on a REST reply with `status`, after `attempt` failed attempts:
/// success is accepted; 404 fails at once; 403, 429 and 5xx are retried with
/// backoff up to 5 times; anything else fails with its body.
pub fn rest_step(status: u16, attempt: u32, retry_after: Option<&str>, backoff_base_ms: u64) -> (r:
    RestStep)
    requires
        attempt < u32::MAX,
        !is_success(status) && status != 404 && (status == 403 || status == 429 || is_server_error(
            status,
        )) && attempt + 1 <= MAX_RETRIES ==> backoff_ms(backoff_base_ms, (attempt + 1) as u32)
            <= u64::MAX,
    ensures
        is_success(status) ==> r is Accept,
        !is_success(status) && status == 404 ==> (r matches RestStep::Fail(e) && is_api(
            e,
            not_found_msg(),
        )),
        !is_success(status) && status != 404 ==> {
            let a = (attempt + 1) as u32;
            let retriable = status == 403 || status == 429 || is_server_error(status);
            if !retriable || a > MAX_RETRIES {
                r == RestStep::FailWithBody(a)
            } else {
                r == RestStep::Retry(
                    a,
                    retry_delay_ms(
                        match retry_after {
                            Some(h) => Some(h@),
                            None => None,
                        },
                        a,
                        backoff_base_ms,
                    ) as u64,
                )
            }
        },
{
    if 200 <= status && status <= 299 {
        return RestStep::Accept;
    }
    if status == 404 {
        return RestStep::Fail(
            ScopeError::Api(String::from_str("repository not found (or token lacks access)")),
        );
    }
    let a = attempt + 1;
    let retriable = status == 403 || status == 429 || (500 <= status && status <= 599);
    if !retriable || a > MAX_RETRIES {
        return RestStep::FailWithBody(a);
    }
    RestStep::Retry(a, retry_delay(retry_after, a, backoff_base_ms))
}

/// The number of bytes `c` takes in UTF-8.
pub open spec fn utf8_len(c: char) -> int {
    let v = c as int;
    if v < 0x80 {
        1
    } else if v < 0x800 {
        2
    } else if v < 0x10000 {
        3
    } else {
        4
    }
}

/// The number of bytes `s` takes in UTF-8.
pub open spec fn utf8_size(s: Seq<char>) -> int
    decreases s.len(),
{
    if s.len() == 0 {
        0
    } else {
        utf8_size(s.drop_last()) + utf8_len(s.last())
    }
}

/// `x` is the excerpt of `body` reported in errors: the longest run of its
/// leading characters that fits in 200 bytes of UTF-8 (so the cut falls at the
/// last character boundary at or before byte 200).
pub open spec fn is_excerpt(x: Seq<char>, body: Seq<char>) -> bool {
    &&& x.len() <= body.len()
    &&& x == body.take(x.len() as int)
    &&& utf8_size(x) <= 200
    &&& x.len() < body.len() ==> utf8_size(body.take(x.len() + 1int)) > 200
}

/// The bytes `c` takes in UTF-8.
fn char_utf8_len(c: char) -> (n: u32)
    ensures
        n == utf8_len(c),
{
    let v = c as u32;
    if v < 0x80 {
        1
    } else if v < 0x800 {
        2
    } else if v < 0x10000 {
        3
    } else {
        4
    }
}

/// The start of a reply body quoted in errors: as many leading characters as
/// fit in 200 bytes.
pub fn body_excerpt(body: &str) -> (r: String)
    ensures
        is_excerpt(r@, body@),
{
    let cs = chars_of(body);
    let mut i: usize = 0;
    let mut size: u32 = 0;
    while i < cs.len()
        invariant
            cs@ == body@,
            i <= cs.len(),
            size <= 200,
            size == utf8_size(cs@.take(i as int)),
        ensures
            cs@ == body@,
            i <= cs.len(),
            size <= 200,
            size == utf8_size(cs@.take(i as int)),
            i < cs.len() ==> utf8_size(cs@.take(i + 1)) > 200,
        decreases cs.len() - i,
    {
        let n = char_utf8_len(cs[i]);
        assert(cs@.take(i + 1).drop_last() == cs@.take(i as int));
        if size + n > 200 {
            break;
        }
        size = size + n;
        i += 1;
    }
    let r = string_of_range(cs.as_slice(), 0, i);
    assert(cs@.subrange(0, i as int) == cs@.take(i as int));
    r
}

/// The error for a REST request that failed for good.
pub fn rest_failure(path: &str, status_text: &str, attempt: u32, body: &str) -> (e: ScopeError)
    ensures
        e matches ScopeError::Api(m) && exists|x: Seq<char>|
            is_excerpt(x, body@) && m@ == "GET "@ + path@ + ": HTTP "@ + status_text@ + " after "@
                + dec(attempt as nat) + " attempt(s): "@ + x,
{
    let x = body_excerpt(body);
    let mut m = String::from_str("GET ");
    m.append(path);
    m.append(": HTTP ");
    m.append(status_text);
    m.append(" after ");
    push_dec(&mut m, attempt as u64);
    m.append(" attempt(s): ");
    m.append(x.as_str());
    assert(is_excerpt(x@, body@));
    ScopeError::Api(m)
}

/// The error for a download answered with a non-success status.
pub fn fetch_status_error(url: &str, status_text: &str) -> (e: ScopeError)
    ensures
        is_api(e, "GET "@ + url@ + ": HTTP "@ + status_text@),
{
    let mut m = String::from_str("GET ");
    m.append(url);
    m.append(": HTTP ");
    m.append(status_text);
    ScopeError::Api(m)
}

/// Unicode white space (`char::is_whitespace`, the `White_Space` property).
pub open spec fn is_ws(c: char) -> bool {
    let v = c as int;
    (0x09 <= v <= 0x0d) || v == 0x20 || v == 0x85 || v == 0xa0 || v == 0x1680 || (0x2000 <= v
        <= 0x200a) || v == 0x2028 || v == 0x2029 || v == 0x202f || v == 0x205f || v == 0x3000
}

/// `s` without surrounding white space (`str::trim`).
pub open spec fn trim_ws(s: Seq<char>) -> Seq<char>
    decreases s.len(),
{
    if s.len() > 0 && is_ws(s[0]) {
        trim_ws(s.drop_first())
    } else if s.len() > 0 && is_ws(s.last()) {
        trim_ws(s.drop_last())
    } else {
        s
    }
}

/// The part of `s` before its first `c` (all of `s` without one).
pub open spec fn before_char(s: Seq<char>, c: char) -> Seq<char>
    decreases s.len(),
{
    if s.len() == 0 {
        s
    } else if s[0] == c {
        seq![]
    } else {
        seq![s[0]] + before_char(s.drop_first(), c)
    }
}

/// The media type of a downloaded avatar: the `Content-Type` value before any
/// `;` parameters, trimmed, if it is an `image/...` type; else `image/png`.
pub open spec fn avatar_mime_spec(content_type: Option<Seq<char>>) -> Seq<char> {
    match content_type {
        Some(v) => {
            let t = trim_ws(before_char(v, ';'));
            if t.len() >= "image/"@.len() && t.take("image/"@.len() as int) == "image/"@ {
                t
            } else {
                "image/png"@
            }
        },
        None => "image/png"@,
    }
}

fn is_ws_exec(c: char) -> (b: bool)
    ensures
        b == is_ws(c),
{
    let v = c as u32;
    (0x09 <= v && v <= 0x0d) || v == 0x20 || v == 0x85 || v == 0xa0 || v == 0x1680 || (0x2000 <= v
        && v <= 0x200a) || v == 0x2028 || v == 0x2029 || v == 0x202f || v == 0x205f || v == 0x3000
}

proof fn lemma_before_char_prefix(s: Seq<char>, c: char, i: int)
    requires
        0 <= i <= s.len(),
        forall|q: int| 0 <= q < i ==> s[q] != c,
        i == s.len() || s[i] == c,
    ensures
        before_char(s, c) == s.take(i),
    decreases s.len(),
{
    if s.len() > 0 && i > 0 {
        lemma_before_char_prefix(s.drop_first(), c, i - 1);
        assert(seq![s[0]] + s.drop_first().take(i - 1) == s.take(i));
    } else if i == 0 {
        assert(s.take(0) == Seq::<char>::empty());
    }
}

proof fn lemma_trim_ws_range(s: Seq<char>, a: int, b: int)
    requires
        0 <= a <= b <= s.len(),
        forall|q: int| 0 <= q < a ==> is_ws(#[trigger] s[q]),
        forall|q: int| b <= q < s.len() ==> is_ws(#[trigger] s[q]),
        a < b ==> !is_ws(s[a]) && !is_ws(s[b - 1]),
    ensures
        trim_ws(s) == s.subrange(a, b),
    decreases s.len(),
{
    if a > 0 {
        let t = s.drop_first();
        assert forall|q: int| 0 <= q < a - 1 implies is_ws(#[trigger] t[q]) by {
            assert(t[q] == s[q + 1]);
        }
        assert forall|q: int| b - 1 <= q < t.len() implies is_ws(#[trigger] t[q]) by {
            assert(t[q] == s[q + 1]);
        }
        lemma_trim_ws_range(t, a - 1, b - 1);
        assert(t.subrange(a - 1, b - 1) == s.subrange(a, b));
        assert(is_ws(s[0]));
    } else if b < s.len() {
        let t = s.drop_last();
        assert forall|q: int| b <= q < t.len() implies is_ws(#[trigger] t[q]) by {
            assert(t[q] == s[q]);
        }
        lemma_trim_ws_range(t, a, b);
        assert(t.subrange(a, b) == s.subrange(a, b));
        assert(is_ws(s[s.len() - 1]));
        if s.len() > 0 && a < b {
            assert(!is_ws(s[0]));
        } else if s.len() > 0 {
            if is_ws(s[0]) {
                let u = s.drop_first();
                assert forall|q: int| 0 <= q < u.len() implies is_ws(#[trigger] u[q]) by {
                    assert(u[q] == s[q + 1]);
                }
                lemma_trim_ws_all(u);
                lemma_trim_ws_all(t);
                assert(s.subrange(a, b) == Seq::<char>::empty());
            }
        }
    } else {
        assert(s.subrange(a, b) == s);
        if a < b {
        } else {
            assert(s.len() == 0);
        }
    }
}

proof fn lemma_trim_ws_all(s: Seq<char>)
    requires
        forall|q: int| 0 <= q < s.len() ==> is_ws(#[trigger] s[q]),
    ensures
        trim_ws(s) == Seq::<char>::empty(),
    decreases s.len(),
{
    if s.len() > 0 {
        let u = s.drop_first();
        assert forall|q: int| 0 <= q < u.len() implies is_ws(#[trigger] u[q]) by {
            assert(u[q] == s[q + 1]);
        }
        lemma_trim_ws_all(u);
        assert(is_ws(s[0]));
    } else {
        assert(s == Seq::<char>::empty());
    }
}

/// The media type of a downloaded avatar from its `Content-Type` header.
pub fn avatar_mime(content_type: Option<&str>) -> (r: String)
    ensures
        r@ == avatar_mime_spec(
            match content_type {
                Some(v) => Some(v@),
                None => None,
            },
        ),
{
    let v = match content_type {
        Some(v) => v,
        None => {
            return String::from_str("image/png");
        },
    };
    let cs = chars_of(v);
    let mut end: usize = 0;
    while end < cs.len() && cs[end] != ';'
        invariant
            end <= cs.len(),
            forall|q: int| 0 <= q < end ==> cs@[q] != ';',
        decreases cs.len() - end,
    {
        end += 1;
    }
    proof {
        lemma_before_char_prefix(cs@, ';', end as int);
    }
    let ghost head = cs@.take(end as int);
    let mut a: usize = 0;
    while a < end && is_ws_exec(cs[a])
        invariant
            a <= end <= cs.len(),
            forall|q: int| 0 <= q < a ==> is_ws(#[trigger] cs@[q]),
        decreases end - a,
    {
        a += 1;
    }
    let mut b: usize = end;
    while b > a && is_ws_exec(cs[b - 1])
        invariant
            a <= b <= end <= cs.len(),
            forall|q: int| b <= q < end ==> is_ws(#[trigger] cs@[q]),
        decreases b,
    {
        b -= 1;
    }
    proof {
        assert forall|q: int| 0 <= q < a implies is_ws(#[trigger] head[q]) by {
            assert(head[q] == cs@[q]);
        }
        assert forall|q: int| b <= q < head.len() implies is_ws(#[trigger] head[q]) by {
            assert(head[q] == cs@[q]);
        }
        if a < b {
            assert(head[a as int] == cs@[a as int]);
            assert(head[b - 1] == cs@[b - 1]);
        }
        lemma_trim_ws_range(head, a as int, b as int);
        assert(head.subrange(a as int, b as int) == cs@.subrange(a as int, b as int));
    }
    let t = string_of_range(cs.as_slice(), a, b);
    assert(t@ == trim_ws(before_char(v@, ';')));
    let p = chars_of("image/");
    let tc = chars_of(t.as_str());
    let mut ok = tc.len() >= p.len();
    let mut i: usize = 0;
    while ok && i < p.len()
        invariant
            tc.len() >= p.len() ==> true,
            ok ==> tc.len() >= p.len(),
            i <= p.len(),
            ok ==> forall|q: int| 0 <= q < i ==> tc@[q] == p@[q],
            !ok ==> !(tc@.len() >= p@.len() && tc@.take(p@.len() as int) == p@),
        decreases p.len() - i,
    {
        if tc[i] != p[i] {
            ok = false;
            assert(tc@.take(p@.len() as int)[i as int] == tc@[i as int]);
        }
        i += 1;
    }
    if ok {
        assert(tc@.take(p@.len() as int) == p@);
        t
    } else {
        String::from_str("image/png")
    }
}

/// What to do with a GraphQL reply status.
#[derive(Debug)]
pub enum GqlHttpStep {
    /// Read and decode the body.
    Proceed,
    /// Sleep this many milliseconds, then retry.
    Retry(u64),
    /// Give up with this error.
    Fail(ScopeError),
}

/// The decision on a GraphQL reply status for attempt number `attempt`
/// (counting this one): 5xx and 429 are retried with backoff up to 5 times;
/// anything else goes on to the body.
pub fn graphql_status_step(
    status: u16,
    status_text: &str,
    attempt: u32,
    retry_after: Option<&str>,
    backoff_base_ms: u64,
) -> (r: GqlHttpStep)
    requires
        1 <= attempt,
        (is_server_error(status) || status == 429) && attempt <= MAX_RETRIES ==> backoff_ms(
            backoff_base_ms,
            attempt,
        ) <= u64::MAX,
    ensures
        !(is_server_error(status) || status == 429) ==> r is Proceed,
        (is_server_error(status) || status == 429) && attempt > MAX_RETRIES ==> (r matches GqlHttpStep::Fail(
            e,
        ) && is_api(e, "POST /graphql: HTTP "@ + status_text@ + " after 5 retries"@)),
        (is_server_error(status) || status == 429) && attempt <= MAX_RETRIES ==> r
            == GqlHttpStep::Retry(
            retry_delay_ms(
                match retry_after {
                    Some(h) => Some(h@),
                    None => None,
                },
                attempt,
                backoff_base_ms,
            ) as u64,
        ),
{
    if (500 <= status && status <= 599) || status == 429 {
        if attempt > MAX_RETRIES {
            let mut m = String::from_str("POST /graphql: HTTP ");
            m.append(status_text);
            m.append(" after 5 retries");
            return GqlHttpStep::Fail(ScopeError::Api(m));
        }
        return GqlHttpStep::Retry(retry_delay(retry_after, attempt, backoff_base_ms));
    }
    GqlHttpStep::Proceed
}

/// The error for a GraphQL reply with a non-success status.
pub fn graphql_body_failure(status_text: &str, body: &str) -> (e: ScopeError)
    ensures
        e matches ScopeError::Api(m) && exists|x: Seq<char>|
            is_excerpt(x, body@) && m@ == "POST /graphql: HTTP "@ + status_text@ + ": "@ + x,
{
    let x = body_excerpt(body);
    let mut m = String::from_str("POST /graphql: HTTP ");
    m.append(status_text);
    m.append(": ");
    m.append(x.as_str());
    assert(is_excerpt(x@, body@));
    ScopeError::Api(m)
}

/// A GraphQL reply to the stargazers query.
#[derive(Debug)]
pub struct GqlResponse {
    pub data: Option<GqlData>,
    pub errors: Option<Vec<GqlError>>,
}

/// The `data` member of a GraphQL reply.
#[derive(Debug)]
pub struct GqlData {
    pub repository: Option<GqlRepo>,
    pub rate_limit: Option<GqlRateLimit>,
}

/// The repository of a GraphQL reply.
#[derive(Debug)]
pub struct GqlRepo {
    pub stargazers: GqlStars,
}

/// The stargazers connection of a GraphQL reply.
#[derive(Debug)]
pub struct GqlStars {
    pub total_count: u64,
    pub page_info: GqlPageInfo,
    pub edges: Vec<GqlEdge>,
}

/// Pagination state of a connection.
#[derive(Debug)]
pub struct GqlPageInfo {
    pub has_next_page: bool,
    pub end_cursor: Option<String>,
}

/// One stargazer edge.
#[derive(Debug)]
pub struct GqlEdge {
    pub starred_at: String,
}

/// One GraphQL error.
#[derive(Debug)]
pub struct GqlError {
    pub message: String,
    pub kind: Option<String>,
}

/// The rate-limit status reported with a reply.
#[derive(Debug)]
pub struct GqlRateLimit {
    pub remaining: u64,
    pub reset_at: String,
}

/// What to do with a decoded GraphQL reply.
#[derive(Debug)]
pub enum GqlDecision {
    /// The page of stargazers the reply holds.
    Page(StarPage),
    /// Rate limited: sleep this many seconds, then retry.
    Sleep(u64),
    /// Give up with this error.
    Fail(ScopeError),
}

/// A rate-limit error (type `RATE_LIMITED`).
pub open spec fn is_rate_limit_error(e: GqlError) -> bool {
    e.kind matches Some(k) && k@ == "RATE_LIMITED"@
}

/// Whether some error of the reply is a rate-limit error.
pub open spec fn rate_limited(errs: Seq<GqlError>) -> bool {
    exists|i: int| 0 <= i < errs.len() && #[trigger] is_rate_limit_error(errs[i])
}

/// Seconds until the rate limit resets, by the reply's `resetAt` and the
/// current time `now`: at least 1, or 30 when the reply gives no usable time.
pub open spec fn reset_wait_secs(data: Option<GqlData>, now: u64) -> int {
    let reset = match data {
        Some(d) => match d.rate_limit {
            Some(rl) => match rfc3339_parse(rl.reset_at@) {
                Ok(t) => Some(if t > 0 {
                    t as int
                } else {
                    0
                }),
                Err(_) => None,
            },
            None => None,
        },
        None => None,
    };
    match reset {
        Some(t) => if t - now > 1 {
            t - now
        } else {
            1
        },
        None => 30,
    }
}

/// The page a well-formed reply describes.
pub open spec fn page_of(st: GqlStars, rate: Option<GqlRateLimit>, page: StarPage) -> bool {
    &&& page.total_count == st.total_count
    &&& page.starred_at@.len() == st.edges@.len()
    &&& forall|i: int|
        0 <= i < st.edges@.len() ==> #[trigger] page.starred_at@[i] == st.edges@[i].starred_at
    &&& page.has_next_page == st.page_info.has_next_page
    &&& page.end_cursor == st.page_info.end_cursor
    &&& page.rate_remaining == match rate {
        Some(r) => Some(r.remaining),
        None => None,
    }
}

/// The decision on a decoded reply for attempt number `attempt`: reported
/// errors fail with the first message, except rate-limit errors, which wait
/// (at most 10 minutes) while retries remain; a reply without data or without
/// the repository fails; else the reply is the page.
pub fn graphql_decision(gql: GqlResponse, attempt: u32, now: u64) -> (r: GqlDecision)
    ensures
        match gql.errors {
            Some(errs) if errs@.len() > 0 => if rate_limited(errs@) && attempt <= MAX_RETRIES {
                r == GqlDecision::Sleep(
                    (if reset_wait_secs(gql.data, now) > MAX_RATE_SLEEP_SECS {
                        MAX_RATE_SLEEP_SECS as int
                    } else {
                        reset_wait_secs(gql.data, now)
                    }) as u64,
                )
            } else {
                r matches GqlDecision::Fail(e) && is_api(e, errs@[0].message@)
            },
            _ => match gql.data {
                None => r matches GqlDecision::Fail(e) && is_api(e, "POST /graphql: empty data"@),
                Some(d) => match d.repository {
                    None => r matches GqlDecision::Fail(e) && is_api(e, not_found_msg()),
                    Some(repo) => r matches GqlDecision::Page(p) && page_of(
                        repo.stargazers,
                        d.rate_limit,
                        p,
                    ),
                },
            },
        },
{
    let GqlResponse { data, errors } = gql;
    match errors {
        Some(errs) => {
            if errs.len() > 0 {
                let mut limited = false;
                let mut i: usize = 0;
                while i < errs.len()
                    invariant
                        i <= errs@.len(),
                        limited == exists|j: int| 0 <= j < i && #[trigger] is_rate_limit_error(errs@[j]),
                    decreases errs.len() - i,
                {
                    let hit = match &errs[i].kind {
                        Some(k) => str_eq(k.as_str(), "RATE_LIMITED"),
                        None => false,
                    };
                    assert(hit == is_rate_limit_error(errs@[i as int]));
                    if hit {
                        limited = true;
                    }
                    i += 1;
                }
                if limited && attempt <= MAX_RETRIES {
                    let reset_at = match &data {
                        Some(d) => match &d.rate_limit {
                            Some(rl) => match parse_rfc3339(rl.reset_at.as_str()) {
                                Ok(t) => Some(t),
                                Err(_) => None,
                            },
                            None => None,
                        },
                        None => None,
                    };
                    let wait: u64 = match reset_at {
                        Some(t) => {
                            let t = if t > 0 {
                                t as u64
                            } else {
                                0
                            };
                            let left = if t > now {
                                t - now
                            } else {
                                0
                            };
                            if left > 1 {
                                left
                            } else {
                                1
                            }
                        },
                        None => 30,
                    };
                    let capped = if wait > MAX_RATE_SLEEP_SECS {
                        MAX_RATE_SLEEP_SECS
                    } else {
                        wait
                    };
                    return GqlDecision::Sleep(capped);
                }
                let msg = errs[0].message.clone();
                return GqlDecision::Fail(ScopeError::Api(msg));
            }
        },
        None => {},
    }
    let d = match data {
        Some(d) => d,
        None => {
            return GqlDecision::Fail(ScopeError::Api(String::from_str("POST /graphql: empty data")));
        },
    };
    let GqlData { repository, rate_limit } = d;
    let repo = match repository {
        Some(repo) => repo,
        None => {
            return GqlDecision::Fail(
                ScopeError::Api(String::from_str("repository not found (or token lacks access)")),
            );
        },
    };
    let GqlStars { total_count, page_info, edges } = repo.stargazers;
    let ghost all = edges@;
    let mut starred_at: Vec<String> = Vec::new();
    for e in it: edges.into_iter()
        invariant
            it.seq() == all,
            starred_at@.len() == it.index(),
            forall|j: int| 0 <= j < it.index() ==> #[trigger] starred_at@[j] == all[j].starred_at,
    {
        starred_at.push(e.starred_at);
    }
    let rate_remaining = match rate_limit {
        Some(r) => Some(r.remaining),
        None => None,
    };
    GqlDecision::Page(
        StarPage {
            total_count,
            starred_at,
            has_next_page: page_info.has_next_page,
            end_cursor: page_info.end_cursor,
            rate_remaining,
        },
    )
}

} // verus!

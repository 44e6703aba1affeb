//! Recognition over HTTP: what to retry and when, and what a server answers.

use std::time::{Duration, SystemTime};
use vstd::arithmetic::power2;
use vstd::prelude::*;
use vstd::string::*;
use crate::ocr_merge::{Corner, OcrResult, PixelBox, Quad};
use crate::text;
use crate::types;

verus! {

// ---------------------------------------------------------------------------
// Answers of a server
// ---------------------------------------------------------------------------

/// A detected text in the standard answer.
#[derive(Clone, Debug)]
pub struct HttpOcrResponseItem {
    pub text: String,
    pub bbox: PixelBox,
    pub confidence: i32,
    pub polygon: Option<Quad>,
}

/// A detected text in the answer of a recognition worker: corners, text and
/// confidence.
#[derive(Clone, Debug)]
pub struct ProdOcrItem {
    pub corners: Vec<Corner>,
    pub text: String,
    pub confidence: i32,
}

/// An answer of a server.
#[derive(Clone, Debug)]
pub enum HttpOcrResponse {
    Standard { results: Vec<HttpOcrResponseItem> },
    Prod { result: Vec<ProdOcrItem> },
}

/// The contents of an `OcrResult`.
#[verifier::ext_equal]
pub struct ResultView {
    pub text: Seq<char>,
    pub bbox: PixelBox,
    pub polygon: Option<Quad>,
    pub confidence: int,
}

impl View for OcrResult {
    type V = ResultView;

    open spec fn view(&self) -> ResultView {
        ResultView {
            text: self.text@,
            bbox: self.bbox,
            polygon: self.polygon,
            confidence: self.confidence as int,
        }
    }
}

/// The contents of detected texts.
pub open spec fn result_views(v: Seq<OcrResult>) -> Seq<ResultView> {
    Seq::new(v.len(), |i: int| v[i]@)
}

/// The edges of the box around the first `n` corners. Where there are none, the
/// edges are as far out as can be, in the wrong order.
pub open spec fn extent_upto(corners: Seq<Corner>, n: int) -> PixelBox
    decreases n,
{
    if n <= 0 {
        PixelBox { left: i32::MAX, top: i32::MAX, right: i32::MIN, bottom: i32::MIN }
    } else {
        let b = extent_upto(corners, n - 1);
        let c = corners[n - 1];
        PixelBox {
            left: types::min_of(b.left as int, c.x as int) as i32,
            top: types::min_of(b.top as int, c.y as int) as i32,
            right: types::max_of(b.right as int, c.x as int) as i32,
            bottom: types::max_of(b.bottom as int, c.y as int) as i32,
        }
    }
}

/// The detected text of a standard item.
pub open spec fn standard_result(i: HttpOcrResponseItem) -> ResultView {
    ResultView {
        text: i.text@,
        bbox: i.bbox,
        polygon: i.polygon,
        confidence: i.confidence as int,
    }
}

/// The detected text of a worker's item: with the box around its corners, and the
/// corners themselves where there are four.
pub open spec fn worker_result(i: ProdOcrItem) -> ResultView {
    ResultView {
        text: i.text@,
        bbox: extent_upto(i.corners@, i.corners@.len() as int),
        polygon: if i.corners@.len() == 4 {
            Some(Quad { a: i.corners@[0], b: i.corners@[1], c: i.corners@[2], d: i.corners@[3] })
        } else {
            None
        },
        confidence: i.confidence as int,
    }
}

/// The detected texts of an answer.
pub open spec fn answer_results(r: HttpOcrResponse) -> Seq<ResultView> {
    match r {
        HttpOcrResponse::Standard { results } => Seq::new(
            results@.len(),
            |i: int| standard_result(results@[i]),
        ),
        HttpOcrResponse::Prod { result } => Seq::new(
            result@.len(),
            |i: int| worker_result(result@[i]),
        ),
    }
}

fn smaller(a: i32, b: i32) -> (r: i32)
    ensures
        r == types::min_of(a as int, b as int),
{
    if a <= b {
        a
    } else {
        b
    }
}

fn larger(a: i32, b: i32) -> (r: i32)
    ensures
        r == types::max_of(a as int, b as int),
{
    if a >= b {
        a
    } else {
        b
    }
}

impl HttpOcrResponseItem {
    /// The detected text of a standard item.
    pub fn into_ocr_result(&self) -> (r: OcrResult)
        ensures
            r@ == standard_result(*self),
    {
        OcrResult {
            text: self.text.clone(),
            bbox: self.bbox,
            polygon: self.polygon,
            confidence: self.confidence,
        }
    }
}

impl ProdOcrItem {
    /// The detected text of a worker's item.
    pub fn into_ocr_result(&self) -> (r: OcrResult)
        ensures
            r@ == worker_result(*self),
    {
        let cs: &Vec<Corner> = &self.corners;
        let mut b: PixelBox = PixelBox {
            left: i32::MAX,
            top: i32::MAX,
            right: i32::MIN,
            bottom: i32::MIN,
        };
        let mut i: usize = 0;
        while i < cs.len()
            invariant
                i <= cs@.len(),
                b == extent_upto(cs@, i as int),
            decreases cs.len() - i,
        {
            b = PixelBox {
                left: smaller(b.left, cs[i].x),
                top: smaller(b.top, cs[i].y),
                right: larger(b.right, cs[i].x),
                bottom: larger(b.bottom, cs[i].y),
            };
            i = i + 1;
        }
        let polygon: Option<Quad> = if cs.len() == 4 {
            Some(Quad { a: cs[0], b: cs[1], c: cs[2], d: cs[3] })
        } else {
            None
        };
        OcrResult {
            text: self.text.clone(),
            bbox: b,
            polygon,
            confidence: self.confidence,
        }
    }
}

impl HttpOcrResponse {
    /// The detected texts of an answer.
    pub fn into_results(&self) -> (r: Vec<OcrResult>)
        ensures
            result_views(r@) == answer_results(*self),
    {
        let mut out: Vec<OcrResult> = Vec::new();
        let mut i: usize = 0;
        match self {
            HttpOcrResponse::Standard { results } => {
                while i < results.len()
                    invariant
                        i <= results@.len(),
                        out@.len() == i,
                        forall|k: int|
                            0 <= k < i ==> (#[trigger] out@[k])@ == standard_result(results@[k]),
                    decreases results.len() - i,
                {
                    out.push(results[i].into_ocr_result());
                    i = i + 1;
                }
            },
            HttpOcrResponse::Prod { result } => {
                while i < result.len()
                    invariant
                        i <= result@.len(),
                        out@.len() == i,
                        forall|k: int|
                            0 <= k < i ==> (#[trigger] out@[k])@ == worker_result(result@[k]),
                    decreases result.len() - i,
                {
                    out.push(result[i].into_ocr_result());
                    i = i + 1;
                }
            },
        }
        proof {
            assert(result_views(out@) =~= answer_results(*self));
        }
        out
    }
}

/// What is reported of an answer that cannot be read.
pub open spec fn unreadable(error: Seq<char>, body: Seq<char>) -> Seq<char> {
    "OCR server returned unparseable response: "@ + error + "; body starts: "@ + body.take(
        types::min_of(body.len() as int, 200),
    )
}

/// What is reported of an answer that cannot be read: why, and how it starts.
pub fn unreadable_answer(error: &str, body: &str) -> (r: String)
    ensures
        r@ == unreadable(error@, body@),
{
    let mut out: String = text::to_string("OCR server returned unparseable response: ");
    out.append(error);
    out.append("; body starts: ");
    let n: usize = body.unicode_len();
    out.append(text::take_chars(body, if n <= 200 { n } else { 200 }));
    out
}

// ---------------------------------------------------------------------------
// Retries
// ---------------------------------------------------------------------------

/// When failed requests are repeated.
#[derive(Clone, Debug)]
pub struct OcrRetryConfig {
    /// How many attempts there are in all.
    pub max_attempts: u32,
    /// The pause before the first retry; it doubles with every retry.
    pub base_backoff_ms: u64,
    /// The longest pause, without jitter.
    pub max_backoff_ms: u64,
    /// The longest random addition to a pause.
    pub jitter_ms: u64,
    /// The pause after a dropped connection.
    pub fast_retry_ms: u64,
    /// How long a request can take.
    pub request_timeout_ms: u64,
    /// When duplicates of a request are sent. None are sent with fewer than two
    /// entries.
    pub hedge_delays_ms: Vec<u64>,
}

impl Default for OcrRetryConfig {
    fn default() -> (r: OcrRetryConfig)
        ensures
            r.max_attempts == 10,
            r.base_backoff_ms == 1000,
            r.max_backoff_ms == 10_000,
            r.jitter_ms == 500,
            r.fast_retry_ms == 500,
            r.request_timeout_ms == 60_000,
            r.hedge_delays_ms@.len() == 0,
    {
        OcrRetryConfig {
            max_attempts: 10,
            base_backoff_ms: 1000,
            max_backoff_ms: 10_000,
            jitter_ms: 500,
            fast_retry_ms: 500,
            request_timeout_ms: 60_000,
            hedge_delays_ms: Vec::new(),
        }
    }
}

/// What is known of a failed request.
#[derive(Clone, Debug)]
pub struct RequestFailure {
    pub timeout: bool,
    pub connect: bool,
    /// The status of the answer, if there was one.
    pub status: Option<u16>,
    pub body: bool,
    pub request: bool,
    /// The messages of the error and of its causes.
    pub messages: Vec<String>,
}

/// Whether a status says that a request can be repeated: the server gave up waiting,
/// is overloaded, or failed itself.
pub open spec fn retryable_status(status: u16) -> bool {
    status == 408 || status == 425 || status == 429 || 500 <= status < 600
}

/// Whether a failed request is worth repeating: the server was not reached, or it
/// is overloaded, or the transfer broke off.
pub open spec fn retryable(f: RequestFailure) -> bool {
    f.timeout || f.connect || match f.status {
        Some(s) => retryable_status(s),
        None => f.body || f.request,
    }
}

/// Whether a failed request is worth repeating.
pub fn is_retryable(f: &RequestFailure) -> (r: bool)
    ensures
        r == retryable(*f),
{
    if f.timeout || f.connect {
        return true;
    }
    match f.status {
        Some(status) => status == 408 || status == 425 || status == 429 || (500 <= status && status
            < 600),
        None => f.body || f.request,
    }
}

/// Whether a message tells of a dropped connection.
pub open spec fn tells_of_drop(message: Seq<char>) -> bool {
    let m = text::ascii_lower_text(message);
    text::has_substr(m, "connection reset"@) || text::has_substr(m, "hang up"@)
        || text::has_substr(m, "broken pipe"@) || text::has_substr(m, "connection closed"@)
        || text::has_substr(m, "incompletemessage"@)
}

/// Whether a connection was dropped.
pub open spec fn dropped(f: RequestFailure) -> bool {
    exists|i: int| 0 <= i < f.messages@.len() && tells_of_drop(#[trigger] f.messages@[i]@)
}

/// Whether a connection was dropped, as the messages of the error and of its causes
/// tell.
pub fn is_connection_drop(f: &RequestFailure) -> (r: bool)
    ensures
        r == dropped(*f),
{
    let mut i: usize = 0;
    while i < f.messages.len()
        invariant
            i <= f.messages@.len(),
            forall|k: int| 0 <= k < i ==> !tells_of_drop(#[trigger] f.messages@[k]@),
        decreases f.messages.len() - i,
    {
        let lower: String = text::to_ascii_lowercase(f.messages[i].as_str());
        let m: &str = lower.as_str();
        if text::contains_str(m, "connection reset") || text::contains_str(m, "hang up")
            || text::contains_str(m, "broken pipe") || text::contains_str(m, "connection closed")
            || text::contains_str(m, "incompletemessage") {
            proof {
                assert(tells_of_drop(f.messages@[i as int]@));
            }
            return true;
        }
        i = i + 1;
    }
    false
}

/// The pause before a retry, without jitter: after a dropped connection a short
/// fixed one, else one that doubles with every retry up to the longest.
pub open spec fn pause_of(c: OcrRetryConfig, attempt: int, drop: bool) -> int {
    if drop {
        c.fast_retry_ms as int
    } else {
        types::min_of(
            (c.base_backoff_ms * power2::pow2((attempt - 1) as nat)) as int,
            c.max_backoff_ms as int,
        )
    }
}

/// What to do after a failed attempt.
#[derive(Clone, Copy, Debug, PartialEq, Eq, Structural)]
pub enum RetryStep {
    /// Report the failure.
    GiveUp,
    /// Try again after a pause, in milliseconds.
    RetryAfter(u64),
}

/// How many attempts there are in all, which is one at least.
pub open spec fn attempts_allowed(c: OcrRetryConfig) -> int {
    types::max_of(c.max_attempts as int, 1)
}

/// What to do after a failed attempt: give up after the last one, or when a retry
/// is of no use, and try again after a pause otherwise.
pub open spec fn retry_step(
    c: OcrRetryConfig,
    attempt: int,
    f: RequestFailure,
    jitter: u64,
) -> RetryStep {
    if attempt >= attempts_allowed(c) || !retryable(f) {
        RetryStep::GiveUp
    } else {
        RetryStep::RetryAfter((pause_of(c, attempt, dropped(f)) + jitter) as u64)
    }
}

proof fn lemma_doubling(base: int, k: nat)
    ensures
        base * power2::pow2(k + 1) == 2 * (base * power2::pow2(k)),
{
    power2::lemma_pow2_unfold(k + 1);
    let p = power2::pow2(k) as int;
    assert(base * (2 * p) == 2 * (base * p)) by (nonlinear_arith);
}

proof fn lemma_doubling_grows(base: int, k: nat, n: nat)
    requires
        base >= 0,
        k <= n,
    ensures
        base * power2::pow2(k) <= base * power2::pow2(n),
    decreases n - k,
{
    if k < n {
        lemma_doubling_grows(base, k, (n - 1) as nat);
        lemma_doubling(base, (n - 1) as nat);
        let p = power2::pow2((n - 1) as nat) as int;
        assert(base * p >= 0) by (nonlinear_arith)
            requires
                base >= 0,
                p >= 0,
        ;
    }
}

/// `base` doubled `times` times, at most `most`.
fn doubled(base: u64, times: u32, most: u64) -> (r: u64)
    ensures
        r == types::min_of((base * power2::pow2(times as nat)) as int, most as int),
{
    proof {
        power2::lemma2_to64();
    }
    let mut v: u64 = if base <= most {
        base
    } else {
        most
    };
    let mut i: u32 = 0;
    while i < times && v > 0 && v < most
        invariant
            i <= times,
            v == types::min_of((base * power2::pow2(i as nat)) as int, most as int),
        decreases times - i,
    {
        proof {
            lemma_doubling(base as int, i as nat);
        }
        v = if v <= most / 2 {
            2 * v
        } else {
            most
        };
        i = i + 1;
    }
    proof {
        lemma_doubling_grows(base as int, i as nat, times as nat);
        let p = power2::pow2(i as nat) as int;
        let q = power2::pow2(times as nat) as int;
        if i < times && v == 0 && most > 0 {
            power2::lemma_pow2_pos(i as nat);
            let b = base as int;
            assert(b == 0) by (nonlinear_arith)
                requires
                    b * p == 0,
                    p > 0,
            ;
            assert(b * q == 0) by (nonlinear_arith)
                requires
                    b == 0,
            ;
        }
    }
    v
}

/// What to do after a failed attempt, given how much is to be added to a pause.
pub fn after_failure(
    c: &OcrRetryConfig,
    attempt: u32,
    f: &RequestFailure,
    jitter: u64,
) -> (r: RetryStep)
    requires
        attempt >= 1,
        attempt < attempts_allowed(*c) && retryable(*f) ==> pause_of(
            *c,
            attempt as int,
            dropped(*f),
        ) + jitter <= u64::MAX,
    ensures
        r == retry_step(*c, attempt as int, *f, jitter),
{
    if attempt >= c.max_attempts || attempt < 1 || !is_retryable(f) {
        return RetryStep::GiveUp;
    }
    let pause: u64 = if is_connection_drop(f) {
        c.fast_retry_ms
    } else {
        doubled(c.base_backoff_ms, attempt - 1, c.max_backoff_ms)
    };
    RetryStep::RetryAfter(pause + jitter)
}

/// No pause is longer than the longest one, or the one after a dropped connection,
/// with the jitter added; and there are no more attempts than allowed.
pub proof fn law_pauses_are_bounded(
    c: OcrRetryConfig,
    attempt: int,
    f: RequestFailure,
    jitter: u64,
)
    requires
        attempt >= 1,
        attempt < attempts_allowed(c) && retryable(f) ==> pause_of(c, attempt, dropped(f)) + jitter
            <= u64::MAX,
    ensures
        match retry_step(c, attempt, f, jitter) {
            RetryStep::RetryAfter(ms) => ms <= types::max_of(
                c.max_backoff_ms as int,
                c.fast_retry_ms as int,
            ) + jitter && attempt < attempts_allowed(c),
            RetryStep::GiveUp => true,
        },
{
    let p = power2::pow2((attempt - 1) as nat) as int;
    let b = c.base_backoff_ms as int;
    assert(b * p >= 0) by (nonlinear_arith)
        requires
            b >= 0,
            p >= 0,
    ;
}

/// A request that a server refuses is not repeated, unless the status says that it was too
/// busy or took too long.
pub proof fn law_refusals_are_final(
    c: OcrRetryConfig,
    attempt: int,
    f: RequestFailure,
    jitter: u64,
)
    requires
        !f.timeout,
        !f.connect,
        f.status is Some,
        400 <= f.status->0 < 500,
        f.status->0 != 408 && f.status->0 != 425 && f.status->0 != 429,
    ensures
        retry_step(c, attempt, f, jitter) == RetryStep::GiveUp,
{
}

/// Pauses do not get shorter from attempt to attempt.
pub proof fn law_pauses_grow(c: OcrRetryConfig, attempt: int)
    requires
        attempt >= 1,
    ensures
        pause_of(c, attempt, false) <= pause_of(c, attempt + 1, false),
{
    lemma_doubling_grows(c.base_backoff_ms as int, (attempt - 1) as nat, attempt as nat);
}

// ---------------------------------------------------------------------------
// Jitter
// ---------------------------------------------------------------------------

/// `std::time::SystemTime`, a reading of the clock.
#[verifier::external_type_specification]
#[verifier::external_body]
pub struct ExSystemTime(SystemTime);

/// `std::time::SystemTimeError`, for a clock that stands before the epoch.
#[verifier::external_type_specification]
#[verifier::external_body]
pub struct ExSystemTimeError(std::time::SystemTimeError);

/// `SystemTime::now`: what the clock shows. Nothing is known of it.
pub assume_specification[ SystemTime::now ]() -> (r: SystemTime)
;

/// `SystemTime::duration_since`: the time between two readings of the clock, which
/// depends on how the clock was set. Nothing is known of it.
pub assume_specification[ SystemTime::duration_since ](
    t: &SystemTime,
    earlier: SystemTime,
) -> (r: Result<Duration, std::time::SystemTimeError>)
;

/// `Duration::subsec_nanos`: the part of a duration that is less than a second, in
/// nanoseconds.
pub assume_specification[ Duration::subsec_nanos ](d: &Duration) -> (r: u32)
    ensures
        r < 1_000_000_000,
;

/// The constant `SystemTime::UNIX_EPOCH`. Nothing is known of it.
#[verifier::external_body]
fn unix_epoch() -> (r: SystemTime) {
    SystemTime::UNIX_EPOCH
}

/// A number from 0 to `max` that follows from a number of nanoseconds.
pub open spec fn spread(nanos: u32, max: u64) -> int {
    if max == 0 {
        0
    } else {
        nanos as int % (max + 1)
    }
}

/// A number from 0 to `max` that follows from a number of nanoseconds.
pub fn spread_over(nanos: u32, max: u64) -> (r: u64)
    ensures
        r == spread(nanos, max),
        r <= max,
{
    if max == 0 {
        0
    } else if max >= 0xFFFF_FFFF {
        proof {
            assert(nanos as int % (max + 1) == nanos) by (nonlinear_arith)
                requires
                    nanos < max + 1,
            ;
        }
        nanos as u64
    } else {
        nanos as u64 % (max + 1)
    }
}

/// A number of milliseconds from 0 to `max` that changes with the clock: the nanoseconds
/// that it shows, spread over the numbers up to `max`.
pub fn jitter_ms(max: u64) -> (r: u64)
    ensures
        exists|n: u32| n < 1_000_000_000 && r == #[trigger] spread(n, max),
        r <= max,
{
    match SystemTime::now().duration_since(unix_epoch()) {
        Ok(d) => spread_over(d.subsec_nanos(), max),
        Err(_) => {
            proof {
                assert(spread(0, max) == 0) by {
                    vstd::arithmetic::div_mod::lemma_small_mod(0, (max + 1) as nat);
                }
            }
            0
        },
    }
}

// ---------------------------------------------------------------------------
// Duplicate requests
// ---------------------------------------------------------------------------

/// When the requests of one attempt are sent: one at once, or at the given delays.
pub open spec fn send_times(c: OcrRetryConfig) -> Seq<u64> {
    if c.hedge_delays_ms@.len() == 0 {
        seq![0]
    } else {
        c.hedge_delays_ms@
    }
}

/// When the requests of one attempt are sent, in milliseconds from its start.
pub fn request_delays(c: &OcrRetryConfig) -> (r: Vec<u64>)
    ensures
        r@ == send_times(*c),
{
    let mut out: Vec<u64> = Vec::new();
    if c.hedge_delays_ms.len() == 0 {
        out.push(0);
        return out;
    }
    let mut i: usize = 0;
    while i < c.hedge_delays_ms.len()
        invariant
            i <= c.hedge_delays_ms@.len(),
            out@ == c.hedge_delays_ms@.take(i as int),
        decreases c.hedge_delays_ms.len() - i,
    {
        proof {
            assert(c.hedge_delays_ms@.take(i + 1) =~= c.hedge_delays_ms@.take(i as int).push(
                c.hedge_delays_ms@[i as int],
            ));
        }
        out.push(c.hedge_delays_ms[i]);
        i = i + 1;
    }
    proof {
        assert(out@ =~= c.hedge_delays_ms@);
    }
    out
}

/// What becomes of one of several duplicate requests.
pub enum HedgeEvent {
    /// It was answered.
    Answered(String),
    /// It failed.
    Failed(RequestFailure),
}

/// What to do after one of several duplicate requests has ended.
pub enum HedgeStep {
    /// Take the answer, and abort the requests that are still running.
    Take(String),
    /// Wait for the others.
    Wait,
    /// Report the failure of the last request that ended.
    Fail(RequestFailure),
}

/// What to do after a duplicate request has ended, when `running` are left: the
/// first answer is taken, and when all fail the last failure is reported.
pub open spec fn hedge_step(e: HedgeEvent, running: int) -> HedgeStep {
    match e {
        HedgeEvent::Answered(body) => HedgeStep::Take(body),
        HedgeEvent::Failed(f) => if running > 0 {
            HedgeStep::Wait
        } else {
            HedgeStep::Fail(f)
        },
    }
}

/// What to do after a duplicate request has ended, when `running` are left.
pub fn after_request(e: HedgeEvent, running: usize) -> (r: HedgeStep)
    ensures
        r == hedge_step(e, running as int),
{
    match e {
        HedgeEvent::Answered(body) => HedgeStep::Take(body),
        HedgeEvent::Failed(f) => {
            if running > 0 {
                HedgeStep::Wait
            } else {
                HedgeStep::Fail(f)
            }
        },
    }
}

// ---------------------------------------------------------------------------
// The engine
// ---------------------------------------------------------------------------

/// A recognition engine behind an HTTP server.
#[derive(Clone, Debug)]
pub struct HttpOcrEngine {
    pub name: String,
    pub server_url: String,
    /// Headers for every request, by name and value.
    pub headers: Vec<(String, String)>,
    pub retry: OcrRetryConfig,
}

/// Whether retries happen as they do when nothing else is asked for.
pub open spec fn default_retry(c: OcrRetryConfig) -> bool {
    &&& c.max_attempts == 10
    &&& c.base_backoff_ms == 1000
    &&& c.max_backoff_ms == 10_000
    &&& c.jitter_ms == 500
    &&& c.fast_retry_ms == 500
    &&& c.request_timeout_ms == 60_000
    &&& c.hedge_delays_ms@.len() == 0
}

impl HttpOcrEngine {
    /// An engine for a server, without headers.
    pub fn new(server_url: String) -> (r: HttpOcrEngine)
        ensures
            r.name@ == "http-ocr"@,
            r.server_url == server_url,
            r.headers@.len() == 0,
            default_retry(r.retry),
    {
        Self::with_headers(server_url, Vec::new())
    }

    /// An engine for a server, with headers for every request.
    pub fn with_headers(server_url: String, headers: Vec<(String, String)>) -> (r: HttpOcrEngine)
        ensures
            r.name@ == "http-ocr"@,
            r.server_url == server_url,
            r.headers == headers,
            default_retry(r.retry),
    {
        HttpOcrEngine {
            name: text::to_string("http-ocr"),
            server_url,
            headers,
            retry: OcrRetryConfig::default(),
        }
    }

    /// The engine with other settings for retries.
    pub fn with_retry(self, retry: OcrRetryConfig) -> (r: HttpOcrEngine)
        ensures
            r == (HttpOcrEngine { retry, ..self }),
    {
        HttpOcrEngine {
            name: self.name,
            server_url: self.server_url,
            headers: self.headers,
            retry,
        }
    }

    /// What the engine is called.
    pub fn name(&self) -> (r: &str)
        ensures
            r@ == self.name@,
    {
        self.name.as_str()
    }
}

/// The first pause is the shortest one, and each later one is twice the one before, up to the
/// longest; after a dropped connection the pause is always the same.
pub proof fn law_pauses_double(c: OcrRetryConfig, attempt: int)
    requires
        attempt >= 1,
    ensures
        c.base_backoff_ms <= c.max_backoff_ms ==> pause_of(c, 1, false) == c.base_backoff_ms,
        2 * pause_of(c, attempt, false) <= c.max_backoff_ms ==> pause_of(c, attempt + 1, false) == 2
            * pause_of(c, attempt, false),
        2 * pause_of(c, attempt, false) >= c.max_backoff_ms ==> pause_of(c, attempt + 1, false)
            == c.max_backoff_ms,
        pause_of(c, attempt, true) == c.fast_retry_ms,
{
    power2::lemma2_to64();
    let p = power2::pow2((attempt - 1) as nat) as int;
    let q = power2::pow2(attempt as nat) as int;
    let b = c.base_backoff_ms as int;
    power2::lemma_pow2_unfold(attempt as nat);
    power2::lemma_pow2_pos((attempt - 1) as nat);
    let one = power2::pow2(0) as int;
    assert(one == 1);
    assert(b * one == b) by (nonlinear_arith)
        requires
            one == 1,
    ;
    assert(b * q == 2 * (b * p)) by (nonlinear_arith)
        requires
            q == 2 * p,
    ;
    assert(b * p >= 0) by (nonlinear_arith)
        requires
            b >= 0,
            p > 0,
    ;
}

/// A failed request is repeated as long as attempts are left, if the server was not reached
/// in time, asked for a later try, or failed itself, or if the transfer broke off without an
/// answer.
pub proof fn law_failures_are_retried(
    c: OcrRetryConfig,
    attempt: int,
    f: RequestFailure,
    jitter: u64,
)
    ensures
        (retry_step(c, attempt, f, jitter) is RetryAfter) <==> ({
            &&& attempt < c.max_attempts || attempt < 1
            &&& f.timeout || f.connect || (f.status is None && (f.body || f.request)) || (
            f.status is Some && (f.status->0 == 408 || f.status->0 == 425 || f.status->0 == 429
                || f.status->0 / 100 == 5))
        }),
{
}

/// Whether a box is the smallest one around corners.
pub open spec fn is_around(corners: Seq<Corner>, b: PixelBox) -> bool {
    &&& forall|i: int|
        0 <= i < corners.len() ==> b.left <= (#[trigger] corners[i]).x <= b.right && b.top
            <= corners[i].y <= b.bottom
    &&& exists|i: int| 0 <= i < corners.len() && (#[trigger] corners[i]).x == b.left
    &&& exists|i: int| 0 <= i < corners.len() && (#[trigger] corners[i]).x == b.right
    &&& exists|i: int| 0 <= i < corners.len() && (#[trigger] corners[i]).y == b.top
    &&& exists|i: int| 0 <= i < corners.len() && (#[trigger] corners[i]).y == b.bottom
}

proof fn lemma_around(corners: Seq<Corner>, n: int)
    requires
        0 <= n <= corners.len(),
    ensures
        n > 0 ==> is_around(corners.take(n), extent_upto(corners, n)),
    decreases n,
{
    if n > 0 {
        lemma_around(corners, n - 1);
        let v = corners.take(n);
        let b = extent_upto(corners, n);
        let a = extent_upto(corners, n - 1);
        let u = corners.take(n - 1);
        assert forall|i: int| 0 <= i < n - 1 implies u[i] == #[trigger] v[i] by {}
        assert(v[n - 1] == corners[n - 1]);
        if n > 1 {
            let i1 = choose|i: int| 0 <= i < u.len() && (#[trigger] u[i]).x == a.left;
            let i2 = choose|i: int| 0 <= i < u.len() && (#[trigger] u[i]).x == a.right;
            let i3 = choose|i: int| 0 <= i < u.len() && (#[trigger] u[i]).y == a.top;
            let i4 = choose|i: int| 0 <= i < u.len() && (#[trigger] u[i]).y == a.bottom;
            assert(v[i1].x == a.left && v[i2].x == a.right && v[i3].y == a.top && v[i4].y
                == a.bottom);
        }
    }
}

/// A worker's text has the smallest box around its corners, and its corners themselves in
/// their order, if there are four.
pub proof fn law_worker_text_keeps_its_corners(i: ProdOcrItem)
    ensures
        i.corners@.len() > 0 ==> is_around(i.corners@, worker_result(i).bbox),
        worker_result(i).polygon is Some <==> i.corners@.len() == 4,
        worker_result(i).polygon matches Some(q) ==> seq![q.a, q.b, q.c, q.d] == i.corners@,
        worker_result(i).text == i.text@,
        worker_result(i).confidence == i.confidence,
{
    lemma_around(i.corners@, i.corners@.len() as int);
    assert(i.corners@.take(i.corners@.len() as int) =~= i.corners@);
    if i.corners@.len() == 4 {
        let q = worker_result(i).polygon->0;
        assert(seq![q.a, q.b, q.c, q.d] =~= i.corners@);
    }
}

} // verus!

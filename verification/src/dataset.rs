//! The synthetic benchmark dataset: JSON log lines with hidden incidents,
//! and the ground truth of queries and the lines each should find.
//!
//! Every random choice comes from one `SimpleRng`, in a fixed order, so the
//! same seed gives the same dataset. The contracts state each line over the
//! generator's state before the call.
use vstd::prelude::*;
use vstd::string::StringExecFns;

use crate::numfmt::{decimal, digit_byte, digit_bytes, number_text, padded_digit_bytes, push_number};
use crate::pipeline::{find_first, first_position};
use crate::render::{fields_view, object_text, render_object, Field, FieldValue, ValueView};
use crate::rng::{range_value, xorshift, SimpleRng};

verus! {

/// The five kinds of incident, in the order they are dealt out.
#[derive(Debug, Clone, Copy, PartialEq, Eq, Structural)]
pub enum IncidentKind {
    Timeout,
    Oom,
    Deadlock,
    AuthFailure,
    RateLimit,
}

/// The name of a kind, as `{:?}` writes it.
pub open spec fn kind_text(k: IncidentKind) -> Seq<char> {
    match k {
        IncidentKind::Timeout => "Timeout"@,
        IncidentKind::Oom => "Oom"@,
        IncidentKind::Deadlock => "Deadlock"@,
        IncidentKind::AuthFailure => "AuthFailure"@,
        IncidentKind::RateLimit => "RateLimit"@,
    }
}

/// The name of a kind, as `{:?}` writes it.
pub fn kind_name(k: IncidentKind) -> (r: &'static str)
    ensures
        r@ == kind_text(k),
{
    match k {
        IncidentKind::Timeout => "Timeout",
        IncidentKind::Oom => "Oom",
        IncidentKind::Deadlock => "Deadlock",
        IncidentKind::AuthFailure => "AuthFailure",
        IncidentKind::RateLimit => "RateLimit",
    }
}

/// One hidden incident: a run of consecutive log lines that share a trace
/// and an order, ending in an error.
pub struct Incident {
    pub id: usize,
    pub kind: IncidentKind,
    /// The line numbers (from 0) the incident occupies, in order.
    pub lines: Vec<usize>,
    pub trace_id: String,
    pub service: &'static str,
    pub order_id: String,
}

/// A text-valued field.
pub open spec fn text_field(key: Seq<char>, value: Seq<char>) -> (Seq<char>, ValueView) {
    (key, ValueView::Text(value))
}

/// A number-valued field.
pub open spec fn number_field(key: Seq<char>, value: nat) -> (Seq<char>, ValueView) {
    (key, ValueView::Number(value))
}

/// The span identifier drawn as `x`: `sp-` and the low 32 bits of `x` in
/// eight hexadecimal digits.
pub open spec fn span_text(x: u64) -> Seq<char> {
    "sp-"@ + number_text((x & 0xFFFF_FFFFu64) as nat, 16, 8)
}

/// The endpoint every incident line names.
pub open spec fn payments_endpoint() -> (Seq<char>, ValueView) {
    text_field("endpoint"@, "/api/v1/payments"@)
}

/// The fields every incident line starts with.
pub open spec fn line_head(
    inc: &Incident,
    ts: Seq<char>,
    level: Seq<char>,
    message: Seq<char>,
    span: Seq<char>,
) -> Seq<(Seq<char>, ValueView)> {
    seq![
        text_field("timestamp"@, ts),
        text_field("level"@, level),
        text_field("service"@, inc.service@),
        text_field("message"@, message),
        text_field("trace_id"@, inc.trace_id@),
        text_field("span_id"@, span),
        text_field("order_id"@, inc.order_id@),
    ]
}

/// The error identifier of an incident: the label and its number.
pub open spec fn error_text(label: Seq<char>, id: usize) -> Seq<char> {
    label + decimal(id as nat)
}

/// The fields of line `pos` of `total` of a timeout, from state `s`.
pub open spec fn timeout_fields(inc: &Incident, pos: int, total: int, ts: Seq<char>, s: u64) -> Seq<
    (Seq<char>, ValueView),
> {
    let s1 = xorshift(s);
    let span = span_text(s1);
    if pos == 0 {
        line_head(inc, ts, "INFO"@, "Initiating payment request to gateway"@, span) + seq![
            payments_endpoint(),
            number_field("latency_ms"@, range_value(s1, 5, 20) as nat),
        ]
    } else if pos == total - 1 {
        line_head(
            inc,
            ts,
            "ERROR"@,
            "Payment gateway timeout after 30000ms: connection to payment.provider.com timed out, order "@
                + inc.order_id@ + " stuck in pending state"@,
            span,
        ) + seq![
            text_field("error_id"@, error_text("err-timeout-"@, inc.id)),
            payments_endpoint(),
            number_field("latency_ms"@, 30000),
        ]
    } else if pos == total - 2 {
        line_head(
            inc,
            ts,
            "WARN"@,
            "Gateway response slow, approaching timeout threshold 30s"@,
            span,
        ) + seq![
            payments_endpoint(),
            number_field("latency_ms"@, range_value(s1, 25000, 29000) as nat),
        ]
    } else {
        line_head(
            inc,
            ts,
            "INFO"@,
            "Retrying payment gateway connection, attempt "@ + decimal(pos as nat),
            span,
        ) + seq![
            payments_endpoint(),
            number_field("latency_ms"@, range_value(s1, 1000, 5000) as nat),
        ]
    }
}

/// The heap size line `pos` of an out-of-memory incident reports.
pub open spec fn heap_mb(pos: int) -> nat {
    (512 + pos * 128) as nat
}

/// The fields of line `pos` of `total` of an out-of-memory incident.
pub open spec fn oom_fields(inc: &Incident, pos: int, total: int, ts: Seq<char>, s: u64) -> Seq<
    (Seq<char>, ValueView),
> {
    let span = span_text(xorshift(s));
    let heap = heap_mb(pos);
    if pos == 0 {
        line_head(
            inc,
            ts,
            "WARN"@,
            "Heap usage elevated: "@ + decimal(heap) + "MB / 2048MB, GC pressure increasing"@,
            span,
        ) + seq![number_field("heap_used_mb"@, heap)]
    } else if pos == total - 1 {
        line_head(
            inc,
            ts,
            "FATAL"@,
            "OutOfMemoryError: Java heap space exhausted, process killed by OOM killer, allocated 2048MB"@,
            span,
        ) + seq![
            text_field("error_id"@, error_text("err-oom-"@, inc.id)),
            number_field("heap_used_mb"@, 2048),
        ]
    } else {
        line_head(
            inc,
            ts,
            "WARN"@,
            "Memory allocation spike: large batch processing "@ + decimal(heap)
                + "MB heap, GC unable to free sufficient memory"@,
            span,
        ) + seq![number_field("heap_used_mb"@, heap)]
    }
}

/// The fields of line `pos` of `total` of a deadlock.
pub open spec fn deadlock_fields(inc: &Incident, pos: int, total: int, ts: Seq<char>, s: u64) -> Seq<
    (Seq<char>, ValueView),
> {
    let s1 = xorshift(s);
    let span = span_text(s1);
    if pos == 0 {
        line_head(
            inc,
            ts,
            "WARN"@,
            "Lock acquisition timeout: thread waiting for mutex on account_balance table"@,
            span,
        ) + seq![
            payments_endpoint(),
            number_field("latency_ms"@, range_value(s1, 5000, 10000) as nat),
        ]
    } else if pos == total - 1 {
        line_head(
            inc,
            ts,
            "ERROR"@,
            "Deadlock detected: circular wait between transaction "@ + inc.order_id@
                + " and concurrent update on account_balance, both threads blocked for >60s"@,
            span,
        ) + seq![text_field("error_id"@, error_text("err-deadlock-"@, inc.id)), payments_endpoint()]
    } else {
        line_head(
            inc,
            ts,
            "WARN"@,
            "Lock contention increasing: "@ + decimal((pos + 2) as nat)
                + " threads waiting for account_balance mutex"@,
            span,
        ) + seq![
            payments_endpoint(),
            number_field("latency_ms"@, range_value(s1, 10000, 30000) as nat),
        ]
    }
}

/// The fields of line `pos` of `total` of an authentication failure.
pub open spec fn auth_failure_fields(inc: &Incident, pos: int, total: int, ts: Seq<char>, s: u64) -> Seq<
    (Seq<char>, ValueView),
> {
    let s1 = xorshift(s);
    let span = span_text(s1);
    if pos == 0 {
        line_head(
            inc,
            ts,
            "WARN"@,
            "JWT token validation failed: signature mismatch for user session"@,
            span,
        ) + seq![
            text_field("user_id"@, "usr-"@ + decimal(range_value(s1, 10000, 99999) as nat)),
            payments_endpoint(),
        ]
    } else if pos == total - 1 {
        line_head(
            inc,
            ts,
            "ERROR"@,
            "Authentication failure: invalid API key or expired token, payment "@ + inc.order_id@
                + " rejected, possible credential compromise"@,
            span,
        ) + seq![text_field("error_id"@, error_text("err-auth-"@, inc.id)), payments_endpoint()]
    } else {
        line_head(
            inc,
            ts,
            "WARN"@,
            "Auth retry "@ + decimal(pos as nat) + ": re-validating credentials against auth service"@,
            span,
        ) + seq![
            payments_endpoint(),
            number_field("latency_ms"@, range_value(s1, 100, 500) as nat),
        ]
    }
}

/// The fields of line `pos` of `total` of a rate-limit incident.
pub open spec fn rate_limit_fields(inc: &Incident, pos: int, total: int, ts: Seq<char>, s: u64) -> Seq<
    (Seq<char>, ValueView),
> {
    let s1 = xorshift(s);
    let span = span_text(s1);
    if pos == 0 {
        line_head(
            inc,
            ts,
            "WARN"@,
            "Rate limit approaching: "@ + decimal(5) + "/1000 requests remaining in current window"@,
            span,
        ) + seq![payments_endpoint(), number_field("rate_limit_remaining"@, 5)]
    } else if pos == total - 1 {
        line_head(
            inc,
            ts,
            "ERROR"@,
            "Rate limit exceeded: 429 Too Many Requests from payment gateway, order "@ + inc.order_id@
                + " queued, retry after 60s"@,
            span,
        ) + seq![
            text_field("error_id"@, error_text("err-ratelimit-"@, inc.id)),
            payments_endpoint(),
            number_field("rate_limit_remaining"@, 0),
        ]
    } else {
        line_head(
            inc,
            ts,
            "WARN"@,
            "Rate limit throttling: request queued, position "@ + decimal(pos as nat)
                + " in backoff queue"@,
            span,
        ) + seq![
            payments_endpoint(),
            number_field("latency_ms"@, range_value(s1, 1000, 5000) as nat),
        ]
    }
}

/// The generator state after line `pos` of `total` of an incident of kind
/// `k`, from state `s`: one draw for the span, and one more where the line
/// carries a drawn number.
pub open spec fn line_state(k: IncidentKind, pos: int, total: int, s: u64) -> u64 {
    let one = xorshift(s);
    let two = xorshift(xorshift(s));
    match k {
        IncidentKind::Oom => one,
        IncidentKind::RateLimit => if pos != 0 && pos != total - 1 {
            two
        } else {
            one
        },
        _ => if pos != 0 && pos == total - 1 {
            one
        } else {
            two
        },
    }
}

/// The fields of line `pos` of `total` of an incident, by its kind.
pub open spec fn incident_fields(inc: &Incident, pos: int, total: int, ts: Seq<char>, s: u64) -> Seq<
    (Seq<char>, ValueView),
> {
    match inc.kind {
        IncidentKind::Timeout => timeout_fields(inc, pos, total, ts, s),
        IncidentKind::Oom => oom_fields(inc, pos, total, ts, s),
        IncidentKind::Deadlock => deadlock_fields(inc, pos, total, ts, s),
        IncidentKind::AuthFailure => auth_failure_fields(inc, pos, total, ts, s),
        IncidentKind::RateLimit => rate_limit_fields(inc, pos, total, ts, s),
    }
}

/// A text field.
fn text_value(key: &'static str, value: String) -> (f: Field)
    ensures
        f.view() == text_field(key@, value@),
{
    Field { key, value: FieldValue::Text(value) }
}

/// A number field.
fn number_value(key: &'static str, value: u64) -> (f: Field)
    ensures
        f.view() == number_field(key@, value as nat),
{
    Field { key, value: FieldValue::Number(value) }
}

/// `label` followed by `n` in decimal.
fn labelled(label: &str, n: u64) -> (s: String)
    ensures
        s@ == label@ + decimal(n as nat),
{
    let mut s = label.to_owned();
    push_number(&mut s, n, 10, 0);
    s
}

/// Three pieces of text, one after the other.
fn joined3(a: &str, b: &str, c: &str) -> (s: String)
    ensures
        s@ == a@ + b@ + c@,
{
    let mut s = a.to_owned();
    s.append(b);
    s.append(c);
    s
}

/// Draws a span identifier.
fn span_id(rng: &mut SimpleRng) -> (s: String)
    ensures
        s@ == span_text(xorshift(old(rng).state())),
        final(rng).state() == xorshift(old(rng).state()),
{
    let x = rng.next();
    let mut s = "sp-".to_owned();
    push_number(&mut s, x & 0xFFFF_FFFFu64, 16, 8);
    s
}

fn payments() -> (f: Field)
    ensures
        f.view() == payments_endpoint(),
{
    text_value("endpoint", "/api/v1/payments".to_owned())
}

impl Incident {
    /// The fields every line of this incident starts with.
    fn head(&self, ts: &str, level: &'static str, message: String, span: String) -> (fs: Vec<Field>)
        ensures
            fields_view(fs@) == line_head(self, ts@, level@, message@, span@),
    {
        let mut fs: Vec<Field> = Vec::new();
        fs.push(text_value("timestamp", ts.to_owned()));
        fs.push(text_value("level", level.to_owned()));
        fs.push(text_value("service", self.service.to_owned()));
        fs.push(text_value("message", message));
        fs.push(text_value("trace_id", self.trace_id.clone()));
        fs.push(text_value("span_id", span));
        fs.push(text_value("order_id", self.order_id.clone()));
        proof {
            assert(fields_view(fs@) =~= line_head(self, ts@, level@, message@, span@));
        }
        fs
    }

    /// Line `pos` of `total` of a timeout: a payment request, retries, a
    /// slow response, and the timeout error last.
    pub fn timeout_line(&self, pos: usize, total: usize, ts: &str, rng: &mut SimpleRng) -> (r: String)
        requires
            pos == 0 || total >= 2,
        ensures
            r@ == object_text(
                timeout_fields(self, pos as int, total as int, ts@, old(rng).state()),
                false,
            ),
            final(rng).state() == line_state(
                IncidentKind::Timeout,
                pos as int,
                total as int,
                old(rng).state(),
            ),
    {
        let ghost s = old(rng).state();
        let span = span_id(rng);
        let mut fs: Vec<Field>;
        if pos == 0 {
            let latency = rng.next_range(5, 20);
            fs = self.head(ts, "INFO", "Initiating payment request to gateway".to_owned(), span);
            fs.push(payments());
            fs.push(number_value("latency_ms", latency));
        } else if pos == total - 1 {
            let message = joined3(
                "Payment gateway timeout after 30000ms: connection to payment.provider.com timed out, order ",
                self.order_id.as_str(),
                " stuck in pending state",
            );
            fs = self.head(ts, "ERROR", message, span);
            fs.push(text_value("error_id", labelled("err-timeout-", self.id as u64)));
            fs.push(payments());
            fs.push(number_value("latency_ms", 30000));
        } else if pos == total - 2 {
            let latency = rng.next_range(25000, 29000);
            fs = self.head(
                ts,
                "WARN",
                "Gateway response slow, approaching timeout threshold 30s".to_owned(),
                span,
            );
            fs.push(payments());
            fs.push(number_value("latency_ms", latency));
        } else {
            let latency = rng.next_range(1000, 5000);
            let message = labelled("Retrying payment gateway connection, attempt ", pos as u64);
            fs = self.head(ts, "INFO", message, span);
            fs.push(payments());
            fs.push(number_value("latency_ms", latency));
        }
        proof {
            assert(fields_view(fs@) =~= timeout_fields(self, pos as int, total as int, ts@, s));
        }
        render_object(&fs, false)
    }

    /// Line `pos` of `total` of an out-of-memory incident: the heap grows
    /// by 128MB a line from 512MB, and the process is killed last.
    pub fn oom_line(&self, pos: usize, total: usize, ts: &str, rng: &mut SimpleRng) -> (r: String)
        requires
            pos == 0 || total >= 1,
            512 + pos * 128 <= u64::MAX,
        ensures
            r@ == object_text(oom_fields(self, pos as int, total as int, ts@, old(rng).state()), false),
            final(rng).state() == line_state(
                IncidentKind::Oom,
                pos as int,
                total as int,
                old(rng).state(),
            ),
    {
        let ghost s = old(rng).state();
        let span = span_id(rng);
        let heap: u64 = 512 + pos as u64 * 128;
        let mut fs: Vec<Field>;
        if pos == 0 {
            let mut message = labelled("Heap usage elevated: ", heap);
            message.append("MB / 2048MB, GC pressure increasing");
            fs = self.head(ts, "WARN", message, span);
            fs.push(number_value("heap_used_mb", heap));
        } else if pos == total - 1 {
            fs = self.head(
                ts,
                "FATAL",
                "OutOfMemoryError: Java heap space exhausted, process killed by OOM killer, allocated 2048MB".to_owned(),
                span,
            );
            fs.push(text_value("error_id", labelled("err-oom-", self.id as u64)));
            fs.push(number_value("heap_used_mb", 2048));
        } else {
            let mut message = labelled("Memory allocation spike: large batch processing ", heap);
            message.append("MB heap, GC unable to free sufficient memory");
            fs = self.head(ts, "WARN", message, span);
            fs.push(number_value("heap_used_mb", heap));
        }
        proof {
            assert(fields_view(fs@) =~= oom_fields(self, pos as int, total as int, ts@, s));
        }
        render_object(&fs, false)
    }

    /// Line `pos` of `total` of a deadlock: lock waits, growing contention,
    /// and the detected deadlock last.
    pub fn deadlock_line(&self, pos: usize, total: usize, ts: &str, rng: &mut SimpleRng) -> (r: String)
        requires
            pos == 0 || total >= 1,
            pos + 2 <= u64::MAX,
        ensures
            r@ == object_text(
                deadlock_fields(self, pos as int, total as int, ts@, old(rng).state()),
                false,
            ),
            final(rng).state() == line_state(
                IncidentKind::Deadlock,
                pos as int,
                total as int,
                old(rng).state(),
            ),
    {
        let ghost s = old(rng).state();
        let span = span_id(rng);
        let mut fs: Vec<Field>;
        if pos == 0 {
            let latency = rng.next_range(5000, 10000);
            fs = self.head(
                ts,
                "WARN",
                "Lock acquisition timeout: thread waiting for mutex on account_balance table".to_owned(),
                span,
            );
            fs.push(payments());
            fs.push(number_value("latency_ms", latency));
        } else if pos == total - 1 {
            let message = joined3(
                "Deadlock detected: circular wait between transaction ",
                self.order_id.as_str(),
                " and concurrent update on account_balance, both threads blocked for >60s",
            );
            fs = self.head(ts, "ERROR", message, span);
            fs.push(text_value("error_id", labelled("err-deadlock-", self.id as u64)));
            fs.push(payments());
        } else {
            let latency = rng.next_range(10000, 30000);
            let mut message = labelled("Lock contention increasing: ", pos as u64 + 2);
            message.append(" threads waiting for account_balance mutex");
            fs = self.head(ts, "WARN", message, span);
            fs.push(payments());
            fs.push(number_value("latency_ms", latency));
        }
        proof {
            assert(fields_view(fs@) =~= deadlock_fields(self, pos as int, total as int, ts@, s));
        }
        render_object(&fs, false)
    }

    /// Line `pos` of `total` of an authentication failure: a rejected token,
    /// retries, and the failure last.
    pub fn auth_failure_line(&self, pos: usize, total: usize, ts: &str, rng: &mut SimpleRng) -> (r: String)
        requires
            pos == 0 || total >= 1,
        ensures
            r@ == object_text(
                auth_failure_fields(self, pos as int, total as int, ts@, old(rng).state()),
                false,
            ),
            final(rng).state() == line_state(
                IncidentKind::AuthFailure,
                pos as int,
                total as int,
                old(rng).state(),
            ),
    {
        let ghost s = old(rng).state();
        let span = span_id(rng);
        let mut fs: Vec<Field>;
        if pos == 0 {
            let user = rng.next_range(10000, 99999);
            fs = self.head(
                ts,
                "WARN",
                "JWT token validation failed: signature mismatch for user session".to_owned(),
                span,
            );
            fs.push(text_value("user_id", labelled("usr-", user)));
            fs.push(payments());
        } else if pos == total - 1 {
            let message = joined3(
                "Authentication failure: invalid API key or expired token, payment ",
                self.order_id.as_str(),
                " rejected, possible credential compromise",
            );
            fs = self.head(ts, "ERROR", message, span);
            fs.push(text_value("error_id", labelled("err-auth-", self.id as u64)));
            fs.push(payments());
        } else {
            let latency = rng.next_range(100, 500);
            let mut message = labelled("Auth retry ", pos as u64);
            message.append(": re-validating credentials against auth service");
            fs = self.head(ts, "WARN", message, span);
            fs.push(payments());
            fs.push(number_value("latency_ms", latency));
        }
        proof {
            assert(fields_view(fs@) =~= auth_failure_fields(self, pos as int, total as int, ts@, s));
        }
        render_object(&fs, false)
    }

    /// Line `pos` of `total` of a rate-limit incident: the limit nears,
    /// requests queue, and the limit is exceeded last.
    pub fn rate_limit_line(&self, pos: usize, total: usize, ts: &str, rng: &mut SimpleRng) -> (r: String)
        requires
            pos == 0 || total >= 1,
        ensures
            r@ == object_text(
                rate_limit_fields(self, pos as int, total as int, ts@, old(rng).state()),
                false,
            ),
            final(rng).state() == line_state(
                IncidentKind::RateLimit,
                pos as int,
                total as int,
                old(rng).state(),
            ),
    {
        let ghost s = old(rng).state();
        let span = span_id(rng);
        let remaining: u64 = if pos == 0 {
            5
        } else {
            0
        };
        let mut fs: Vec<Field>;
        if pos == 0 {
            let mut message = labelled("Rate limit approaching: ", remaining);
            message.append("/1000 requests remaining in current window");
            fs = self.head(ts, "WARN", message, span);
            fs.push(payments());
            fs.push(number_value("rate_limit_remaining", remaining));
        } else if pos == total - 1 {
            let message = joined3(
                "Rate limit exceeded: 429 Too Many Requests from payment gateway, order ",
                self.order_id.as_str(),
                " queued, retry after 60s",
            );
            fs = self.head(ts, "ERROR", message, span);
            fs.push(text_value("error_id", labelled("err-ratelimit-", self.id as u64)));
            fs.push(payments());
            fs.push(number_value("rate_limit_remaining", 0));
        } else {
            let latency = rng.next_range(1000, 5000);
            let mut message = labelled("Rate limit throttling: request queued, position ", pos as u64);
            message.append(" in backoff queue");
            fs = self.head(ts, "WARN", message, span);
            fs.push(payments());
            fs.push(number_value("latency_ms", latency));
        }
        proof {
            assert(fields_view(fs@) =~= rate_limit_fields(self, pos as int, total as int, ts@, s));
        }
        render_object(&fs, false)
    }

    /// The text of line `line_idx`, one of this incident's lines, by the
    /// incident's kind and the line's position within the incident.
    pub fn generate_line(&self, line_idx: usize, ts: &str, rng: &mut SimpleRng) -> (r: String)
        requires
            self.lines@.contains(line_idx),
            512 + self.lines.len() * 128 <= u64::MAX,
        ensures
            r@ == object_text(
                incident_fields(
                    self,
                    first_position(self.lines@, line_idx),
                    self.lines.len() as int,
                    ts@,
                    old(rng).state(),
                ),
                false,
            ),
            final(rng).state() == line_state(
                self.kind,
                first_position(self.lines@, line_idx),
                self.lines.len() as int,
                old(rng).state(),
            ),
    {
        let pos = match find_first(self.lines.as_slice(), line_idx) {
            Some(p) => p,
            None => {
                proof {
                    assert(false);
                }
                0
            },
        };
        let total = self.lines.len();
        match self.kind {
            IncidentKind::Timeout => self.timeout_line(pos, total, ts, rng),
            IncidentKind::Oom => self.oom_line(pos, total, ts, rng),
            IncidentKind::Deadlock => self.deadlock_line(pos, total, ts, rng),
            IncidentKind::AuthFailure => self.auth_failure_line(pos, total, ts, rng),
            IncidentKind::RateLimit => self.rate_limit_line(pos, total, ts, rng),
        }
    }
}


/// The services, dealt out by incident number and drawn for ordinary lines.
pub open spec fn service_text(k: int) -> Seq<char> {
    if k == 0 {
        "payment-gateway"@
    } else if k == 1 {
        "order-service"@
    } else if k == 2 {
        "user-auth"@
    } else if k == 3 {
        "inventory"@
    } else {
        "notification"@
    }
}

/// Service `k` of the five.
pub fn service_name(k: u64) -> (r: &'static str)
    requires
        k < 5,
    ensures
        r@ == service_text(k as int),
{
    if k == 0 {
        "payment-gateway"
    } else if k == 1 {
        "order-service"
    } else if k == 2 {
        "user-auth"
    } else if k == 3 {
        "inventory"
    } else {
        "notification"
    }
}

/// The messages of ordinary lines.
pub open spec fn normal_message_text(k: int) -> Seq<char> {
    if k == 0 {
        "Health check passed"@
    } else if k == 1 {
        "Request processed successfully"@
    } else if k == 2 {
        "Cache hit for session lookup"@
    } else if k == 3 {
        "Database connection pool: 12/50 active"@
    } else if k == 4 {
        "Metrics exported to prometheus"@
    } else if k == 5 {
        "gRPC keepalive sent"@
    } else if k == 6 {
        "TLS handshake completed"@
    } else if k == 7 {
        "Rate limiter: 847/1000 tokens remaining"@
    } else if k == 8 {
        "Config reload: no changes detected"@
    } else if k == 9 {
        "Upstream latency p99: 12ms"@
    } else if k == 10 {
        "Queue depth: 3 messages pending"@
    } else if k == 11 {
        "Worker thread pool: 8/16 busy"@
    } else if k == 12 {
        "DNS resolution cached for payment.provider.com"@
    } else if k == 13 {
        "Load balancer health: all backends UP"@
    } else if k == 14 {
        "Garbage collection: 2.1ms pause"@
    } else if k == 15 {
        "Connection recycled after 300s idle"@
    } else if k == 16 {
        "Span exported to Jaeger"@
    } else if k == 17 {
        "Feature flag evaluated: dark_launch=false"@
    } else if k == 18 {
        "Circuit breaker: closed (0 failures)"@
    } else {
        "Batch write: 50 rows in 3ms"@
    }
}

/// Message `k` of the twenty ordinary messages.
fn normal_message(k: u64) -> (r: &'static str)
    requires
        k < 20,
    ensures
        r@ == normal_message_text(k as int),
{
    if k == 0 {
        "Health check passed"
    } else if k == 1 {
        "Request processed successfully"
    } else if k == 2 {
        "Cache hit for session lookup"
    } else if k == 3 {
        "Database connection pool: 12/50 active"
    } else if k == 4 {
        "Metrics exported to prometheus"
    } else if k == 5 {
        "gRPC keepalive sent"
    } else if k == 6 {
        "TLS handshake completed"
    } else if k == 7 {
        "Rate limiter: 847/1000 tokens remaining"
    } else if k == 8 {
        "Config reload: no changes detected"
    } else if k == 9 {
        "Upstream latency p99: 12ms"
    } else if k == 10 {
        "Queue depth: 3 messages pending"
    } else if k == 11 {
        "Worker thread pool: 8/16 busy"
    } else if k == 12 {
        "DNS resolution cached for payment.provider.com"
    } else if k == 13 {
        "Load balancer health: all backends UP"
    } else if k == 14 {
        "Garbage collection: 2.1ms pause"
    } else if k == 15 {
        "Connection recycled after 300s idle"
    } else if k == 16 {
        "Span exported to Jaeger"
    } else if k == 17 {
        "Feature flag evaluated: dark_launch=false"
    } else if k == 18 {
        "Circuit breaker: closed (0 failures)"
    } else {
        "Batch write: 50 rows in 3ms"
    }
}

/// The endpoints of ordinary lines.
pub open spec fn endpoint_text(k: int) -> Seq<char> {
    if k == 0 {
        "/api/v1/payments"@
    } else if k == 1 {
        "/api/v1/orders"@
    } else if k == 2 {
        "/api/v1/users"@
    } else if k == 3 {
        "/api/v1/inventory"@
    } else if k == 4 {
        "/api/v1/notifications"@
    } else if k == 5 {
        "/api/v1/health"@
    } else if k == 6 {
        "/api/v2/checkout"@
    } else if k == 7 {
        "/api/v1/refunds"@
    } else if k == 8 {
        "/api/v1/webhooks"@
    } else {
        "/internal/metrics"@
    }
}

/// Endpoint `k` of the ten.
fn endpoint_name(k: u64) -> (r: &'static str)
    requires
        k < 10,
    ensures
        r@ == endpoint_text(k as int),
{
    if k == 0 {
        "/api/v1/payments"
    } else if k == 1 {
        "/api/v1/orders"
    } else if k == 2 {
        "/api/v1/users"
    } else if k == 3 {
        "/api/v1/inventory"
    } else if k == 4 {
        "/api/v1/notifications"
    } else if k == 5 {
        "/api/v1/health"
    } else if k == 6 {
        "/api/v2/checkout"
    } else if k == 7 {
        "/api/v1/refunds"
    } else if k == 8 {
        "/api/v1/webhooks"
    } else {
        "/internal/metrics"
    }
}

/// The timestamp of line `i` with milliseconds `ms`: one line a second
/// from midnight, `2026-09-06THH:MM:SS.mmmZ`, the hour wrapping at 24.
pub open spec fn timestamp_text(i: nat, ms: nat) -> Seq<char> {
    "2026-09-06T"@ + number_text((i / 3600) % 24, 10, 2) + ":"@ + number_text((i / 60) % 60, 10, 2)
        + ":"@ + number_text(i % 60, 10, 2) + "."@ + number_text(ms, 10, 3) + "Z"@
}

/// The fields of an ordinary line drawn from state `s`, with timestamp
/// `ts`: a service, a message and an endpoint, a trace and a span, a
/// latency and a request number, drawn in that order.
pub open spec fn normal_fields(ts: Seq<char>, s: u64) -> Seq<(Seq<char>, ValueView)> {
    let s1 = xorshift(s);
    let s2 = xorshift(s1);
    let s3 = xorshift(s2);
    let s4 = xorshift(s3);
    let s5 = xorshift(s4);
    let s6 = xorshift(s5);
    let s7 = xorshift(s6);
    seq![
        text_field("timestamp"@, ts),
        text_field("level"@, "INFO"@),
        text_field("service"@, service_text(range_value(s, 0, 5) as int)),
        text_field("message"@, normal_message_text(range_value(s1, 0, 20) as int)),
        text_field("trace_id"@, "tr-"@ + number_text(s4 as nat, 16, 16)),
        text_field("span_id"@, span_text(s5)),
        text_field("endpoint"@, endpoint_text(range_value(s2, 0, 10) as int)),
        number_field("latency_ms"@, range_value(s5, 1, 50) as nat),
        text_field("request_id"@, "req-"@ + number_text((s7 & 0xFFFF_FFFF_FFFFu64) as nat, 16, 12)),
    ]
}

/// The last incident whose lines hold line `i`, if any.
pub open spec fn incident_at(incidents: Seq<Incident>, i: usize) -> Option<int>
    decreases incidents.len(),
{
    if incidents.len() == 0 {
        None
    } else if incidents.last().lines@.contains(i) {
        Some(incidents.len() - 1)
    } else {
        incident_at(incidents.drop_last(), i)
    }
}

proof fn lemma_incident_at_bounds(incidents: Seq<Incident>, i: usize)
    ensures
        match incident_at(incidents, i) {
            Some(k) => 0 <= k < incidents.len() && incidents[k].lines@.contains(i) && forall|j: int|
                k < j < incidents.len() ==> !(#[trigger] incidents[j].lines@.contains(i)),
            None => forall|j: int|
                0 <= j < incidents.len() ==> !(#[trigger] incidents[j].lines@.contains(i)),
        },
    decreases incidents.len(),
{
    if incidents.len() > 0 {
        lemma_incident_at_bounds(incidents.drop_last(), i);
        let d = incidents.drop_last();
        assert forall|j: int| 0 <= j < d.len() implies d[j] == incidents[j] by {}
    }
}

/// The position, among the incidents, of the last one holding line `i`.
fn find_incident(incidents: &[Incident], i: usize) -> (r: Option<usize>)
    ensures
        match r {
            Some(k) => incident_at(incidents@, i) == Some(k as int),
            None => incident_at(incidents@, i) is None,
        },
{
    proof {
        lemma_incident_at_bounds(incidents@, i);
    }
    let mut k = incidents.len();
    while k > 0
        invariant
            k <= incidents.len(),
            forall|j: int| k <= j < incidents.len() ==> !(#[trigger] incidents@[j].lines@.contains(i)),
            match incident_at(incidents@, i) {
                Some(m) => 0 <= m < incidents.len() && incidents@[m].lines@.contains(i) && forall|j: int|
                    m < j < incidents.len() ==> !(#[trigger] incidents@[j].lines@.contains(i)),
                None => forall|j: int|
                    0 <= j < incidents.len() ==> !(#[trigger] incidents@[j].lines@.contains(i)),
            },
        decreases k,
    {
        let inc = &incidents[k - 1];
        if let Some(_p) = find_first(inc.lines.as_slice(), i) {
            proof {
                match incident_at(incidents@, i) {
                    Some(m) => {
                        assert(incidents@[k - 1].lines@.contains(i));
                        assert(m == k - 1);
                    },
                    None => {
                        assert(incidents@[k - 1].lines@.contains(i));
                    },
                }
            }
            return Some(k - 1);
        }
        k -= 1;
    }
    proof {
        match incident_at(incidents@, i) {
            Some(m) => {
                assert(incidents@[m].lines@.contains(i));
            },
            None => {},
        }
    }
    None
}

/// Line `i` of the dataset, drawn from `rng`: its timestamp, then the
/// line of the last incident that holds line `i`, or else an ordinary
/// line.
pub fn dataset_line(i: usize, incidents: &[Incident], rng: &mut SimpleRng) -> (r: String)
    requires
        forall|k: int| 0 <= k < incidents.len() ==> 512 + #[trigger] incidents@[k].lines.len() * 128 <= u64::MAX,
    ensures
        ({
            let s = old(rng).state();
            let ts = timestamp_text(i as nat, range_value(s, 0, 999) as nat);
            let s1 = xorshift(s);
            match incident_at(incidents@, i) {
                Some(k) => {
                    let inc = &incidents@[k];
                    let pos = first_position(inc.lines@, i);
                    &&& r@ == object_text(incident_fields(inc, pos, inc.lines.len() as int, ts, s1), false)
                    &&& final(rng).state() == line_state(inc.kind, pos, inc.lines.len() as int, s1)
                },
                None => {
                    &&& r@ == object_text(normal_fields(ts, s1), false)
                    &&& final(rng).state() == xorshift(xorshift(xorshift(xorshift(xorshift(xorshift(xorshift(s1)))))))
                },
            }
        }),
{
    let ghost s = old(rng).state();
    let n = i as u64;
    let ms = rng.next_range(0, 999);
    let mut ts = "2026-09-06T".to_owned();
    push_number(&mut ts, (n / 3600) % 24, 10, 2);
    ts.append(":");
    push_number(&mut ts, (n / 60) % 60, 10, 2);
    ts.append(":");
    push_number(&mut ts, n % 60, 10, 2);
    ts.append(".");
    push_number(&mut ts, ms, 10, 3);
    ts.append("Z");
    proof {
        lemma_incident_at_bounds(incidents@, i);
    }
    match find_incident(incidents, i) {
        Some(k) => incidents[k].generate_line(i, ts.as_str(), rng),
        None => {
            let ghost s1 = rng.state();
            let service = service_name(rng.next_range(0, 5));
            let message = normal_message(rng.next_range(0, 20));
            let endpoint = endpoint_name(rng.next_range(0, 10));
            let mut trace = "tr-".to_owned();
            let t = rng.next();
            push_number(&mut trace, t, 16, 16);
            let span = span_id(rng);
            let latency = rng.next_range(1, 50);
            let mut request = "req-".to_owned();
            let q = rng.next();
            push_number(&mut request, q & 0xFFFF_FFFF_FFFFu64, 16, 12);
            let mut fs: Vec<Field> = Vec::new();
            fs.push(text_value("timestamp", ts));
            fs.push(text_value("level", "INFO".to_owned()));
            fs.push(text_value("service", service.to_owned()));
            fs.push(text_value("message", message.to_owned()));
            fs.push(text_value("trace_id", trace));
            fs.push(text_value("span_id", span));
            fs.push(text_value("endpoint", endpoint.to_owned()));
            fs.push(number_value("latency_ms", latency));
            fs.push(text_value("request_id", request));
            proof {
                assert(fields_view(fs@) =~= normal_fields(
                    timestamp_text(i as nat, range_value(s, 0, 999) as nat),
                    s1,
                ));
            }
            render_object(&fs, false)
        },
    }
}


/// Two-digit zero-padded decimal text of a number below 100.
proof fn lemma_two_digits(h: nat)
    requires
        h < 100,
    ensures
        number_text(h, 10, 2) == seq![(48 + h / 10) as char, (48 + h % 10) as char],
{
    let d = digit_bytes(h, 10);
    if h < 10 {
        assert(d == seq![digit_byte(h)]);
        assert(padded_digit_bytes(h, 10, 2) =~= seq![48u8, (48 + h) as u8]);
    } else {
        assert(digit_bytes(h / 10, 10) == seq![digit_byte(h / 10)]);
        assert(d == seq![digit_byte(h / 10)].push(digit_byte(h % 10)));
        assert(padded_digit_bytes(h, 10, 2) =~= seq![(48 + h / 10) as u8, (48 + h % 10) as u8]);
    }
    assert(number_text(h, 10, 2) =~= seq![(48 + h / 10) as char, (48 + h % 10) as char]);
}

/// The clock of line `i`'s timestamp: the hour digits (positions 11 and
/// 12) read `(i / 3600) mod 24`, so the hour is always 00 to 23; the minute
/// digits (14 and 15) read `(i / 60) mod 60` and the second digits (17 and
/// 18) `i mod 60`; and the line a day (86400 lines) later carries the same
/// timestamp.
pub proof fn lemma_timestamp_clock(i: nat, ms: nat)
    ensures
        timestamp_text(i, ms).len() >= 19,
        timestamp_text(i, ms)[11] == (48 + (i / 3600) % 24 / 10) as char,
        timestamp_text(i, ms)[12] == (48 + (i / 3600) % 24 % 10) as char,
        '0' <= timestamp_text(i, ms)[11] <= '2',
        '0' <= timestamp_text(i, ms)[12] <= '9',
        timestamp_text(i, ms)[14] == (48 + (i / 60) % 60 / 10) as char,
        timestamp_text(i, ms)[15] == (48 + (i / 60) % 60 % 10) as char,
        timestamp_text(i, ms)[17] == (48 + i % 60 / 10) as char,
        timestamp_text(i, ms)[18] == (48 + i % 60 % 10) as char,
        timestamp_text(i + 86400, ms) == timestamp_text(i, ms),
{
    reveal_strlit("2026-09-06T");
    reveal_strlit(":");
    let h = (i / 3600) % 24;
    let m = (i / 60) % 60;
    let sec = i % 60;
    lemma_two_digits(h);
    lemma_two_digits(m);
    lemma_two_digits(sec);
    assert((i + 86400) / 3600 == i / 3600 + 24);
    assert(((i + 86400) / 3600) % 24 == h);
    assert((i + 86400) / 60 == i / 60 + 1440);
    assert(((i + 86400) / 60) % 60 == m);
    assert((i + 86400) % 60 == sec);
    let t = timestamp_text(i, ms);
    let a = "2026-09-06T"@ + number_text(h, 10, 2);
    assert(a.len() == 13);
    assert(t[11] == a[11]);
    assert(t[12] == a[12]);
    let b = a + ":"@ + number_text(m, 10, 2);
    assert(b.len() == 16);
    assert(t[14] == b[14]);
    assert(t[15] == b[15]);
    let c = b + ":"@ + number_text(sec, 10, 2);
    assert(c.len() == 19);
    assert(t[17] == c[17]);
    assert(t[18] == c[18]);
}

} // verus!

use logcompress::dataset::{dataset_line, kind_name, Incident, IncidentKind};
use logcompress::ground_truth::{build_ground_truth, serde_json_mini};
use logcompress::numfmt::push_number;
use logcompress::planner::{has_conflict, incident_kind, new_incident, IncidentPlanner, INCIDENT_COUNT};
use logcompress::render::{render_object, Field, FieldValue};
use logcompress::rng::SimpleRng;

/// xorshift64 written out independently.
fn step(s: u64) -> u64 {
    let mut x = s;
    x ^= x << 13;
    x ^= x >> 7;
    x ^= x << 17;
    x
}

struct Draws {
    s: u64,
}

impl Draws {
    fn next(&mut self) -> u64 {
        self.s = step(self.s);
        self.s
    }
    fn range(&mut self, lo: u64, hi: u64) -> u64 {
        if hi <= lo {
            lo
        } else {
            lo + self.next() % (hi - lo)
        }
    }
}

fn kinds() -> [IncidentKind; 5] {
    [
        IncidentKind::Timeout,
        IncidentKind::Oom,
        IncidentKind::Deadlock,
        IncidentKind::AuthFailure,
        IncidentKind::RateLimit,
    ]
}

const SERVICES: [&str; 5] = ["payment-gateway", "order-service", "user-auth", "inventory", "notification"];

/// The expected text of an incident line, written with `format!`.
fn expected_incident_line(inc: &Incident, pos: usize, ts: &str, d: &mut Draws) -> String {
    let total = inc.lines.len();
    let span = format!("sp-{:08x}", d.next() & 0xFFFFFFFF);
    let head = |level: &str, msg: &str| {
        format!(
            r#"{{"timestamp":"{}","level":"{}","service":"{}","message":"{}","trace_id":"{}","span_id":"{}","order_id":"{}""#,
            ts, level, inc.service, msg, inc.trace_id, span, inc.order_id
        )
    };
    let ep = r#","endpoint":"/api/v1/payments""#;
    let last = pos != 0 && pos == total - 1;
    match inc.kind {
        IncidentKind::Timeout => {
            if pos == 0 {
                format!("{}{},\"latency_ms\":{}}}", head("INFO", "Initiating payment request to gateway"), ep, d.range(5, 20))
            } else if last {
                let m = format!("Payment gateway timeout after 30000ms: connection to payment.provider.com timed out, order {} stuck in pending state", inc.order_id);
                format!("{},\"error_id\":\"err-timeout-{}\"{},\"latency_ms\":30000}}", head("ERROR", &m), inc.id, ep)
            } else if pos == total - 2 {
                format!("{}{},\"latency_ms\":{}}}", head("WARN", "Gateway response slow, approaching timeout threshold 30s"), ep, d.range(25000, 29000))
            } else {
                let l = d.range(1000, 5000);
                let m = format!("Retrying payment gateway connection, attempt {}", pos);
                format!("{}{},\"latency_ms\":{}}}", head("INFO", &m), ep, l)
            }
        }
        IncidentKind::Oom => {
            let heap = 512 + pos as u64 * 128;
            if pos == 0 {
                let m = format!("Heap usage elevated: {}MB / 2048MB, GC pressure increasing", heap);
                format!("{},\"heap_used_mb\":{}}}", head("WARN", &m), heap)
            } else if last {
                let m = "OutOfMemoryError: Java heap space exhausted, process killed by OOM killer, allocated 2048MB";
                format!("{},\"error_id\":\"err-oom-{}\",\"heap_used_mb\":2048}}", head("FATAL", m), inc.id)
            } else {
                let m = format!("Memory allocation spike: large batch processing {}MB heap, GC unable to free sufficient memory", heap);
                format!("{},\"heap_used_mb\":{}}}", head("WARN", &m), heap)
            }
        }
        IncidentKind::Deadlock => {
            if pos == 0 {
                let m = "Lock acquisition timeout: thread waiting for mutex on account_balance table";
                format!("{}{},\"latency_ms\":{}}}", head("WARN", m), ep, d.range(5000, 10000))
            } else if last {
                let m = format!("Deadlock detected: circular wait between transaction {} and concurrent update on account_balance, both threads blocked for >60s", inc.order_id);
                format!("{},\"error_id\":\"err-deadlock-{}\"{}}}", head("ERROR", &m), inc.id, ep)
            } else {
                let l = d.range(10000, 30000);
                let m = format!("Lock contention increasing: {} threads waiting for account_balance mutex", pos + 2);
                format!("{}{},\"latency_ms\":{}}}", head("WARN", &m), ep, l)
            }
        }
        IncidentKind::AuthFailure => {
            if pos == 0 {
                let m = "JWT token validation failed: signature mismatch for user session";
                format!("{},\"user_id\":\"usr-{}\"{}}}", head("WARN", m), d.range(10000, 99999), ep)
            } else if last {
                let m = format!("Authentication failure: invalid API key or expired token, payment {} rejected, possible credential compromise", inc.order_id);
                format!("{},\"error_id\":\"err-auth-{}\"{}}}", head("ERROR", &m), inc.id, ep)
            } else {
                let l = d.range(100, 500);
                let m = format!("Auth retry {}: re-validating credentials against auth service", pos);
                format!("{}{},\"latency_ms\":{}}}", head("WARN", &m), ep, l)
            }
        }
        IncidentKind::RateLimit => {
            if pos == 0 {
                let m = "Rate limit approaching: 5/1000 requests remaining in current window";
                format!("{}{},\"rate_limit_remaining\":5}}", head("WARN", m), ep)
            } else if last {
                let m = format!("Rate limit exceeded: 429 Too Many Requests from payment gateway, order {} queued, retry after 60s", inc.order_id);
                format!("{},\"error_id\":\"err-ratelimit-{}\"{},\"rate_limit_remaining\":0}}", head("ERROR", &m), inc.id, ep)
            } else {
                let l = d.range(1000, 5000);
                let m = format!("Rate limit throttling: request queued, position {} in backoff queue", pos);
                format!("{}{},\"latency_ms\":{}}}", head("WARN", &m), ep, l)
            }
        }
    }
}

fn sample_incident(id: usize, kind: IncidentKind, lines: Vec<usize>) -> Incident {
    Incident {
        id,
        kind,
        lines,
        trace_id: format!("tr-inc-{:04}-{:08x}", id, 0xdeadbeefu64),
        service: SERVICES[id % 5],
        order_id: format!("ord-{:06}", 100000 + id),
    }
}

/// The incidents placed by rejection sampling, written out independently.
fn expected_incidents(total_lines: usize, d: &mut Draws) -> Vec<(usize, Vec<usize>, String, String)> {
    let mut out = Vec::new();
    let mut used: Vec<usize> = Vec::new();
    for id in 0..50usize {
        let len = d.range(3, 7) as usize;
        let start = loop {
            let s = d.range(100, (total_lines - 100) as u64) as usize;
            let e = s + len;
            if !used.iter().any(|&p| s <= p + 10 && e >= p.saturating_sub(10)) {
                break s;
            }
        };
        let lines: Vec<usize> = (start..start + len).collect();
        used.extend(lines.iter().copied());
        let trace = format!("tr-inc-{:04}-{:08x}", id, d.next() & 0xFFFFFFFF);
        let order = format!("ord-{:06}", 100000 + id);
        out.push((id, lines, trace, order));
    }
    out
}

fn plan(total_lines: usize, seed: u64) -> (Vec<Incident>, SimpleRng) {
    let mut rng = SimpleRng::new(seed);
    let mut planner = IncidentPlanner::new(total_lines);
    let mut steps = 0usize;
    while !planner.step(&mut rng) {
        steps += 1;
        assert!(steps < 1_000_000);
    }
    (planner.into_incidents(), rng)
}

#[test]
fn rng_follows_xorshift() {
    let mut rng = SimpleRng::new(42);
    let mut d = Draws { s: 42 };
    for _ in 0..100 {
        assert_eq!(rng.next(), d.next());
    }
    let mut rng = SimpleRng::new(1);
    assert_eq!(rng.next(), 1082269761);
}

#[test]
fn rng_range_draws() {
    let mut rng = SimpleRng::new(7);
    assert_eq!(rng.next_range(5, 5), 5);
    assert_eq!(rng.next_range(9, 3), 9);
    // Empty ranges draw nothing.
    assert_eq!(rng.next(), step(7));
    let mut rng = SimpleRng::new(99);
    for _ in 0..1000 {
        let r = rng.next_range(100, 110);
        assert!((100..110).contains(&r));
    }
    let mut rng = SimpleRng::new(3);
    assert_eq!(rng.next_range(10, 20), 10 + step(3) % 10);
}

#[test]
fn numbers_render_like_format() {
    for n in [0u64, 7, 10, 1234567890, u64::MAX] {
        let mut s = String::new();
        push_number(&mut s, n, 10, 0);
        assert_eq!(s, n.to_string());
    }
    for (n, base, width) in [
        (0u64, 16u64, 8u64),
        (0xdeadbeef, 16, 8),
        (0xabc, 16, 8),
        (u64::MAX, 16, 16),
        (5, 10, 2),
        (42, 10, 4),
        (100042, 10, 6),
        (1234567, 10, 3),
        (0x1234_5678_9abc, 16, 12),
    ] {
        let mut s = String::from("x");
        push_number(&mut s, n, base, width);
        let expected = if base == 16 {
            format!("x{:0w$x}", n, w = width as usize)
        } else {
            format!("x{:0w$}", n, w = width as usize)
        };
        assert_eq!(s, expected);
    }
}

#[test]
fn objects_render_compact_and_spaced() {
    let fields = vec![
        Field { key: "a", value: FieldValue::Text("x y".to_string()) },
        Field { key: "n", value: FieldValue::Number(12) },
        Field { key: "f", value: FieldValue::Flag(true) },
        Field { key: "l", value: FieldValue::Numbers(vec![1, 20, 300]) },
        Field { key: "e", value: FieldValue::Numbers(vec![]) },
    ];
    assert_eq!(render_object(&fields, false), r#"{"a":"x y","n":12,"f":true,"l":[1, 20, 300],"e":[]}"#);
    assert_eq!(render_object(&fields, true), r#"{"a": "x y", "n": 12, "f": true, "l": [1, 20, 300], "e": []}"#);
    assert_eq!(render_object(&Vec::new(), true), "{}");
    let off = vec![Field { key: "k", value: FieldValue::Flag(false) }];
    assert_eq!(render_object(&off, false), r#"{"k":false}"#);
}

#[test]
fn kind_names_match_debug() {
    for k in kinds() {
        assert_eq!(kind_name(k), format!("{:?}", k));
    }
    for id in 0..12 {
        assert_eq!(incident_kind(id), kinds()[id % 5]);
    }
}

#[test]
fn incident_lines_match_reference() {
    let ts = "2026-09-06T01:02:03.456Z";
    for (id, kind) in kinds().iter().enumerate() {
        for total in 1..7usize {
            let inc = sample_incident(id + 10, *kind, (500..500 + total).collect());
            for pos in 0..total {
                let mut rng = SimpleRng::new(1000 + pos as u64);
                let mut d = Draws { s: 1000 + pos as u64 };
                let got = inc.generate_line(500 + pos, ts, &mut rng);
                let want = expected_incident_line(&inc, pos, ts, &mut d);
                assert_eq!(got, want, "{:?} pos {} of {}", kind, pos, total);
                // The generator has advanced by exactly the draws made.
                assert_eq!(rng.next(), d.next());
            }
        }
    }
}

#[test]
fn timeout_line_exact_text() {
    let inc = sample_incident(0, IncidentKind::Timeout, vec![200, 201, 202]);
    let mut rng = SimpleRng::new(1);
    let line = inc.timeout_line(2, 3, "T", &mut rng);
    assert_eq!(
        line,
        r#"{"timestamp":"T","level":"ERROR","service":"payment-gateway","message":"Payment gateway timeout after 30000ms: connection to payment.provider.com timed out, order ord-100000 stuck in pending state","trace_id":"tr-inc-0000-deadbeef","span_id":"sp-40822041","order_id":"ord-100000","error_id":"err-timeout-0","endpoint":"/api/v1/payments","latency_ms":30000}"#
    );
}

#[test]
fn oom_heap_grows_per_line() {
    let inc = sample_incident(1, IncidentKind::Oom, vec![300, 301, 302, 303]);
    let mut rng = SimpleRng::new(5);
    let first = inc.oom_line(0, 4, "T", &mut rng);
    assert!(first.contains("\"heap_used_mb\":512}"));
    let second = inc.oom_line(1, 4, "T", &mut rng);
    assert!(second.contains("processing 640MB heap"));
    let last = inc.oom_line(3, 4, "T", &mut rng);
    assert!(last.contains("\"level\":\"FATAL\""));
    assert!(last.contains("\"error_id\":\"err-oom-1\""));
}

#[test]
fn planner_matches_reference_seed_42() {
    let (incidents, _) = plan(100_000, 42);
    let mut d = Draws { s: 42 };
    let expected = expected_incidents(100_000, &mut d);
    assert_eq!(incidents.len(), INCIDENT_COUNT);
    for (inc, (id, lines, trace, order)) in incidents.iter().zip(expected.iter()) {
        assert_eq!(inc.id, *id);
        assert_eq!(inc.kind, kinds()[id % 5]);
        assert_eq!(&inc.lines, lines);
        assert_eq!(&inc.trace_id, trace);
        assert_eq!(&inc.order_id, order);
        assert_eq!(inc.service, SERVICES[id % 5]);
    }
}

#[test]
fn planner_sizes_seed_42() {
    // The incident sizes of the published benchmark run.
    let sizes = [
        5, 3, 6, 4, 6, 6, 6, 5, 6, 5, 4, 3, 6, 4, 4, 6, 5, 3, 3, 4, 4, 6, 3, 5, 5, 6, 4, 6, 4, 4, 5, 5, 5, 4,
        4, 6, 5, 6, 3, 6, 5, 3, 5, 3, 4, 5, 4, 3, 5, 3,
    ];
    let (incidents, _) = plan(100_000, 42);
    let got: Vec<usize> = incidents.iter().map(|i| i.lines.len()).collect();
    assert_eq!(got, sizes.to_vec());
    let per_kind: Vec<usize> = kinds()
        .iter()
        .map(|k| incidents.iter().filter(|i| i.kind == *k).map(|i| i.lines.len()).sum())
        .collect();
    assert_eq!(per_kind, vec![52, 44, 48, 41, 45]);
}

#[test]
fn planned_incidents_stay_apart() {
    for seed in [1u64, 42, 7777] {
        let (incidents, _) = plan(5_000, seed);
        for (i, a) in incidents.iter().enumerate() {
            assert!(a.lines.len() >= 3 && a.lines.len() < 7);
            assert!(a.lines[0] >= 100 && a.lines[0] < 4_900);
            for b in incidents.iter().skip(i + 1) {
                for &x in &a.lines {
                    for &y in &b.lines {
                        assert!(x > y + 10 || y > x + 10);
                    }
                }
            }
        }
    }
}

#[test]
fn planner_step_keeps_length_after_conflict() {
    // With only line 100 available every start is 100, so the second
    // incident can never be placed and keeps its drawn length.
    let mut rng = SimpleRng::new(9);
    let mut planner = IncidentPlanner::new(150);
    assert!(!planner.step(&mut rng));
    for _ in 0..5 {
        assert!(!planner.step(&mut rng));
    }
    let incidents = planner.into_incidents();
    assert_eq!(incidents.len(), 1);
    assert_eq!(incidents[0].lines[0], 100);
}

#[test]
fn conflict_window_is_ten_lines() {
    let used = vec![500usize];
    assert!(has_conflict(&used, 510, 513));
    assert!(!has_conflict(&used, 511, 514));
    assert!(has_conflict(&used, 487, 490));
    assert!(!has_conflict(&used, 486, 489));
    assert!(has_conflict(&[5], 0, 3));
    assert!(!has_conflict(&[], 0, 3));
}

#[test]
fn new_incident_formats_ids() {
    let mut rng = SimpleRng::new(42);
    let inc = new_incident(7, 1000, 4, &mut rng);
    assert_eq!(inc.lines, vec![1000, 1001, 1002, 1003]);
    assert_eq!(inc.kind, IncidentKind::Deadlock);
    assert_eq!(inc.service, "user-auth");
    assert_eq!(inc.order_id, "ord-100007");
    assert_eq!(inc.trace_id, format!("tr-inc-0007-{:08x}", step(42) & 0xFFFFFFFF));
}

#[test]
fn dataset_lines_match_reference() {
    let total = 3_000usize;
    let (incidents, mut rng) = plan(total, 42);
    let mut d = Draws { s: 42 };
    let _ = expected_incidents(total, &mut d);
    let endpoints = [
        "/api/v1/payments", "/api/v1/orders", "/api/v1/users", "/api/v1/inventory", "/api/v1/notifications",
        "/api/v1/health", "/api/v2/checkout", "/api/v1/refunds", "/api/v1/webhooks", "/internal/metrics",
    ];
    let messages = [
        "Health check passed", "Request processed successfully", "Cache hit for session lookup",
        "Database connection pool: 12/50 active", "Metrics exported to prometheus", "gRPC keepalive sent",
        "TLS handshake completed", "Rate limiter: 847/1000 tokens remaining", "Config reload: no changes detected",
        "Upstream latency p99: 12ms", "Queue depth: 3 messages pending", "Worker thread pool: 8/16 busy",
        "DNS resolution cached for payment.provider.com", "Load balancer health: all backends UP",
        "Garbage collection: 2.1ms pause", "Connection recycled after 300s idle", "Span exported to Jaeger",
        "Feature flag evaluated: dark_launch=false", "Circuit breaker: closed (0 failures)", "Batch write: 50 rows in 3ms",
    ];
    let mut incident_lines = 0;
    for i in 0..total {
        let got = dataset_line(i, &incidents, &mut rng);
        let ts = format!(
            "2026-09-06T{:02}:{:02}:{:02}.{:03}Z",
            (i / 3600) % 24,
            (i / 60) % 60,
            i % 60,
            d.range(0, 999)
        );
        let want = if let Some(inc) = incidents.iter().rev().find(|inc| inc.lines.contains(&i)) {
            incident_lines += 1;
            let pos = inc.lines.iter().position(|&l| l == i).unwrap();
            expected_incident_line(inc, pos, &ts, &mut d)
        } else {
            let service = SERVICES[d.range(0, 5) as usize];
            let msg = messages[d.range(0, 20) as usize];
            let endpoint = endpoints[d.range(0, 10) as usize];
            let trace_id = format!("tr-{:016x}", d.next());
            let span_id = format!("sp-{:08x}", d.next() & 0xFFFFFFFF);
            let latency = d.range(1, 50);
            format!(
                r#"{{"timestamp":"{}","level":"INFO","service":"{}","message":"{}","trace_id":"{}","span_id":"{}","endpoint":"{}","latency_ms":{},"request_id":"req-{:012x}"}}"#,
                ts, service, msg, trace_id, span_id, endpoint, latency,
                d.next() & 0xFFFFFFFFFFFF
            )
        };
        assert_eq!(got, want, "line {}", i);
    }
    assert!(incident_lines >= 150);
}

#[test]
fn ground_truth_matches_reference() {
    let incidents = vec![
        sample_incident(0, IncidentKind::Timeout, vec![900, 901, 902]),
        sample_incident(1, IncidentKind::Oom, vec![120, 121, 122, 123]),
        sample_incident(2, IncidentKind::Timeout, vec![400, 401, 402, 403, 404]),
    ];
    let gt = build_ground_truth(&incidents);
    let mut entries = Vec::new();
    let queries = [
        "payment gateway timeout ord-100000",
        "OutOfMemoryError OOM heap exhausted ord-100001",
        "payment gateway timeout ord-100002",
    ];
    for (inc, q) in incidents.iter().zip(queries.iter()) {
        let nums: Vec<String> = inc.lines.iter().map(|l| (l + 1).to_string()).collect();
        entries.push(format!(
            r#"    {{"query": "{}", "incident_id": {}, "incident_kind": "{:?}", "expected_lines": [{}], "trace_id": "{}", "order_id": "{}"}}"#,
            q, inc.id, inc.kind, nums.join(", "), inc.trace_id, inc.order_id
        ));
    }
    entries.push(r#"    {"query": "timeout payment gateway connection timed out", "aggregate": true, "incident_ids": [0, 2], "incident_kind": "Timeout", "expected_lines": [401, 402, 403, 404, 405, 901, 902, 903]}"#.to_string());
    entries.push(r#"    {"query": "OOM OutOfMemoryError heap memory killed", "aggregate": true, "incident_ids": [1], "incident_kind": "Oom", "expected_lines": [121, 122, 123, 124]}"#.to_string());
    entries.push(r#"    {"query": "deadlock mutex circular wait threads blocked", "aggregate": true, "incident_ids": [], "incident_kind": "Deadlock", "expected_lines": []}"#.to_string());
    entries.push(r#"    {"query": "auth failure invalid token JWT credential", "aggregate": true, "incident_ids": [], "incident_kind": "AuthFailure", "expected_lines": []}"#.to_string());
    entries.push(r#"    {"query": "rate limit 429 Too Many Requests throttle", "aggregate": true, "incident_ids": [], "incident_kind": "RateLimit", "expected_lines": []}"#.to_string());
    let want = format!("[\n{}\n]", entries.join(",\n"));
    assert_eq!(gt, want);
    assert_eq!(serde_json_mini(&gt), gt);
}

#[test]
fn ground_truth_of_no_incidents() {
    let gt = build_ground_truth(&[]);
    assert!(gt.starts_with("[\n    {\"query\": \"timeout payment gateway"));
    assert_eq!(gt.matches("\"aggregate\": true").count(), 5);
    assert!(gt.ends_with("\"expected_lines\": []}\n]"));
}

#[test]
fn ground_truth_seed_42_aggregates_sorted() {
    let (incidents, _) = plan(100_000, 42);
    let gt = build_ground_truth(&incidents);
    let lines: Vec<&str> = gt.lines().collect();
    assert_eq!(lines.len(), 50 + 5 + 2);
    for agg in &lines[51..56] {
        let start = agg.find("\"expected_lines\": [").unwrap() + "\"expected_lines\": [".len();
        let end = agg.rfind(']').unwrap();
        let nums: Vec<usize> = agg[start..end].split(", ").map(|s| s.parse().unwrap()).collect();
        let mut sorted = nums.clone();
        sorted.sort();
        assert_eq!(nums, sorted);
    }
}

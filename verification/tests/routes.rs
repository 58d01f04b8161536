use oxide_engine::http::dispatch;
use oxide_engine::http::error_handler;
use oxide_engine::http::health_check;
use oxide_engine::http::root_handler;
use oxide_engine::middleware::process_request;
use oxide_engine::middleware::RequestOutcome;
use oxide_engine::middleware::MAX_BODY_BYTES;
use oxide_engine::middleware::REQUEST_TIMEOUT_MS;

#[test]
fn root_returns_ok_with_banner() {
    let r = root_handler();
    assert_eq!(r.status, 200);
    assert_eq!(r.body, "OxideEngine Running");
}

#[test]
fn health_returns_ok_healthy() {
    let r = health_check();
    assert_eq!(r.status, 200);
    assert_eq!(r.body, "Healthy");
}

#[test]
fn error_route_always_fails() {
    let r = error_handler();
    assert_eq!(r.status, 500);
    assert_eq!(r.body, "Server Error");
}

#[test]
fn dispatch_matches_the_route_table() {
    let r = dispatch("/").unwrap();
    assert_eq!((r.status, r.body), (200, "OxideEngine Running"));
    let r = dispatch("/health").unwrap();
    assert_eq!((r.status, r.body), (200, "Healthy"));
    let r = dispatch("/error").unwrap();
    assert_eq!((r.status, r.body), (500, "Server Error"));
}

#[test]
fn dispatch_rejects_unknown_paths() {
    assert!(dispatch("").is_none());
    assert!(dispatch("/nope").is_none());
    assert!(dispatch("/health/").is_none());
    assert!(dispatch("/Health").is_none());
    assert!(dispatch("health").is_none());
}

#[test]
fn limits_have_the_documented_values() {
    assert_eq!(MAX_BODY_BYTES, 1048576);
    assert_eq!(REQUEST_TIMEOUT_MS, 10000);
}

#[test]
fn request_within_limits_reaches_the_handler() {
    match process_request("/health", 0, 0) {
        RequestOutcome::Reply(h) => {
            assert_eq!(h.status, 200);
            assert_eq!(h.body, "Healthy");
        }
        _ => panic!("expected a handler reply"),
    }
    match process_request("/", MAX_BODY_BYTES, REQUEST_TIMEOUT_MS) {
        RequestOutcome::Reply(h) => {
            assert_eq!(h.status, 200);
            assert_eq!(h.body, "OxideEngine Running");
        }
        _ => panic!("expected a handler reply"),
    }
    match process_request("/error", 12, 3) {
        RequestOutcome::Reply(h) => {
            assert_eq!(h.status, 500);
            assert_eq!(h.body, "Server Error");
        }
        _ => panic!("expected a handler reply"),
    }
}

#[test]
fn oversized_body_is_rejected_on_every_route() {
    for path in ["/", "/health", "/error", "/nope"] {
        let out = process_request(path, MAX_BODY_BYTES + 1, 0);
        assert!(matches!(out, RequestOutcome::PayloadTooLarge));
    }
}

#[test]
fn oversized_body_is_rejected_before_the_timeout() {
    let out = process_request("/", MAX_BODY_BYTES + 1, REQUEST_TIMEOUT_MS + 1);
    assert!(matches!(out, RequestOutcome::PayloadTooLarge));
}

#[test]
fn slow_request_times_out() {
    let out = process_request("/", 0, REQUEST_TIMEOUT_MS + 1);
    assert!(matches!(out, RequestOutcome::TimedOut));
    let out = process_request("/nope", 0, u64::MAX);
    assert!(matches!(out, RequestOutcome::TimedOut));
}

#[test]
fn unknown_path_within_limits_is_not_found() {
    let out = process_request("/nope", 0, 0);
    assert!(matches!(out, RequestOutcome::NotFound));
}

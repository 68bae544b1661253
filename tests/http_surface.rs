use globalrts::date::{date_parts, is_leap_year};
use globalrts::http::{
    classify_request, content_length, mime_type, pair_confirm, parse_usize, pair_request, parse_query_string, route_api,
    status_text, urlencoded_decode, ApiCall, ApiReply, Route,
};
use globalrts::store::StateDb;

#[test]
fn mime_types_by_extension() {
    assert_eq!(mime_type("/globalui.html"), "text/html");
    assert_eq!(mime_type("/a/b.min.js"), "application/javascript");
    assert_eq!(mime_type("/img/x.JPG"), "application/octet-stream");
    assert_eq!(mime_type("/img/x.jpeg"), "image/jpeg");
    assert_eq!(mime_type("/fonts/f.woff2"), "font/woff2");
    assert_eq!(mime_type("/noext"), "application/octet-stream");
}

#[test]
fn url_decoding() {
    assert_eq!(urlencoded_decode("a+b%20c%41"), "a b cA");
    assert_eq!(urlencoded_decode("%zzq"), "q");
    assert_eq!(urlencoded_decode("%4"), "\u{4}");
    assert_eq!(urlencoded_decode("%+5x"), "\u{5}x");
    assert_eq!(urlencoded_decode("%e9"), "\u{e9}");
    assert_eq!(urlencoded_decode(""), "");
}

#[test]
fn query_pairs_in_order() {
    let q = parse_query_string("a=1&b=x%20y&c&d=e=f");
    assert_eq!(
        q,
        vec![
            ("a".to_string(), "1".to_string()),
            ("b".to_string(), "x y".to_string()),
            ("d".to_string(), "e=f".to_string()),
        ]
    );
    assert!(parse_query_string("").is_empty());
}

#[test]
fn upgrade_requests_go_to_websocket() {
    assert!(matches!(classify_request("GET / HTTP/1.1\r\nUPGRADE: WebSocket\r\n\r\n"), Route::WebSocket));
    assert!(matches!(classify_request("GET / HTTP/1.1\r\nupgrade: websocket"), Route::WebSocket));
    assert!(matches!(
        classify_request("GET / HTTP/1.1\r\nX-Note: upgrade: websocket\r\n\r\n"),
        Route::Static(_)
    ));
}

#[test]
fn request_line_routing() {
    assert!(matches!(classify_request("GET\r\n\r\n"), Route::BadRequest));
    match classify_request("POST /api/pair/request?x=1 HTTP/1.1\r\nHost: a\r\n\r\n") {
        Route::Api { method, path } => {
            assert_eq!(method, "POST");
            assert_eq!(path, "/api/pair/request");
        }
        _ => panic!("expected the API"),
    }
    assert!(matches!(classify_request("POST /index.html HTTP/1.1\r\n\r\n"), Route::MethodNotAllowed));
    assert!(matches!(classify_request("GET / HTTP/1.1\r\n\r\n"), Route::Static(p) if p == "/globalui.html"));
    assert!(matches!(classify_request("GET /../etc/passwd?q HTTP/1.1\r\n\r\n"), Route::Static(p) if p == "//etc/passwd"));
}

#[test]
fn api_routes() {
    assert!(matches!(route_api("OPTIONS", "/api/anything"), ApiCall::Preflight));
    assert!(matches!(route_api("GET", "/api/pair/requests"), ApiCall::ListRequests));
    assert!(matches!(route_api("POST", "/api/pair/request"), ApiCall::RequestPairing));
    assert!(matches!(route_api("POST", "/api/pair/confirm"), ApiCall::ConfirmPairing));
    assert!(matches!(route_api("GET", "/api/devices"), ApiCall::ListDevices));
    assert!(matches!(route_api("DELETE", "/api/pair/r1"), ApiCall::DeletePairing(d) if d == "r1"));
    assert!(matches!(route_api("DELETE", "/api/devices/r1"), ApiCall::DeleteDevice(d) if d == "r1"));
    assert!(matches!(route_api("GET", "/api/oura/x"), ApiCall::NotFound));
}

#[test]
fn pairing_over_the_api() {
    let mut db = StateDb::new();
    let r = pair_request(&mut db, Some("r1".into()), Some("Alpha".into()), Some("robot".into()), 1000, 11);
    assert!(matches!(&r, ApiReply::Pending { device_id } if device_id == "r1"));
    let code = db.requests[0].code.clone();
    let r = pair_confirm(&mut db, Some("r1".into()), Some(code.to_lowercase()), 1010, 5);
    match r {
        ApiReply::Paired { token, device_id } => {
            assert_eq!(device_id, "r1");
            assert_eq!(token.len(), 64);
            assert_eq!(db.validate_token(&token), Some("r1".to_string()));
        }
        _ => panic!("expected a token"),
    }
}

#[test]
fn expired_code_over_the_api() {
    let mut db = StateDb::new();
    pair_request(&mut db, Some("r1".into()), Some("Alpha".into()), Some("robot".into()), 1000, 11);
    let code = db.requests[0].code.clone();
    let r = pair_confirm(&mut db, Some("r1".into()), Some(code), 1301, 5);
    assert!(matches!(&r, ApiReply::Error { status: 400, message } if message == "Invalid or expired code"));
}

#[test]
fn api_input_errors() {
    let mut db = StateDb::new();
    let r = pair_request(&mut db, None, None, None, 1000, 1);
    assert!(matches!(&r, ApiReply::Error { status: 400, message } if message == "device_id required"));
    let r = pair_request(&mut db, Some("x".into()), None, None, 1000, 1);
    assert!(matches!(&r, ApiReply::Pending { .. }));
    assert_eq!(db.requests[0].name, "Unknown Device");
    assert_eq!(db.requests[0].device_type, "unknown");
    let r = pair_confirm(&mut db, Some("x".into()), Some(String::new()), 1000, 1);
    assert!(matches!(&r, ApiReply::Error { status: 400, message } if message == "device_id and code required"));
}

#[test]
fn reason_phrases() {
    assert_eq!(status_text(200), "OK");
    assert_eq!(status_text(404), "Not Found");
    assert_eq!(status_text(418), "Unknown");
}

#[test]
fn calendar_dates() {
    assert_eq!(date_parts(0), (1970, 1, 1));
    assert_eq!(date_parts(951_782_400), (2000, 2, 29));
    assert_eq!(date_parts(1_700_000_000), (2023, 11, 14));
    assert_eq!(date_parts(1_704_067_199), (2023, 12, 31));
    assert_eq!(date_parts(1_704_067_200), (2024, 1, 1));
    assert!(is_leap_year(2000));
    assert!(is_leap_year(2024));
    assert!(!is_leap_year(1900));
    assert!(!is_leap_year(2023));
}

#[test]
fn content_length_header() {
    assert_eq!(content_length("POST /x HTTP/1.1\r\nHost: a\r\nContent-Length: 42\r\n\r\n"), 42);
    assert_eq!(content_length("POST /x HTTP/1.1\r\ncontent-LENGTH:  +7 \r\n\r\n"), 7);
    assert_eq!(content_length("POST /x HTTP/1.1\r\nContent-Length: x\r\n\r\n"), 0);
    assert_eq!(content_length("GET / HTTP/1.1\r\n\r\n"), 0);
    assert_eq!(parse_usize("18446744073709551615"), Some(usize::MAX));
    assert_eq!(parse_usize("18446744073709551616"), None);
    assert_eq!(parse_usize("+"), None);
    assert_eq!(parse_usize("-1"), None);
    assert_eq!(parse_usize(""), None);
    assert_eq!(parse_usize("007"), Some(7));
}

#[test]
fn token_collision_over_the_api() {
    let mut db = StateDb::new();
    pair_request(&mut db, Some("a".into()), None, None, 1000, 1);
    let code = db.requests[0].code.clone();
    assert!(matches!(pair_confirm(&mut db, Some("a".into()), Some(code), 1001, 5), ApiReply::Paired { .. }));
    pair_request(&mut db, Some("b".into()), None, None, 1000, 2);
    let code = db.requests[0].code.clone();
    let r = pair_confirm(&mut db, Some("b".into()), Some(code), 1001, 5);
    assert!(matches!(&r, ApiReply::Error { status: 400, message } if message == "Token already in use"));
}

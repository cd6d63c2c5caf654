//! Tests for the discovery library: the parser, the renderer, the engine's
//! folding of probe outcomes, and the live probe paths.

use whatsmyip::{MyIp, WhatsMyIp, ip_from_str, http_providers, http_ip_txt};
use whatsmyip::engine::{collect_results, ip_from_http_response, whatsmyip, PROVIDER_COUNT};

/// Probes every registered provider end to end. Without a route to the
/// internet every probe fails with a transport error; with one, each
/// success must be an address whose canonical text parses back to itself.
#[test]
fn test_http_providers() {
    let w = WhatsMyIp::new();
    let providers = http_providers();
    assert_eq!(providers.len(), PROVIDER_COUNT);
    for url in &providers {
        match http_ip_txt(&w, url.as_str()) {
            Ok(ip) => {
                let text = ip.render();
                assert_eq!(ip_from_str(text.as_str()), Ok(ip));
            },
            Err(err) => assert!(!err.is_empty()),
        }
    }
}

#[test]
fn registry_urls() {
    let providers = http_providers();
    assert_eq!(providers.len(), 4);
    assert_eq!(providers[0], "http://icanhazip.com");
    assert_eq!(providers[1], "http://myip.dnsomatic.com");
    assert_eq!(providers[2], "http://bot.whatismyipaddress.com/");
    assert_eq!(providers[3], "https://api.ipify.org?format=text");
}

// ---------------------------------------------------------------------------
// Parsing and rendering
// ---------------------------------------------------------------------------

#[test]
fn parse_v4_plain() {
    assert_eq!(ip_from_str("203.0.113.5"), Ok(MyIp::V4(203, 0, 113, 5)));
    assert_eq!(ip_from_str("0.0.0.0"), Ok(MyIp::V4(0, 0, 0, 0)));
    assert_eq!(ip_from_str("255.255.255.255"), Ok(MyIp::V4(255, 255, 255, 255)));
}

#[test]
fn parse_v4_with_whitespace() {
    assert_eq!(ip_from_str("  198.51.100.7\n"), Ok(MyIp::V4(198, 51, 100, 7)));
    assert_eq!(ip_from_str("\t10.0.0.1 "), Ok(MyIp::V4(10, 0, 0, 1)));
}

#[test]
fn parse_v4_rejects() {
    assert!(ip_from_str("256.1.1.1").is_err());
    assert!(ip_from_str("1.2.3").is_err());
    assert!(ip_from_str("1.2.3.4.5").is_err());
    assert!(ip_from_str("1..2.3").is_err());
    assert!(ip_from_str("1.2.3.x").is_err());
    assert!(ip_from_str("01.2.3.4").is_err());
}

#[test]
fn parse_v6_forms() {
    assert_eq!(
        ip_from_str("2001:db8:0:0:0:ff00:42:8329"),
        Ok(MyIp::V6(0x2001, 0xdb8, 0, 0, 0, 0xff00, 0x42, 0x8329))
    );
    assert_eq!(
        ip_from_str("2001:db8::ff00:42:8329"),
        Ok(MyIp::V6(0x2001, 0xdb8, 0, 0, 0, 0xff00, 0x42, 0x8329))
    );
    assert_eq!(ip_from_str("::1"), Ok(MyIp::V6(0, 0, 0, 0, 0, 0, 0, 1)));
    assert_eq!(ip_from_str("1::"), Ok(MyIp::V6(1, 0, 0, 0, 0, 0, 0, 0)));
    assert_eq!(ip_from_str("::"), Ok(MyIp::V6(0, 0, 0, 0, 0, 0, 0, 0)));
    assert_eq!(ip_from_str("FFFF::ABCD"), Ok(MyIp::V6(0xffff, 0, 0, 0, 0, 0, 0, 0xabcd)));
}

#[test]
fn parse_v6_embedded_dotted_quad() {
    assert_eq!(
        ip_from_str("::ffff:1.2.3.4"),
        Ok(MyIp::V6(0, 0, 0, 0, 0, 0xffff, 0x0102, 0x0304))
    );
    assert_eq!(ip_from_str("::1.2.3.4"), Ok(MyIp::V6(0, 0, 0, 0, 0, 0, 0x0102, 0x0304)));
    assert_eq!(
        ip_from_str("64:ff9b::192.0.2.33"),
        Ok(MyIp::V6(0x64, 0xff9b, 0, 0, 0, 0, 0xc000, 0x0221))
    );
    assert_eq!(
        ip_from_str("1:2:3:4:5:6:7.8.9.10"),
        Ok(MyIp::V6(1, 2, 3, 4, 5, 6, 0x0708, 0x090a))
    );
    assert!(ip_from_str("::ffff:1.2.3.4.5").is_err());
    assert!(ip_from_str("1:2:3:4:5:6:7:1.2.3.4").is_err());
    assert!(ip_from_str("1.2.3.4::").is_err());
}

#[test]
fn parse_unicode_whitespace() {
    assert_eq!(ip_from_str("\u{00A0}198.51.100.7\u{2003}"), Ok(MyIp::V4(198, 51, 100, 7)));
    assert_eq!(ip_from_str("\u{000C}::1\u{3000}"), Ok(MyIp::V6(0, 0, 0, 0, 0, 0, 0, 1)));
}

#[test]
fn parse_v6_rejects() {
    assert!(ip_from_str(":::").is_err());
    assert!(ip_from_str("1:2:3:4:5:6:7").is_err());
    assert!(ip_from_str("1:2:3:4:5:6:7:8:9").is_err());
    assert!(ip_from_str("12345::").is_err());
    assert!(ip_from_str("g::1").is_err());
    assert!(ip_from_str(":1:2:3:4:5:6:7").is_err());
}

#[test]
fn parse_error_names_the_text() {
    match ip_from_str("not an ip") {
        Err(msg) => assert_eq!(msg, "Invalid IP address not an ip"),
        Ok(_) => panic!("parse should fail"),
    }
}

#[test]
fn render_v4() {
    assert_eq!(MyIp::V4(203, 0, 113, 5).render(), "203.0.113.5");
    assert_eq!(MyIp::V4(0, 0, 0, 0).render(), "0.0.0.0");
    assert_eq!(MyIp::V4(255, 255, 255, 255).render(), "255.255.255.255");
}

#[test]
fn render_v6() {
    assert_eq!(
        MyIp::V6(0x2001, 0xdb8, 0, 0, 0, 0xff00, 0x42, 0x8329).render(),
        "2001:db8::ff00:42:8329"
    );
    assert_eq!(MyIp::V6(0, 0, 0, 0, 0, 0, 0, 1).render(), "::1");
    assert_eq!(MyIp::V6(1, 0, 0, 0, 0, 0, 0, 0).render(), "1::");
    assert_eq!(MyIp::V6(0, 0, 0, 0, 0, 0, 0, 0).render(), "::");
    assert_eq!(
        MyIp::V6(0xffff, 0xffff, 0xffff, 0xffff, 0xffff, 0xffff, 0xffff, 0xffff).render(),
        "ffff:ffff:ffff:ffff:ffff:ffff:ffff:ffff"
    );
    // a single zero group is never compressed
    assert_eq!(MyIp::V6(1, 0, 2, 3, 4, 5, 6, 7).render(), "1:0:2:3:4:5:6:7");
    // on ties the leftmost run is compressed
    assert_eq!(MyIp::V6(1, 0, 0, 2, 0, 0, 3, 4).render(), "1::2:0:0:3:4");
    // the longest run wins, wherever it stands
    assert_eq!(MyIp::V6(1, 0, 0, 2, 0, 0, 0, 3).render(), "1:0:0:2::3");
    // IPv4-mapped and IPv4-compatible addresses keep their dotted quad
    assert_eq!(MyIp::V6(0, 0, 0, 0, 0, 0xffff, 0x0102, 0x0304).render(), "::ffff:1.2.3.4");
    assert_eq!(MyIp::V6(0, 0, 0, 0, 0, 0, 0x0102, 0x0304).render(), "::1.2.3.4");
    assert_eq!(MyIp::V6(0, 0, 0, 0, 0, 0xffff, 0, 0).render(), "::ffff:0.0.0.0");
}

#[test]
fn round_trip_canonical_text() {
    let cases = vec![
        MyIp::V4(203, 0, 113, 5),
        MyIp::V4(0, 0, 0, 0),
        MyIp::V6(0x2001, 0xdb8, 0, 0, 0, 0xff00, 0x42, 0x8329),
        MyIp::V6(0, 0, 0, 0, 0, 0, 0, 0),
        MyIp::V6(0, 0, 0, 0, 0, 0, 0, 1),
        MyIp::V6(1, 0, 2, 3, 4, 5, 6, 7),
        MyIp::V6(0, 0, 0, 0, 0, 0xffff, 0xc633, 0x6407),
        MyIp::V6(0, 0, 0, 0, 0, 0, 0xc633, 0x6407),
    ];
    for ip in cases {
        let text = ip.render();
        assert_eq!(ip_from_str(text.as_str()), Ok(ip));
        let padded = format!("  {}\n", text);
        assert_eq!(ip_from_str(padded.as_str()), Ok(ip));
        assert_eq!(ip_from_str(text.as_str()).unwrap().render(), text);
    }
}

// ---------------------------------------------------------------------------
// The HTTP response reading
// ---------------------------------------------------------------------------

#[test]
fn response_body_with_whitespace_parses() {
    assert_eq!(
        ip_from_http_response(200, "  198.51.100.7\n"),
        Ok(MyIp::V4(198, 51, 100, 7))
    );
}

#[test]
fn response_non_success_status_fails() {
    assert!(ip_from_http_response(500, "1.2.3.4").is_err());
    assert!(ip_from_http_response(404, "1.2.3.4").is_err());
    assert!(ip_from_http_response(204, "").is_err());
}

#[test]
fn transport_error_carries_status() {
    match ip_from_http_response(503, "1.2.3.4") {
        Err(msg) => assert_eq!(msg, "unexpected HTTP status 503"),
        Ok(_) => panic!("a non-success status must fail"),
    }
}

#[test]
fn probe_parse_error_names_the_text() {
    match ip_from_http_response(200, "<html>oops</html>") {
        Err(msg) => assert_eq!(msg, "Invalid IP address <html>oops</html>"),
        Ok(_) => panic!("an unparsable body must fail"),
    }
}

// ---------------------------------------------------------------------------
// The engine's folding of outcomes
// ---------------------------------------------------------------------------

#[test]
fn aggregate_failure_when_all_fail() {
    // gateway disabled or failed, two consulted providers both fail
    let outs: Vec<Option<MyIp>> = vec![None, None];
    match collect_results(None, false, &outs) {
        Err(msg) => assert_eq!(msg, "Unable to find any IP address"),
        Ok(_) => panic!("no source succeeded, so the engine must fail"),
    }
}

#[test]
fn fast_mode_stops_at_gateway() {
    // the gateway answered; fast mode returns it alone, later outcomes
    // (which would add other addresses) are never consulted
    let outs: Vec<Option<MyIp>> = vec![Some(MyIp::V4(9, 9, 9, 9)), Some(MyIp::V4(8, 8, 8, 8))];
    let r = collect_results(Some(MyIp::V4(203, 0, 113, 5)), true, &outs);
    assert_eq!(r, Ok(vec![MyIp::V4(203, 0, 113, 5)]));
}

#[test]
fn fast_mode_stops_at_first_http_success() {
    let outs: Vec<Option<MyIp>> = vec![
        None,
        Some(MyIp::V4(198, 51, 100, 7)),
        Some(MyIp::V4(8, 8, 8, 8)),
    ];
    let r = collect_results(None, true, &outs);
    assert_eq!(r, Ok(vec![MyIp::V4(198, 51, 100, 7)]));
}

#[test]
fn failed_provider_is_skipped() {
    // a failing provider does not fail the call; the engine proceeds
    let outs: Vec<Option<MyIp>> = vec![None, Some(MyIp::V4(198, 51, 100, 7))];
    let r = collect_results(None, false, &outs);
    assert_eq!(r, Ok(vec![MyIp::V4(198, 51, 100, 7)]));
}

#[test]
fn no_duplicates_in_results() {
    let ip = MyIp::V4(203, 0, 113, 5);
    let other = MyIp::V4(198, 51, 100, 7);
    let outs: Vec<Option<MyIp>> = vec![Some(ip), Some(other), Some(other), Some(ip)];
    let r = collect_results(Some(ip), false, &outs);
    assert_eq!(r, Ok(vec![ip, other]));
}

#[test]
fn gateway_first_in_order() {
    let gw = MyIp::V4(10, 0, 0, 1);
    let outs: Vec<Option<MyIp>> = vec![Some(MyIp::V4(1, 1, 1, 1))];
    let r = collect_results(Some(gw), false, &outs);
    assert_eq!(r, Ok(vec![gw, MyIp::V4(1, 1, 1, 1)]));
}

#[test]
fn http_limit_is_clamped() {
    // any requested cap lands in [0, registry size]; None resets to all
    assert_eq!(WhatsMyIp::new().http_count(), 4);
    assert_eq!(WhatsMyIp::new().http_limit(Some(100)).http_count(), 4);
    assert_eq!(WhatsMyIp::new().http_limit(Some(2)).http_count(), 2);
    assert_eq!(WhatsMyIp::new().http_limit(Some(0)).http_count(), 0);
    assert_eq!(WhatsMyIp::new().http_limit(Some(1)).http_limit(None).http_count(), 4);
}

// ---------------------------------------------------------------------------
// The live engine
// ---------------------------------------------------------------------------

#[test]
fn no_sources_enabled_fails() {
    // httpLimit(0) consults no provider at all; with the gateway disabled
    // the call must fail with the aggregate error, at once
    let r = WhatsMyIp::new().igd(false).http_limit(Some(0)).find();
    match r {
        Err(msg) => assert_eq!(msg, "Unable to find any IP address"),
        Ok(_) => panic!("no source was enabled"),
    }
}

#[test]
fn find_without_gateway() {
    // two random providers are consulted; whatever the network answers,
    // the contract holds: a success list is non-empty, duplicate-free and,
    // in fast mode, a single address; a failure is the aggregate error
    let r = WhatsMyIp::new().igd(false).fast(true).http_limit(Some(2)).http_timeout(
        Some(5000),
    ).find();
    match r {
        Ok(list) => assert_eq!(list.len(), 1),
        Err(msg) => assert_eq!(msg, "Unable to find any IP address"),
    }
}

#[test]
fn whatsmyip_error_is_aggregate() {
    match whatsmyip() {
        Ok(_) => {},
        Err(msg) => assert_eq!(msg, "Unable to find any IP address"),
    }
}

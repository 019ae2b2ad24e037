use lnmp_py_core::api::{
    count_openers, debug_explain, envelope_wrap, routing_decide, routing_report, sanitize, schema_describe,
    transport_from_http_headers, transport_to_http_headers,
};
use lnmp_py_core::routing::{decision_name, RoutingDecision};
use lnmp_py_core::transport::{accepted_headers, visible_headers, visible_text};
use lnmp_py_core::value::Record;

fn api_lookup(headers: &[(String, String)], name: &str) -> Option<String> {
    for (k, v) in headers {
        if k == name {
            return Some(v.clone());
        }
    }
    None
}

fn api_pairs(pairs: &[(&str, &str)]) -> Vec<(String, String)> {
    pairs.iter().map(|(k, v)| (k.to_string(), v.to_string())).collect()
}

#[test]
fn schema_description_is_fixed() {
    assert_eq!(schema_describe(), "LNMP Schema Description");
}

#[test]
fn sanitize_repairs_text() {
    assert_eq!(sanitize("  F1=1 ;  F2=\"hi\"  \n"), "F1=1;F2=\"hi\"\n");
    assert_eq!(sanitize("F1=\"hello"), "F1=\"hello\"");
    assert_eq!(sanitize("F1=1;F2=\"ok\""), "F1=1;F2=\"ok\"");
}

#[test]
fn debug_explain_explains_a_record() {
    let explained = debug_explain("F12=14532").unwrap();
    assert!(explained.contains("F12"));
    assert!(explained.contains("14532"));
    assert_ne!(explained, "F12=14532");
    assert!(debug_explain("F12=").is_err());
}

#[test]
fn debug_explain_refuses_texts_that_nest_too_deeply() {
    let mut deep = String::from("F1=");
    for _ in 0..129 {
        deep.push('[');
    }
    assert_eq!(
        debug_explain(&deep),
        Err("the text opens too many structures to be explained".to_string())
    );
    let mut fine = String::from("F1=");
    for _ in 0..128 {
        fine.push('{');
    }
    assert_ne!(
        debug_explain(&fine),
        Err("the text opens too many structures to be explained".to_string())
    );
    assert_eq!(count_openers(b"a{b[c]}{"), 3);
    assert_eq!(count_openers(deep.as_bytes()), 129);
}

#[test]
fn decisions_have_their_names() {
    assert_eq!(decision_name(RoutingDecision::SendToLlm), "SendToLLM");
    assert_eq!(decision_name(RoutingDecision::ProcessLocally), "ProcessLocally");
    assert_eq!(decision_name(RoutingDecision::Drop), "Drop");
    assert_eq!(routing_report(Ok(RoutingDecision::Drop)), Ok("Drop".to_string()));
    assert_eq!(routing_report(Err("no".to_string())), Err("no".to_string()));
}

#[test]
fn routing_drops_expired_events() {
    let envelope = envelope_wrap(&Record::new(), "svc".to_string(), Some(1000), None, 0);
    assert_eq!(routing_decide(&envelope, 1000 + 5001), Ok("Drop".to_string()));
    assert_eq!(routing_decide(&envelope, u64::MAX), Ok("Drop".to_string()));
}

#[test]
fn routing_keeps_or_sends_fresh_events() {
    let envelope = envelope_wrap(&Record::new(), "svc".to_string(), Some(1000), None, 0);
    for now in [0u64, 1000, 1001, 6000] {
        let decision = routing_decide(&envelope, now).unwrap();
        assert!(decision == "SendToLLM" || decision == "ProcessLocally");
    }
}

#[test]
fn routing_needs_a_timestamp() {
    let envelope = transport_from_http_headers(&Vec::new()).unwrap();
    assert_eq!(envelope.timestamp(), None);
    assert!(routing_decide(&envelope, 5).is_err());
}

#[test]
fn headers_carry_the_metadata() {
    let envelope = envelope_wrap(
        &Record::new(),
        "auth-service".to_string(),
        Some(1732373147000),
        Some("abc-123".to_string()),
        0,
    );
    let headers = transport_to_http_headers(&envelope).unwrap();
    assert_eq!(headers.len(), 4);
    assert_eq!(api_lookup(&headers, "x-lnmp-timestamp"), Some("1732373147000".to_string()));
    assert_eq!(api_lookup(&headers, "x-lnmp-source"), Some("auth-service".to_string()));
    assert_eq!(api_lookup(&headers, "x-lnmp-trace-id"), Some("abc-123".to_string()));
    assert_eq!(
        api_lookup(&headers, "traceparent"),
        Some("00-abc12300000000000000000000000000-0123456789abcdef-01".to_string())
    );
}

#[test]
fn headers_without_visible_text_are_left_out() {
    let envelope = envelope_wrap(&Record::new(), "café".to_string(), Some(5), None, 0);
    let headers = transport_to_http_headers(&envelope).unwrap();
    assert_eq!(api_lookup(&headers, "x-lnmp-source"), None);
    assert_eq!(api_lookup(&headers, "x-lnmp-timestamp"), Some("5".to_string()));
    assert_eq!(headers.len(), 1);
}

#[test]
fn headers_refuse_control_characters() {
    let envelope = envelope_wrap(&Record::new(), "a\nb".to_string(), Some(5), None, 0);
    assert!(transport_to_http_headers(&envelope).is_err());
}

#[test]
fn metadata_is_read_from_headers() {
    let headers = api_pairs(&[
        ("X-LNMP-Timestamp", "42"),
        ("bad name", "x"),
        ("x-lnmp-source", "first"),
        ("x-lnmp-trace-id", "t1"),
        ("x-lnmp-source", "svc"),
        ("x-other", "bad\nvalue"),
    ]);
    let envelope = transport_from_http_headers(&headers).unwrap();
    assert_eq!(envelope.timestamp(), Some(42));
    assert_eq!(envelope.source(), Some("svc".to_string()));
    assert_eq!(envelope.trace_id(), Some("t1".to_string()));
    assert_eq!(envelope.record().len(), 0);
}

#[test]
fn metadata_round_trips_through_headers() {
    let envelope = envelope_wrap(
        &Record::new(),
        "svc".to_string(),
        Some(99),
        Some("0af7651916cd43dd8448eb211c80319c".to_string()),
        0,
    );
    let headers = transport_to_http_headers(&envelope).unwrap();
    let back = transport_from_http_headers(&headers).unwrap();
    assert_eq!(back.timestamp(), Some(99));
    assert_eq!(back.source(), Some("svc".to_string()));
    assert_eq!(back.trace_id(), Some("0af7651916cd43dd8448eb211c80319c".to_string()));
}

#[test]
fn unparseable_timestamp_header_is_dropped() {
    let envelope =
        transport_from_http_headers(&api_pairs(&[("x-lnmp-timestamp", "soon")])).unwrap();
    assert_eq!(envelope.timestamp(), None);
    let by_trace = transport_from_http_headers(&api_pairs(&[(
        "traceparent",
        "00-0af7651916cd43dd8448eb211c80319c-b7ad6b7169203331-01",
    )]))
    .unwrap();
    assert_eq!(by_trace.trace_id(), Some("0af7651916cd43dd8448eb211c80319c".to_string()));
}

#[test]
fn visible_text_is_printable_ascii_and_tab() {
    assert_eq!(visible_text(&b"a b\t~".to_vec()), Some("a b\t~".to_string()));
    assert_eq!(visible_text(&Vec::new()), Some(String::new()));
    assert_eq!(visible_text(&vec![b'a', 127]), None);
    assert_eq!(visible_text(&vec![b'a', 10]), None);
    assert_eq!(visible_text(&vec![0xC3, 0xA9]), None);
    let kept = visible_headers(&vec![
        ("a".to_string(), b"1".to_vec()),
        ("b".to_string(), vec![200]),
        ("c".to_string(), b"3".to_vec()),
    ]);
    assert_eq!(kept, api_pairs(&[("a", "1"), ("c", "3")]));
}

#[test]
fn accepted_headers_are_those_of_a_header_map() {
    let kept = accepted_headers(&api_pairs(&[
        ("ok", "v"),
        ("", "v"),
        ("sp ace", "v"),
        ("Upper", "caf\u{e9}"),
        ("x", "line\nbreak"),
        ("y", "del\u{7f}"),
        ("z", "tab\tok"),
    ]));
    assert_eq!(kept, api_pairs(&[("ok", "v"), ("Upper", "caf\u{e9}"), ("z", "tab\tok")]));
}

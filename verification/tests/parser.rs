use event_log_converter::conversion::lifecycle_to_interval;
use event_log_converter::xes::lifecycle::{apply_tokens, parse_str, ParseError, XmlToken};

fn kv(tag: &str, key: &str, value: &str) -> XmlToken {
    XmlToken::SelfClosed(
        tag.to_string(),
        vec![
            ("key".to_string(), key.to_string()),
            ("value".to_string(), value.to_string()),
        ],
    )
}

const SAMPLE: &str = "<?xml version=\"1.0\" encoding=\"UTF-8\"?>\
    <log>\
    <trace>\
    <string key=\"concept:name\" value=\"c1\"/>\
    <string key=\"variant\" value=\"v1\"/>\
    <event>\
    <string key=\"concept:name\" value=\"A\"/>\
    <string key=\"org:resource\" value=\"R1\"/>\
    <date key=\"time:timestamp\" value=\"2020-01-01T00:00:00+00:00\"/>\
    <string key=\"lifecycle:transition\" value=\"start\"/>\
    </event>\
    <event>\
    <string key=\"concept:name\" value=\"A\"/>\
    <string key=\"org:resource\" value=\"R1\"/>\
    <date key=\"time:timestamp\" value=\"2020-01-01T01:00:00+00:00\"/>\
    <string key=\"lifecycle:transition\" value=\"complete\"/>\
    </event>\
    </trace>\
    </log>";

#[test]
fn test_parse_sample_document() {
    let log = parse_str(SAMPLE, false).unwrap();
    assert_eq!(log.traces.len(), 1);
    let trace = &log.traces[0];
    assert_eq!(trace.case, "c1");
    assert_eq!(trace.variant, "v1");
    assert_eq!(trace.events.len(), 2);
    assert_eq!(trace.events[0].activity, "A");
    assert_eq!(trace.events[0].resource, "R1");
    assert_eq!(trace.events[0].lifecycle, "start");
    assert_eq!(trace.events[0].timestamp.text, "2020-01-01T00:00:00+00:00");
    assert_eq!(trace.events[0].timestamp.millis, 1577836800000);
    assert_eq!(trace.events[1].lifecycle, "complete");
}

#[test]
fn test_parse_then_fold() {
    let log = parse_str(SAMPLE, false).unwrap();
    let out = lifecycle_to_interval(&log).unwrap();
    assert_eq!(out.traces.len(), 1);
    assert_eq!(out.traces[0].events.len(), 1);
    let ev = &out.traces[0].events[0];
    assert_eq!(ev.activity, "A");
    assert_eq!(ev.start_time.text, "2020-01-01T00:00:00+00:00");
    assert_eq!(ev.end_time.text, "2020-01-01T01:00:00+00:00");
}

#[test]
fn test_offsets_order_instants() {
    // 10:00 at +05:00 is 05:00 UTC, before 07:00 UTC, although its text
    // sorts after; the fold orders records by the instant.
    let xml = "<log><trace>\
        <string key=\"concept:name\" value=\"c\"/>\
        <string key=\"variant\" value=\"v\"/>\
        <event>\
        <string key=\"concept:name\" value=\"A\"/>\
        <string key=\"org:resource\" value=\"R\"/>\
        <date key=\"time:timestamp\" value=\"2020-01-01T07:00:00+00:00\"/>\
        <string key=\"lifecycle:transition\" value=\"start\"/>\
        </event>\
        <event>\
        <string key=\"concept:name\" value=\"A\"/>\
        <string key=\"org:resource\" value=\"R\"/>\
        <date key=\"time:timestamp\" value=\"2020-01-01T08:00:00+00:00\"/>\
        <string key=\"lifecycle:transition\" value=\"complete\"/>\
        </event>\
        <event>\
        <string key=\"concept:name\" value=\"B\"/>\
        <string key=\"org:resource\" value=\"R\"/>\
        <date key=\"time:timestamp\" value=\"2020-01-01T10:00:00+05:00\"/>\
        <string key=\"lifecycle:transition\" value=\"start\"/>\
        </event>\
        <event>\
        <string key=\"concept:name\" value=\"B\"/>\
        <string key=\"org:resource\" value=\"R\"/>\
        <date key=\"time:timestamp\" value=\"2020-01-01T11:00:00+05:00\"/>\
        <string key=\"lifecycle:transition\" value=\"complete\"/>\
        </event>\
        </trace></log>";
    let log = parse_str(xml, false).unwrap();
    let out = lifecycle_to_interval(&log).unwrap();
    let events = &out.traces[0].events;
    assert_eq!(events.len(), 2);
    assert_eq!(events[0].activity, "B");
    assert_eq!(events[1].activity, "A");
}

#[test]
fn test_bad_timestamp_is_fatal() {
    let xml = "<log><trace>\
        <event>\
        <date key=\"time:timestamp\" value=\"yesterday\"/>\
        </event>\
        </trace></log>";
    let r = parse_str(xml, false);
    assert!(matches!(r, Err(ParseError::InvalidTimestamp)));
}

#[test]
fn test_malformed_document_is_fatal() {
    let xml = "<log><trace></log>";
    let r = parse_str(xml, false);
    assert!(matches!(r, Err(ParseError::MalformedXml)));
}

#[test]
fn test_sentinels_dropped_on_request() {
    let xml = "<log><trace>\
        <string key=\"concept:name\" value=\"c\"/>\
        <string key=\"variant\" value=\"v\"/>\
        <event>\
        <string key=\"concept:name\" value=\"Start\"/>\
        <string key=\"lifecycle:transition\" value=\"complete\"/>\
        </event>\
        <event>\
        <string key=\"concept:name\" value=\"A\"/>\
        <string key=\"lifecycle:transition\" value=\"start\"/>\
        </event>\
        <event>\
        <string key=\"concept:name\" value=\"End\"/>\
        <string key=\"lifecycle:transition\" value=\"complete\"/>\
        </event>\
        </trace></log>";
    let kept = parse_str(xml, false).unwrap();
    assert_eq!(kept.traces[0].events.len(), 3);
    let dropped = parse_str(xml, true).unwrap();
    assert_eq!(dropped.traces[0].events.len(), 1);
    assert_eq!(dropped.traces[0].events[0].activity, "A");
}

#[test]
fn test_unterminated_trace_is_dropped() {
    let xml = "<log>\
        <trace>\
        <string key=\"concept:name\" value=\"done\"/>\
        <string key=\"variant\" value=\"v\"/>\
        </trace>\
        <trace>\
        <string key=\"concept:name\" value=\"open\"/>\
        </log>";
    // quick_xml rejects the stray close tag, so build the stream by hand.
    assert!(matches!(parse_str(xml, false), Err(ParseError::MalformedXml)));
    let tokens = vec![
        XmlToken::Open("log".to_string()),
        XmlToken::Open("trace".to_string()),
        kv("string", "concept:name", "done"),
        kv("string", "variant", "v"),
        XmlToken::Close("trace".to_string()),
        XmlToken::Open("trace".to_string()),
        kv("string", "concept:name", "open"),
    ];
    let log = apply_tokens(&tokens, false).unwrap();
    assert_eq!(log.traces.len(), 1);
    assert_eq!(log.traces[0].case, "done");
}

#[test]
fn test_first_case_value_wins() {
    let tokens = vec![
        XmlToken::Open("trace".to_string()),
        kv("string", "concept:name", "first"),
        kv("string", "concept:name", "second"),
        kv("string", "variant", "v1"),
        kv("string", "variant", "v2"),
        XmlToken::Close("trace".to_string()),
    ];
    let log = apply_tokens(&tokens, false).unwrap();
    assert_eq!(log.traces[0].case, "first");
    assert_eq!(log.traces[0].variant, "v1");
}

#[test]
fn test_value_before_key_uses_previous_role() {
    // Attributes are applied in document order: a value written before its
    // element's key is routed under the role left by the previous element.
    let tokens = vec![
        XmlToken::Open("trace".to_string()),
        kv("string", "concept:name", "c"),
        XmlToken::SelfClosed(
            "string".to_string(),
            vec![
                ("value".to_string(), "still-the-case-role".to_string()),
                ("key".to_string(), "variant".to_string()),
            ],
        ),
        XmlToken::Close("trace".to_string()),
    ];
    let log = apply_tokens(&tokens, false).unwrap();
    // The case was already set from its first occurrence, so the stray value
    // changes nothing; the variant role only takes effect afterwards.
    assert_eq!(log.traces[0].case, "c");
    assert_eq!(log.traces[0].variant, "");
}

#[test]
fn test_unrecognized_key_deactivates_routing() {
    let tokens = vec![
        XmlToken::Open("trace".to_string()),
        kv("string", "concept:name", "c"),
        kv("string", "unknown:attr", "x"),
        XmlToken::Open("event".to_string()),
        kv("string", "org:resource", "R"),
        XmlToken::Close("event".to_string()),
        XmlToken::Close("trace".to_string()),
    ];
    let log = apply_tokens(&tokens, false).unwrap();
    let ev = &log.traces[0].events[0];
    assert_eq!(ev.resource, "R");
    assert_eq!(ev.activity, "");
    assert_eq!(log.traces[0].case, "c");
}

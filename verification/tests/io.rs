use event_log_converter::io::{
    csv_to_interval, interval_to_csv, lifecycle_to_xes, CodecError, EventLogColumns,
};
use event_log_converter::stamp::Stamp;
use event_log_converter::xes::{interval, lifecycle};

fn stamp(text: &str, millis: i64) -> Stamp {
    Stamp {
        text: text.to_string(),
        millis,
    }
}

#[test]
fn test_csv_to_interval() {
    let data = "case,variant,activity,resource,start_time,end_time\
        \n1,1,A,R1,1,2";

    let mut event_log = interval::EventLog {
        traces: Vec::new(),
        columns: EventLogColumns::default_style(),
    };

    csv_to_interval(data.as_bytes(), &mut event_log).unwrap();

    assert_eq!(event_log.traces.len(), 1);
    assert_eq!(event_log.traces[0].events.len(), 1);
    assert_eq!(event_log.traces[0].case, "1");
    assert_eq!(event_log.traces[0].variant, "1");
    assert_eq!(event_log.traces[0].events[0].activity, "A");
    assert_eq!(event_log.traces[0].events[0].resource, "R1");
    assert_eq!(event_log.traces[0].events[0].start_time.text, "1");
    assert_eq!(event_log.traces[0].events[0].end_time.text, "2");
}

#[test]
fn test_csv_to_interval_with_columns() {
    let data = "case_id,variant,Activity,Resource,start_timestamp,end_timestamp\
        \n1,1,A,R1,1,2";

    let mut event_log = interval::EventLog {
        traces: Vec::new(),
        columns: EventLogColumns {
            case: "case_id".to_string(),
            variant: "variant".to_string(),
            activity: "Activity".to_string(),
            resource: "Resource".to_string(),
            start_time: "start_timestamp".to_string(),
            end_time: "end_timestamp".to_string(),
        },
    };

    csv_to_interval(data.as_bytes(), &mut event_log).unwrap();

    assert_eq!(event_log.traces.len(), 1);
    assert_eq!(event_log.traces[0].events.len(), 1);
    assert_eq!(event_log.traces[0].case, "1");
    assert_eq!(event_log.traces[0].variant, "1");
    assert_eq!(event_log.traces[0].events[0].activity, "A");
    assert_eq!(event_log.traces[0].events[0].resource, "R1");
    assert_eq!(event_log.traces[0].events[0].start_time.text, "1");
    assert_eq!(event_log.traces[0].events[0].end_time.text, "2");
}

#[test]
fn test_header_driven_codec_independence() {
    // The same values under renamed headers read to the same log.
    let custom = "case_id,variant,Activity,Resource,start_timestamp,end_timestamp\
        \n1,1,A,R1,1,2";
    let mut custom_log = interval::EventLog {
        traces: Vec::new(),
        columns: EventLogColumns {
            case: "case_id".to_string(),
            variant: "variant".to_string(),
            activity: "Activity".to_string(),
            resource: "Resource".to_string(),
            start_time: "start_timestamp".to_string(),
            end_time: "end_timestamp".to_string(),
        },
    };
    csv_to_interval(custom.as_bytes(), &mut custom_log).unwrap();

    let plain = "case,variant,activity,resource,start_time,end_time\
        \n1,1,A,R1,1,2";
    let mut plain_log = interval::EventLog {
        traces: Vec::new(),
        columns: EventLogColumns::default_style(),
    };
    csv_to_interval(plain.as_bytes(), &mut plain_log).unwrap();

    assert_eq!(custom_log.traces.len(), plain_log.traces.len());
    for (a, b) in custom_log.traces.iter().zip(plain_log.traces.iter()) {
        assert_eq!(a.case, b.case);
        assert_eq!(a.variant, b.variant);
        assert_eq!(a.events.len(), b.events.len());
        for (x, y) in a.events.iter().zip(b.events.iter()) {
            assert_eq!(x.activity, y.activity);
            assert_eq!(x.resource, y.resource);
            assert_eq!(x.start_time.text, y.start_time.text);
            assert_eq!(x.end_time.text, y.end_time.text);
        }
    }
}

#[test]
fn test_contiguous_run_grouping() {
    // Rows of case 1 that are split by a case-2 row give two separate traces.
    let data = "case,variant,activity,resource,start_time,end_time\
        \n1,1,A,R1,1,2\
        \n2,1,B,R1,3,4\
        \n1,1,C,R1,5,6";
    let mut event_log = interval::EventLog {
        traces: Vec::new(),
        columns: EventLogColumns::default_style(),
    };
    csv_to_interval(data.as_bytes(), &mut event_log).unwrap();

    assert_eq!(event_log.traces.len(), 3);
    assert_eq!(event_log.traces[0].case, "1");
    assert_eq!(event_log.traces[1].case, "2");
    assert_eq!(event_log.traces[2].case, "1");
    assert_eq!(event_log.traces[0].events[0].activity, "A");
    assert_eq!(event_log.traces[2].events[0].activity, "C");
}

#[test]
fn test_adjacent_rows_share_a_trace() {
    let data = "case,variant,activity,resource,start_time,end_time\
        \n1,1,A,R1,1,2\
        \n1,1,B,R1,3,4";
    let mut event_log = interval::EventLog {
        traces: Vec::new(),
        columns: EventLogColumns::default_style(),
    };
    csv_to_interval(data.as_bytes(), &mut event_log).unwrap();

    assert_eq!(event_log.traces.len(), 1);
    assert_eq!(event_log.traces[0].events.len(), 2);
}

#[test]
fn test_quoted_fields_are_unquoted() {
    let data = "case,variant,activity,resource,start_time,end_time\
        \n\"1,5\",v,\"say \"\"hi\"\"\",R1,1,2";
    let mut event_log = interval::EventLog {
        traces: Vec::new(),
        columns: EventLogColumns::default_style(),
    };
    csv_to_interval(data.as_bytes(), &mut event_log).unwrap();

    assert_eq!(event_log.traces.len(), 1);
    assert_eq!(event_log.traces[0].case, "1,5");
    assert_eq!(event_log.traces[0].events[0].activity, "say \"hi\"");
}

#[test]
fn test_missing_column_is_fatal() {
    let data = "case,variant,activity,resource,start_time\
        \n1,1,A,R1,1";
    let mut event_log = interval::EventLog {
        traces: Vec::new(),
        columns: EventLogColumns::default_style(),
    };
    let r = csv_to_interval(data.as_bytes(), &mut event_log);
    assert!(matches!(r, Err(CodecError::MissingColumn)));
}

#[test]
fn test_unreadable_rows_are_fatal() {
    // The second data row has a field too many.
    let data = "case,variant,activity,resource,start_time,end_time\
        \n1,1,A,R1,1,2\
        \n1,1,B,R1,3,4,extra";
    let mut event_log = interval::EventLog {
        traces: Vec::new(),
        columns: EventLogColumns::default_style(),
    };
    let r = csv_to_interval(data.as_bytes(), &mut event_log);
    assert!(matches!(r, Err(CodecError::Unreadable)));
}

#[test]
fn test_interval_to_csv_bytes() {
    let trace = interval::Trace {
        case: "1".to_string(),
        variant: "v".to_string(),
        events: vec![interval::Event {
            activity: "A".to_string(),
            resource: "R1".to_string(),
            start_time: stamp("1", 0),
            end_time: stamp("2", 0),
        }],
    };
    let log = interval::EventLog {
        traces: vec![trace],
        columns: EventLogColumns::default_style(),
    };
    let bytes = interval_to_csv(&log);
    assert_eq!(
        String::from_utf8(bytes).unwrap(),
        "case,variant,activity,resource,start_time,end_time\n1,v,A,R1,1,2\n"
    );
}

#[test]
fn test_interval_to_csv_quotes_fields() {
    let trace = interval::Trace {
        case: "1,2".to_string(),
        variant: "v".to_string(),
        events: vec![interval::Event {
            activity: "A".to_string(),
            resource: "R1".to_string(),
            start_time: stamp("1", 0),
            end_time: stamp("2", 0),
        }],
    };
    let log = interval::EventLog {
        traces: vec![trace],
        columns: EventLogColumns::default_style(),
    };
    let bytes = interval_to_csv(&log);
    assert_eq!(
        String::from_utf8(bytes).unwrap(),
        "case,variant,activity,resource,start_time,end_time\n\"1,2\",v,A,R1,1,2\n"
    );
}

#[test]
fn test_lifecycle_to_xes_bytes() {
    let trace = lifecycle::Trace {
        case: "c1".to_string(),
        variant: "v1".to_string(),
        events: vec![lifecycle::Event {
            activity: "A".to_string(),
            resource: "R1".to_string(),
            timestamp: stamp("2020-01-01T00:00:00+00:00", 1577836800000),
            lifecycle: "start".to_string(),
        }],
    };
    let log = lifecycle::EventLog { traces: vec![trace] };
    let bytes = lifecycle_to_xes(&log);
    let expected = "<?xml version=\"1.0\" encoding=\"UTF-8\"?>\
        <log>\
        <trace>\
        <string key=\"concept:name\" value=\"c1\"/>\
        <string key=\"variant\" value=\"v1\"/>\
        <event>\
        <string key=\"concept:name\" value=\"A\"/>\
        <string key=\"org:resource\" value=\"R1\"/>\
        <date key=\"time:timestamp\" value=\"2020-01-01T00:00:00+00:00\"/>\
        <string key=\"lifecycle:transition\" value=\"start\"/>\
        </event>\
        </trace>\
        </log>";
    assert_eq!(String::from_utf8(bytes).unwrap(), expected);
}

#[test]
fn test_default_style_names() {
    let cols = EventLogColumns::default_style();
    assert_eq!(cols.case, "case");
    assert_eq!(cols.variant, "variant");
    assert_eq!(cols.activity, "activity");
    assert_eq!(cols.resource, "resource");
    assert_eq!(cols.start_time, "start_time");
    assert_eq!(cols.end_time, "end_time");
}

#[test]
fn test_pretty_string_lines() {
    let trace = interval::Trace {
        case: "c1".to_string(),
        variant: "v1".to_string(),
        events: vec![interval::Event {
            activity: "A".to_string(),
            resource: "R1".to_string(),
            start_time: stamp("1", 0),
            end_time: stamp("2", 0),
        }],
    };
    let log = interval::EventLog {
        traces: vec![trace],
        columns: EventLogColumns::default_style(),
    };
    let text = log.pretty_string();
    assert_eq!(
        text,
        "Trace: c1\nVariant: v1\n  Event: A\n    Resource: R1\n    Start: 1\n    End: 2\n"
    );
}

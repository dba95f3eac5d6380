use event_log_converter::conversion::{interval_to_lifecycle, lifecycle_to_interval};
use event_log_converter::io::{csv_to_interval, EventLogColumns};
use event_log_converter::stamp::Stamp;
use event_log_converter::xes::{interval, lifecycle};

fn stamp(text: &str, millis: i64) -> Stamp {
    Stamp {
        text: text.to_string(),
        millis,
    }
}

fn lc_event(activity: &str, resource: &str, text: &str, millis: i64, phase: &str) -> lifecycle::Event {
    lifecycle::Event {
        activity: activity.to_string(),
        resource: resource.to_string(),
        timestamp: stamp(text, millis),
        lifecycle: phase.to_string(),
    }
}

fn iv_event(activity: &str, resource: &str, start: (&str, i64), end: (&str, i64)) -> interval::Event {
    interval::Event {
        activity: activity.to_string(),
        resource: resource.to_string(),
        start_time: stamp(start.0, start.1),
        end_time: stamp(end.0, end.1),
    }
}

#[test]
fn test_interval_to_lifecycle() {
    let data = "case,variant,activity,resource,start_time,end_time\
        \n1,1,A,R1,1,2";
    let mut event_log = interval::EventLog {
        traces: Vec::new(),
        columns: EventLogColumns::default_style(),
    };
    csv_to_interval(data.as_bytes(), &mut event_log).unwrap();

    let lifecycle_log = interval_to_lifecycle(&event_log);

    assert_eq!(lifecycle_log.traces.len(), 1);
    assert_eq!(lifecycle_log.traces[0].events.len(), 2);
}

#[test]
fn test_pairing_two_activities() {
    let trace = lifecycle::Trace {
        case: "c1".to_string(),
        variant: "v1".to_string(),
        events: vec![
            lc_event("A", "R1", "t1", 1, "start"),
            lc_event("A", "R1", "t2", 2, "complete"),
            lc_event("B", "R2", "t3", 3, "start"),
            lc_event("B", "R2", "t4", 4, "complete"),
        ],
    };
    let log = lifecycle::EventLog { traces: vec![trace] };

    let out = lifecycle_to_interval(&log).unwrap();

    assert_eq!(out.traces.len(), 1);
    let events = &out.traces[0].events;
    assert_eq!(events.len(), 2);
    assert_eq!(events[0].activity, "A");
    assert_eq!(events[0].start_time.text, "t1");
    assert_eq!(events[0].end_time.text, "t2");
    assert_eq!(events[1].activity, "B");
    assert_eq!(events[1].start_time.text, "t3");
    assert_eq!(events[1].end_time.text, "t4");
}

#[test]
fn test_odd_group_fails() {
    let trace = lifecycle::Trace {
        case: "c1".to_string(),
        variant: "v1".to_string(),
        events: vec![
            lc_event("A", "R1", "t1", 1, "start"),
            lc_event("A", "R1", "t2", 2, "complete"),
            lc_event("A", "R1", "t3", 3, "start"),
        ],
    };
    let log = lifecycle::EventLog { traces: vec![trace] };

    let err = lifecycle_to_interval(&log).unwrap_err();
    assert_eq!(err.group.len(), 3);
    assert!(err.group.iter().all(|e| e.activity == "A"));
}

#[test]
fn test_records_sorted_by_start_instant() {
    // B runs before A; the folded records come out ordered by start instant.
    let trace = lifecycle::Trace {
        case: "c1".to_string(),
        variant: "v1".to_string(),
        events: vec![
            lc_event("A", "R1", "t10", 10, "start"),
            lc_event("A", "R1", "t11", 11, "complete"),
            lc_event("B", "R2", "t1", 1, "start"),
            lc_event("B", "R2", "t2", 2, "complete"),
        ],
    };
    let log = lifecycle::EventLog { traces: vec![trace] };

    let out = lifecycle_to_interval(&log).unwrap();
    let events = &out.traces[0].events;
    assert_eq!(events[0].activity, "B");
    assert_eq!(events[1].activity, "A");
}

#[test]
fn test_traces_sorted_by_earliest_start() {
    let early = lifecycle::Trace {
        case: "late-in-file".to_string(),
        variant: "v".to_string(),
        events: vec![
            lc_event("A", "R", "t1", 1, "start"),
            lc_event("A", "R", "t2", 2, "complete"),
        ],
    };
    let late = lifecycle::Trace {
        case: "early-in-file".to_string(),
        variant: "v".to_string(),
        events: vec![
            lc_event("A", "R", "t5", 5, "start"),
            lc_event("A", "R", "t6", 6, "complete"),
        ],
    };
    let log = lifecycle::EventLog { traces: vec![late, early] };

    let out = lifecycle_to_interval(&log).unwrap();
    assert_eq!(out.traces[0].case, "late-in-file");
    assert_eq!(out.traces[1].case, "early-in-file");
}

#[test]
fn test_empty_trace_sorts_first() {
    let empty = lifecycle::Trace {
        case: "empty".to_string(),
        variant: "v".to_string(),
        events: vec![],
    };
    let busy = lifecycle::Trace {
        case: "busy".to_string(),
        variant: "v".to_string(),
        events: vec![
            lc_event("A", "R", "t1", -5, "start"),
            lc_event("A", "R", "t2", -4, "complete"),
        ],
    };
    let log = lifecycle::EventLog { traces: vec![busy, empty] };

    let out = lifecycle_to_interval(&log).unwrap();
    assert_eq!(out.traces[0].case, "empty");
    assert_eq!(out.traces[0].events.len(), 0);
    assert_eq!(out.traces[1].case, "busy");
}

#[test]
fn test_unmatched_transition_defaults_to_first_stamp() {
    // Neither element of the second pair carries a `start` tag: the start
    // stamp falls back to the pair's first element.
    let trace = lifecycle::Trace {
        case: "c".to_string(),
        variant: "v".to_string(),
        events: vec![
            lc_event("A", "R", "t1", 1, "complete"),
            lc_event("A", "R", "t2", 2, "complete"),
        ],
    };
    let log = lifecycle::EventLog { traces: vec![trace] };

    let out = lifecycle_to_interval(&log).unwrap();
    let ev = &out.traces[0].events[0];
    assert_eq!(ev.start_time.text, "t1");
    assert_eq!(ev.end_time.text, "t2");
}

#[test]
fn test_reverse_expansion_cardinality() {
    let t1 = interval::Trace {
        case: "1".to_string(),
        variant: "v".to_string(),
        events: vec![
            iv_event("A", "R1", ("t1", 1), ("t2", 2)),
            iv_event("B", "R2", ("t3", 3), ("t4", 4)),
        ],
    };
    let t2 = interval::Trace {
        case: "2".to_string(),
        variant: "v".to_string(),
        events: vec![iv_event("C", "R3", ("t5", 5), ("t6", 6))],
    };
    let log = interval::EventLog {
        traces: vec![t1, t2],
        columns: EventLogColumns::default_style(),
    };

    let out = interval_to_lifecycle(&log);

    let total: usize = out.traces.iter().map(|t| t.events.len()).sum();
    assert_eq!(total, 6);
    for (trace, src) in out.traces.iter().zip(log.traces.iter()) {
        assert_eq!(trace.events.len(), 2 * src.events.len());
        for (k, ev) in src.events.iter().enumerate() {
            let start = &trace.events[2 * k];
            let end = &trace.events[2 * k + 1];
            assert_eq!(start.lifecycle, "start");
            assert_eq!(start.activity, ev.activity);
            assert_eq!(start.resource, ev.resource);
            assert_eq!(start.timestamp.text, ev.start_time.text);
            assert_eq!(end.lifecycle, "complete");
            assert_eq!(end.activity, ev.activity);
            assert_eq!(end.resource, ev.resource);
            assert_eq!(end.timestamp.text, ev.end_time.text);
        }
    }
}

#[test]
fn test_round_trip_restores_records() {
    let trace = interval::Trace {
        case: "c1".to_string(),
        variant: "v1".to_string(),
        events: vec![
            iv_event("A", "R1", ("t1", 1), ("t2", 2)),
            iv_event("B", "R2", ("t3", 3), ("t4", 4)),
            iv_event("A", "R1", ("t5", 5), ("t6", 6)),
        ],
    };
    let log = interval::EventLog {
        traces: vec![trace],
        columns: EventLogColumns::default_style(),
    };

    let mid = interval_to_lifecycle(&log);
    let back = lifecycle_to_interval(&mid).unwrap();

    assert_eq!(back.traces.len(), 1);
    let out = &back.traces[0];
    assert_eq!(out.case, "c1");
    assert_eq!(out.variant, "v1");
    let mut got: Vec<(String, String, String, String)> = out
        .events
        .iter()
        .map(|e| {
            (
                e.activity.clone(),
                e.resource.clone(),
                e.start_time.text.clone(),
                e.end_time.text.clone(),
            )
        })
        .collect();
    got.sort();
    let mut want: Vec<(String, String, String, String)> = log.traces[0]
        .events
        .iter()
        .map(|e| {
            (
                e.activity.clone(),
                e.resource.clone(),
                e.start_time.text.clone(),
                e.end_time.text.clone(),
            )
        })
        .collect();
    want.sort();
    assert_eq!(got, want);
}

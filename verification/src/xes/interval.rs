//! The interval log model: traces of records, each spanning one activity
//! execution from its start stamp to its end stamp, together with the
//! column-name configuration used when the log is read from tabular text.

use crate::io::{ColumnsView, EventLogColumns};
use crate::stamp::{Stamp, StampView};
use vstd::prelude::*;

verus! {

/// Mathematical value of an interval [`Event`].
#[verifier::ext_equal]
pub struct IntervalEventView {
    pub activity: Seq<char>,
    pub resource: Seq<char>,
    pub start_time: StampView,
    pub end_time: StampView,
}

/// Mathematical value of an interval [`Trace`].
#[verifier::ext_equal]
pub struct IntervalTraceView {
    pub case: Seq<char>,
    pub variant: Seq<char>,
    pub events: Seq<IntervalEventView>,
}

/// Mathematical value of an interval [`EventLog`].
#[verifier::ext_equal]
pub struct IntervalLogView {
    pub traces: Seq<IntervalTraceView>,
    pub columns: ColumnsView,
}

/// One activity execution: its name, the acting resource, and the stamps at
/// which it started and ended.
#[derive(Debug)]
pub struct Event {
    pub activity: String,
    pub resource: String,
    pub start_time: Stamp,
    pub end_time: Stamp,
}

/// The ordered records of one case, with its identifier and classification.
#[derive(Debug)]
pub struct Trace {
    pub case: String,
    pub variant: String,
    pub events: Vec<Event>,
}

/// An ordered sequence of interval traces, plus the column names under which
/// the six record fields appear in tabular form.
#[derive(Debug)]
pub struct EventLog {
    pub traces: Vec<Trace>,
    pub columns: EventLogColumns,
}

impl View for Event {
    type V = IntervalEventView;

    open spec fn view(&self) -> IntervalEventView {
        IntervalEventView {
            activity: self.activity@,
            resource: self.resource@,
            start_time: self.start_time@,
            end_time: self.end_time@,
        }
    }
}

impl DeepView for Event {
    type V = IntervalEventView;

    open spec fn deep_view(&self) -> IntervalEventView {
        self.view()
    }
}

impl View for Trace {
    type V = IntervalTraceView;

    open spec fn view(&self) -> IntervalTraceView {
        IntervalTraceView {
            case: self.case@,
            variant: self.variant@,
            events: self.events.deep_view(),
        }
    }
}

impl DeepView for Trace {
    type V = IntervalTraceView;

    open spec fn deep_view(&self) -> IntervalTraceView {
        self.view()
    }
}

impl View for EventLog {
    type V = IntervalLogView;

    open spec fn view(&self) -> IntervalLogView {
        IntervalLogView { traces: self.traces.deep_view(), columns: self.columns@ }
    }
}

impl Clone for Event {
    fn clone(&self) -> (r: Self)
        ensures
            r@ == self@,
    {
        Event {
            activity: self.activity.clone(),
            resource: self.resource.clone(),
            start_time: self.start_time.clone(),
            end_time: self.end_time.clone(),
        }
    }
}

/// The lines one record prints as.
pub open spec fn pretty_event(e: IntervalEventView) -> Seq<char> {
    "  Event: "@ + e.activity + "\n    Resource: "@ + e.resource + "\n    Start: "@
        + e.start_time.text + "\n    End: "@ + e.end_time.text + "\n"@
}

/// The lines one trace prints as: its case, its variant, then its records.
pub open spec fn pretty_trace(t: IntervalTraceView) -> Seq<char> {
    "Trace: "@ + t.case + "\nVariant: "@ + t.variant + "\n"@ + t.events.flat_map(
        |e: IntervalEventView| pretty_event(e),
    )
}

/// The lines a whole log prints as, trace by trace.
pub open spec fn pretty_log(l: IntervalLogView) -> Seq<char> {
    l.traces.flat_map(|t: IntervalTraceView| pretty_trace(t))
}

/// Appends one record's lines.
#[verifier::rlimit(100)]
fn append_pretty_event(out: &mut String, e: &Event)
    ensures
        final(out)@ == old(out)@ + pretty_event(e@),
{
    out.append("  Event: ");
    out.append(e.activity.as_str());
    out.append("\n    Resource: ");
    out.append(e.resource.as_str());
    out.append("\n    Start: ");
    out.append(e.start_time.text.as_str());
    out.append("\n    End: ");
    out.append(e.end_time.text.as_str());
    out.append("\n");
    proof {
        assert(out@ =~= old(out)@ + pretty_event(e@));
    }
}

/// Appends one trace's heading lines.
#[verifier::rlimit(100)]
fn append_pretty_heading(out: &mut String, t: &Trace)
    ensures
        final(out)@ == old(out)@ + "Trace: "@ + t@.case + "\nVariant: "@ + t@.variant + "\n"@,
{
    out.append("Trace: ");
    out.append(t.case.as_str());
    out.append("\nVariant: ");
    out.append(t.variant.as_str());
    out.append("\n");
}

impl EventLog {
    /// The log as readable text, one line per field.
    #[verifier::loop_isolation(false)]
    #[verifier::rlimit(100)]
    pub fn pretty_string(&self) -> (r: String)
        ensures
            r@ == pretty_log(self@),
    {
        let ghost traces_v = self@.traces;
        let ghost tr_fn = |t: IntervalTraceView| pretty_trace(t);
        let ghost ev_fn = |e: IntervalEventView| pretty_event(e);
        let mut out = String::new();
        proof {
            assert(traces_v.take(0).flat_map(tr_fn) =~= Seq::<char>::empty()) by {
                assert(traces_v.take(0).map_values(tr_fn) =~= Seq::<Seq<char>>::empty());
                assert(Seq::<Seq<char>>::empty().flatten() =~= Seq::<char>::empty());
            }
        }
        let n = self.traces.len();
        for i in 0..n
            invariant
                out@ == traces_v.take(i as int).flat_map(tr_fn),
        {
            let trace = &self.traces[i];
            proof {
                assert(trace@ == traces_v[i as int]);
            }
            append_pretty_heading(&mut out, trace);
            let ghost trace_prefix = traces_v.take(i as int).flat_map(tr_fn) + "Trace: "@
                + trace@.case + "\nVariant: "@ + trace@.variant + "\n"@;
            proof {
                assert(trace@.events.take(0).flat_map(ev_fn) =~= Seq::<char>::empty()) by {
                    assert(trace@.events.take(0).map_values(ev_fn) =~= Seq::<Seq<char>>::empty());
                    assert(Seq::<Seq<char>>::empty().flatten() =~= Seq::<char>::empty());
                }
                assert(out@ =~= trace_prefix + trace@.events.take(0).flat_map(ev_fn));
            }
            let m = trace.events.len();
            for j in 0..m
                invariant
                    m == trace.events.len(),
                    out@ == trace_prefix + trace@.events.take(j as int).flat_map(ev_fn),
            {
                let e = &trace.events[j];
                proof {
                    assert(e@ == trace@.events[j as int]);
                }
                append_pretty_event(&mut out, e);
                proof {
                    trace@.events.lemma_flat_map_take_append(ev_fn, j as int);
                    assert(out@ =~= trace_prefix + trace@.events.take(j + 1 as int).flat_map(
                        ev_fn,
                    ));
                }
            }
            proof {
                assert(trace@.events.take(m as int) =~= trace@.events);
                traces_v.lemma_flat_map_take_append(tr_fn, i as int);
                assert(out@ =~= traces_v.take(i + 1 as int).flat_map(tr_fn));
            }
        }
        proof {
            assert(traces_v.take(n as int) =~= traces_v);
        }
        out
    }
}

} // verus!

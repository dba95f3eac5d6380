//! Reading and writing the two wire forms: header-driven tabular text for
//! interval logs and XML for lifecycle logs.
//!
//! Tabular text has a header row naming the columns and one data row per
//! activity execution. Reading resolves the six configured column names
//! against the header (a name missing from the header is fatal, as is a row
//! too short to hold a resolved column) and groups consecutive rows sharing
//! a case value into one trace; rows of one case that are not adjacent give
//! separate traces. Writing always emits the six default column names, in a
//! fixed order.

use crate::xes::interval;
use crate::xes::interval::{IntervalEventView, IntervalTraceView};
use crate::xes::lifecycle;
use crate::xes::lifecycle::{LifecycleEventView, LifecycleLogView, LifecycleTraceView};
use crate::stamp::{Stamp, StampView};
use vstd::prelude::*;
use vstd::string::StringSliceAdditionalSpecFns;

verus! {

/// Mathematical value of [`EventLogColumns`].
#[verifier::ext_equal]
pub struct ColumnsView {
    pub case: Seq<char>,
    pub variant: Seq<char>,
    pub activity: Seq<char>,
    pub resource: Seq<char>,
    pub start_time: Seq<char>,
    pub end_time: Seq<char>,
}

/// The header names under which the six record fields appear when an interval
/// log is read from tabular text. Written output always uses the default
/// names, whatever was configured for reading.
#[derive(Debug)]
pub struct EventLogColumns {
    pub case: String,
    pub variant: String,
    pub activity: String,
    pub resource: String,
    pub start_time: String,
    pub end_time: String,
}

impl View for EventLogColumns {
    type V = ColumnsView;

    open spec fn view(&self) -> ColumnsView {
        ColumnsView {
            case: self.case@,
            variant: self.variant@,
            activity: self.activity@,
            resource: self.resource@,
            start_time: self.start_time@,
            end_time: self.end_time@,
        }
    }
}

/// The default column names.
pub open spec fn default_columns() -> ColumnsView {
    ColumnsView {
        case: "case"@,
        variant: "variant"@,
        activity: "activity"@,
        resource: "resource"@,
        start_time: "start_time"@,
        end_time: "end_time"@,
    }
}

impl Clone for EventLogColumns {
    fn clone(&self) -> (r: Self)
        ensures
            r@ == self@,
    {
        EventLogColumns {
            case: self.case.clone(),
            variant: self.variant.clone(),
            activity: self.activity.clone(),
            resource: self.resource.clone(),
            start_time: self.start_time.clone(),
            end_time: self.end_time.clone(),
        }
    }
}

impl EventLogColumns {
    /// The configuration naming each column by its role.
    pub fn default_style() -> (r: EventLogColumns)
        ensures
            r@ == default_columns(),
    {
        EventLogColumns {
            case: String::from_str("case"),
            variant: String::from_str("variant"),
            activity: String::from_str("activity"),
            resource: String::from_str("resource"),
            start_time: String::from_str("start_time"),
            end_time: String::from_str("end_time"),
        }
    }
}

// ---------------------------------------------------------------------------
// Reading tabular text.
// ---------------------------------------------------------------------------
/// A reason tabular input was rejected: the text could not be read as rows,
/// a configured column name is absent from the header, or a data row is too
/// short to hold a resolved column.
#[derive(Debug)]
pub enum CodecError {
    Unreadable,
    MissingColumn,
    MissingField,
}

/// The rows that the tabular reader sees in the text, header row first, or
/// nothing where the text is no well-formed table. The result depends on the
/// bytes alone.
pub uninterp spec fn csv_table(bytes: Seq<u8>) -> Option<Seq<Seq<Seq<char>>>>;

/// Relies on csv's `Reader`: `headers` yields the first row and `records`
/// the remaining ones, quoting resolved; rows of unequal width and bytes
/// that are not UTF-8 are read errors. The rows depend on the bytes alone.
#[verifier::external_body]
fn csv_decode(bytes: &[u8]) -> (r: Option<Vec<Vec<String>>>)
    ensures
        r.deep_view() == csv_table(bytes@),
{
    let mut rd = csv::Reader::from_reader(bytes);
    let header: Vec<String> = match rd.headers() {
        Ok(h) => h.iter().map(|f| f.to_string()).collect(),
        Err(_) => return None,
    };
    let rows: Option<Vec<Vec<String>>> =
        rd.records().map(|rec| rec.ok().map(|r| r.iter().map(|f| f.to_string()).collect())).collect();
    match rows {
        Some(mut rs) => {
            rs.insert(0, header);
            Some(rs)
        },
        None => None,
    }
}

/// The position of the last header cell bearing `name`, where several cells
/// may repeat a name.
pub open spec fn find_last(hdr: Seq<Seq<char>>, name: Seq<char>) -> Option<int>
    decreases hdr.len(),
{
    if hdr.len() == 0 {
        None
    } else if hdr.last() == name {
        Some(hdr.len() - 1)
    } else {
        find_last(hdr.drop_last(), name)
    }
}

/// Cells at or past `i` that never bear the name leave the search result to
/// the prefix.
proof fn lemma_find_last_prefix(hdr: Seq<Seq<char>>, name: Seq<char>, i: int)
    requires
        0 <= i <= hdr.len(),
        forall|j: int| i <= j < hdr.len() ==> #[trigger] hdr[j] != name,
    ensures
        find_last(hdr, name) == find_last(hdr.take(i), name),
    decreases hdr.len() - i,
{
    if i == hdr.len() {
        assert(hdr.take(i) =~= hdr);
    } else {
        assert(hdr.last() != name);
        lemma_find_last_prefix(hdr.drop_last(), name, i);
        assert(hdr.drop_last().take(i) =~= hdr.take(i));
    }
}

/// Finds the position of the last header cell bearing `name`.
fn find_last_in(hdr: &Vec<String>, name: &String) -> (r: Option<usize>)
    ensures
        r matches Some(i) ==> find_last(hdr.deep_view(), name@) == Some(i as int),
        r is None ==> find_last(hdr.deep_view(), name@) is None,
{
    let ghost h = hdr.deep_view();
    let mut i = hdr.len();
    while i > 0
        invariant
            i <= hdr.len(),
            h == hdr.deep_view(),
            forall|j: int| i <= j < h.len() ==> #[trigger] h[j] != name@,
        decreases i,
    {
        i -= 1;
        if hdr[i] == *name {
            proof {
                lemma_find_last_prefix(h, name@, i + 1 as int);
                assert(h.take(i + 1 as int).last() == h[i as int]);
                assert(h.take(i + 1 as int).len() == i + 1);
            }
            return Some(i);
        }
    }
    proof {
        lemma_find_last_prefix(h, name@, 0);
        assert(h.take(0) =~= Seq::<Seq<char>>::empty());
    }
    None
}

/// Where each of the six configured columns stands in the header; a name
/// that repeats resolves to its last cell, as header-keyed records would
/// have it.
#[verifier::ext_equal]
pub struct ColumnIndexes {
    pub case: int,
    pub variant: int,
    pub activity: int,
    pub resource: int,
    pub start_time: int,
    pub end_time: int,
}

/// Resolves the configured column names against a header row; a name absent
/// from the header resolves nothing.
pub open spec fn resolve_columns(hdr: Seq<Seq<char>>, cols: ColumnsView) -> Option<ColumnIndexes> {
    if {
        &&& find_last(hdr, cols.case) is Some
        &&& find_last(hdr, cols.variant) is Some
        &&& find_last(hdr, cols.activity) is Some
        &&& find_last(hdr, cols.resource) is Some
        &&& find_last(hdr, cols.start_time) is Some
        &&& find_last(hdr, cols.end_time) is Some
    } {
        Some(
            (ColumnIndexes {
                case: find_last(hdr, cols.case)->Some_0,
                variant: find_last(hdr, cols.variant)->Some_0,
                activity: find_last(hdr, cols.activity)->Some_0,
                resource: find_last(hdr, cols.resource)->Some_0,
                start_time: find_last(hdr, cols.start_time)->Some_0,
                end_time: find_last(hdr, cols.end_time)->Some_0,
            }),
        )
    } else {
        None
    }
}

/// The record a data row holds, or nothing where the row is too short to
/// hold every resolved column. Stamps read from tabular text are opaque.
pub open spec fn row_event(row: Seq<Seq<char>>, ix: ColumnIndexes) -> Option<IntervalEventView> {
    if ix.activity < row.len() && ix.resource < row.len() && ix.start_time < row.len()
        && ix.end_time < row.len() && ix.case < row.len() && ix.variant < row.len() {
        Some(
            (IntervalEventView {
                activity: row[ix.activity],
                resource: row[ix.resource],
                start_time: StampView { text: row[ix.start_time], millis: 0 },
                end_time: StampView { text: row[ix.end_time], millis: 0 },
            }),
        )
    } else {
        None
    }
}

/// One data row added to the traces built so far: a row whose case value
/// matches the last trace's joins it; any other row opens a new trace,
/// carrying the row's case and variant.
pub open spec fn add_row(
    acc: Seq<IntervalTraceView>,
    row: Seq<Seq<char>>,
    ix: ColumnIndexes,
) -> Option<Seq<IntervalTraceView>> {
    match row_event(row, ix) {
        None => None,
        Some(ev) => {
            let case = row[ix.case];
            if acc.len() > 0 && acc.last().case == case {
                Some(
                    acc.update(
                        acc.len() - 1,
                        (IntervalTraceView {
                            case: acc.last().case,
                            variant: acc.last().variant,
                            events: acc.last().events.push(ev),
                        }),
                    ),
                )
            } else {
                Some(
                    acc.push(
                        (IntervalTraceView {
                            case: case,
                            variant: row[ix.variant],
                            events: seq![ev],
                        }),
                    ),
                )
            }
        },
    }
}

/// All data rows, added in order; fails where any row is too short.
pub open spec fn fold_rows(rows: Seq<Seq<Seq<char>>>, ix: ColumnIndexes) -> Option<
    Seq<IntervalTraceView>,
>
    decreases rows.len(),
{
    if rows.len() == 0 {
        Some(Seq::empty())
    } else {
        match fold_rows(rows.drop_last(), ix) {
            None => None,
            Some(acc) => add_row(acc, rows.last(), ix),
        }
    }
}

/// What reading tabular bytes under a column configuration yields: the
/// traces, or the error that stops the read.
pub open spec fn decode_outcome(bytes: Seq<u8>, cols: ColumnsView) -> Result<
    Seq<IntervalTraceView>,
    CodecError,
> {
    match csv_table(bytes) {
        None => Err(CodecError::Unreadable),
        Some(table) => {
            let hdr = if table.len() == 0 {
                Seq::empty()
            } else {
                table[0]
            };
            match resolve_columns(hdr, cols) {
                None => Err(CodecError::MissingColumn),
                Some(ix) => match fold_rows(table.skip(1), ix) {
                    None => Err(CodecError::MissingField),
                    Some(ts) => Ok(ts),
                },
            }
        },
    }
}

/// Folding one more row adds it to the fold of the prefix.
proof fn lemma_fold_rows_step(rows: Seq<Seq<Seq<char>>>, ix: ColumnIndexes, i: int)
    requires
        0 <= i < rows.len(),
    ensures
        fold_rows(rows.take(i + 1), ix) == (match fold_rows(rows.take(i), ix) {
            None => None,
            Some(acc) => add_row(acc, rows[i], ix),
        }),
{
    let t1 = rows.take(i + 1);
    assert(t1.drop_last() =~= rows.take(i));
    assert(t1.last() == rows[i]);
}

/// Reads an interval log from tabular bytes, under the column configuration
/// the log carries; on success the log's traces are replaced, its
/// configuration kept. Fails exactly where `decode_outcome` does: unreadable
/// text, a configured name absent from the header, or a row too short.
#[verifier::loop_isolation(false)]
pub fn csv_to_interval(bytes: &[u8], event_log: &mut interval::EventLog) -> (r: Result<
    (),
    CodecError,
>)
    ensures
        final(event_log)@.columns == old(event_log)@.columns,
        r is Err ==> final(event_log)@.traces == old(event_log)@.traces,
        r is Ok <==> decode_outcome(bytes@, old(event_log)@.columns) is Ok,
        r is Ok ==> decode_outcome(bytes@, old(event_log)@.columns) == Ok::<_, CodecError>(
            final(event_log)@.traces,
        ),
        r matches Err(e) ==> decode_outcome(bytes@, old(event_log)@.columns) == Err::<
            Seq<IntervalTraceView>,
            _,
        >(e),
{
    let table = match csv_decode(bytes) {
        None => {
            return Err(CodecError::Unreadable);
        },
        Some(t) => t,
    };
    let ghost table_v = table.deep_view();
    let hdr: &Vec<String> = if table.len() == 0 {
        proof {
            assert(find_last(Seq::<Seq<char>>::empty(), old(event_log)@.columns.case) is None);
        }
        return Err(CodecError::MissingColumn);
    } else {
        &table[0]
    };
    let case_ix = find_last_in(hdr, &event_log.columns.case);
    let variant_ix = find_last_in(hdr, &event_log.columns.variant);
    let activity_ix = find_last_in(hdr, &event_log.columns.activity);
    let resource_ix = find_last_in(hdr, &event_log.columns.resource);
    let start_ix = find_last_in(hdr, &event_log.columns.start_time);
    let end_ix = find_last_in(hdr, &event_log.columns.end_time);
    let (ci, vi, ai, ri, si, ei) = match (case_ix, variant_ix, activity_ix, resource_ix, start_ix,
        end_ix) {
        (Some(ci), Some(vi), Some(ai), Some(ri), Some(si), Some(ei)) => (ci, vi, ai, ri, si, ei),
        _ => {
            return Err(CodecError::MissingColumn);
        },
    };
    let ghost ix = ColumnIndexes {
        case: ci as int,
        variant: vi as int,
        activity: ai as int,
        resource: ri as int,
        start_time: si as int,
        end_time: ei as int,
    };
    proof {
        assert(resolve_columns(table_v[0], old(event_log)@.columns) == Some(ix));
    }
    let ghost rows = table_v.skip(1);
    let mut traces: Vec<interval::Trace> = Vec::new();
    let mut cur: Option<interval::Trace> = None;
    let n = table.len();
    proof {
        assert(rows.take(0) =~= Seq::<Seq<Seq<char>>>::empty());
    }
    let mut k: usize = 1;
    while k < n
        invariant
            1 <= k <= n == table.len(),
            table_v == table.deep_view(),
            rows == table_v.skip(1),
            fold_rows(rows.take(k - 1), ix) == Some(
                match &cur {
                    Some(c) => traces.deep_view().push(c@),
                    None => traces.deep_view(),
                },
            ),
            cur is None ==> traces.len() == 0,
        decreases n - k,
    {
        let ghost acc = match &cur {
            Some(c) => traces.deep_view().push(c@),
            None => traces.deep_view(),
        };
        proof {
            lemma_fold_rows_step(rows, ix, k - 1 as int);
            assert(rows[k - 1 as int] == table_v[k as int]);
        }
        let row = &table[k];
        proof {
            assert(table_v[k as int] == row.deep_view());
            assert(row.deep_view().len() == row@.len());
        }
        let rlen = row.len();
        if !(ai < rlen && ri < rlen && si < rlen && ei < rlen && ci < rlen && vi < rlen) {
            proof {
                assert(row_event(table_v[k as int], ix) is None);
                lemma_fold_rows_err(rows, ix, k as int);
            }
            return Err(CodecError::MissingField);
        }
        let ev = interval::Event {
            activity: row[ai].clone(),
            resource: row[ri].clone(),
            start_time: Stamp { text: row[si].clone(), millis: 0 },
            end_time: Stamp { text: row[ei].clone(), millis: 0 },
        };
        proof {
            let rv = table_v[k as int];
            assert(rv.len() == row@.len());
            assert(row.deep_view()[ai as int] == row@[ai as int]@);
            assert(row.deep_view()[ri as int] == row@[ri as int]@);
            assert(row.deep_view()[si as int] == row@[si as int]@);
            assert(row.deep_view()[ei as int] == row@[ei as int]@);
            assert(row.deep_view()[ci as int] == row@[ci as int]@);
            assert(row.deep_view()[vi as int] == row@[vi as int]@);
            assert(row_event(rv, ix) == Some(ev@)) by {
                assert(row_event(rv, ix)->Some_0 =~= ev@);
            }
        }
        let same = match &cur {
            Some(c) => c.case == row[ci],
            None => false,
        };
        if same {
            match &mut cur {
                Some(c) => {
                    let ghost epre = c@.events;
                    c.events.push(ev);
                    proof {
                        assert(c@.events =~= epre.push(row_event(table_v[k as int], ix)->Some_0));
                    }
                },
                None => {},
            }
        } else {
            match cur {
                Some(c) => {
                    let ghost tpre = traces.deep_view();
                    traces.push(c);
                    proof {
                        assert(traces.deep_view() =~= tpre.push(traces.deep_view().last()));
                    }
                },
                None => {},
            }
            cur = Some(
                interval::Trace {
                    case: row[ci].clone(),
                    variant: row[vi].clone(),
                    events: vec![ev],
                },
            );
        }
        proof {
            let acc2 = match &cur {
                Some(c) => traces.deep_view().push(c@),
                None => traces.deep_view(),
            };
            assert(add_row(acc, table_v[k as int], ix) == Some(acc2)) by {
                assert(acc2 =~~= add_row(acc, table_v[k as int], ix)->Some_0);
            }
        }
        k += 1;
    }
    match cur {
        Some(c) => {
            traces.push(c);
        },
        None => {},
    }
    proof {
        assert(rows.take(n - 1 as int) =~= rows);
        assert(fold_rows(rows, ix) == Some(traces.deep_view()));
    }
    event_log.traces = traces;
    Ok(())
}

/// Once a row prefix has failed, the whole row list fails.
proof fn lemma_fold_rows_err(rows: Seq<Seq<Seq<char>>>, ix: ColumnIndexes, i: int)
    requires
        0 <= i <= rows.len(),
        fold_rows(rows.take(i), ix) is None,
    ensures
        fold_rows(rows, ix) is None,
    decreases rows.len() - i,
{
    if i == rows.len() {
        assert(rows.take(i) =~= rows);
    } else {
        lemma_fold_rows_step(rows, ix, i);
        lemma_fold_rows_err(rows, ix, i + 1);
    }
}

// ---------------------------------------------------------------------------
// Writing tabular text.
// ---------------------------------------------------------------------------
/// The bytes that one written record occupies: its fields, quoted as the
/// format demands, with the record terminator. The result depends on the
/// fields alone.
pub uninterp spec fn csv_row_bytes(fields: Seq<Seq<char>>) -> Seq<u8>;

/// Relies on csv's `Writer`: one record written to a fresh buffer, fields
/// quoted where needed, terminated by a newline. The bytes depend on the
/// fields alone.
#[verifier::external_body]
fn csv_encode_row(fields: &Vec<String>) -> (r: Vec<u8>)
    ensures
        r@ == csv_row_bytes(fields.deep_view()),
{
    let mut w = csv::Writer::from_writer(Vec::new());
    let _ = w.write_record(fields.iter());
    w.into_inner().unwrap_or_default()
}

/// The header row of written output: the six default column names.
pub open spec fn header_row() -> Seq<Seq<char>> {
    seq!["case"@, "variant"@, "activity"@, "resource"@, "start_time"@, "end_time"@]
}

/// The row one record is written as: its trace's case and variant, then the
/// record's four fields, stamps by their text.
pub open spec fn event_row(t: IntervalTraceView, e: IntervalEventView) -> Seq<Seq<char>> {
    seq![t.case, t.variant, e.activity, e.resource, e.start_time.text, e.end_time.text]
}

/// The rows of one trace, in record order.
pub open spec fn trace_rows(t: IntervalTraceView) -> Seq<Seq<Seq<char>>> {
    t.events.map_values(|e: IntervalEventView| event_row(t, e))
}

/// The rows of a whole log: the header row, then each trace's rows in trace
/// order.
pub open spec fn log_rows(l: crate::xes::interval::IntervalLogView) -> Seq<Seq<Seq<char>>> {
    seq![header_row()] + l.traces.flat_map(|t: IntervalTraceView| trace_rows(t))
}

/// The bytes of a row sequence, record encodings in order.
pub open spec fn rows_bytes(rows: Seq<Seq<Seq<char>>>) -> Seq<u8>
    decreases rows.len(),
{
    if rows.len() == 0 {
        Seq::empty()
    } else {
        rows_bytes(rows.drop_last()) + csv_row_bytes(rows.last())
    }
}

/// One more row appends its encoding.
proof fn lemma_rows_bytes_push(rows: Seq<Seq<Seq<char>>>, r: Seq<Seq<char>>)
    ensures
        rows_bytes(rows.push(r)) == rows_bytes(rows) + csv_row_bytes(r),
{
    assert(rows.push(r).drop_last() =~= rows);
}

/// Writes an interval log as tabular bytes: a header row of the six default
/// column names, then one row per record, traces and records in log order,
/// columns in the fixed order case, variant, activity, resource, start, end.
#[verifier::loop_isolation(false)]
#[verifier::rlimit(60)]
pub fn interval_to_csv(event_log: &interval::EventLog) -> (r: Vec<u8>)
    ensures
        r@ == rows_bytes(log_rows(event_log@)),
{
    let mut header: Vec<String> = Vec::new();
    header.push(String::from_str("case"));
    header.push(String::from_str("variant"));
    header.push(String::from_str("activity"));
    header.push(String::from_str("resource"));
    header.push(String::from_str("start_time"));
    header.push(String::from_str("end_time"));
    proof {
        assert(header.deep_view() =~= header_row());
    }
    let mut out: Vec<u8> = csv_encode_row(&header);
    let ghost hdr_only = seq![header_row()];
    proof {
        assert(rows_bytes(Seq::<Seq<Seq<char>>>::empty()) == Seq::<u8>::empty());
        assert(hdr_only.drop_last() =~= Seq::<Seq<Seq<char>>>::empty());
        assert(hdr_only.last() == header_row());
        assert(Seq::<u8>::empty() + csv_row_bytes(header_row()) =~= csv_row_bytes(header_row()));
        assert(out@ =~= rows_bytes(hdr_only));
    }
    let ghost rows_so_far = hdr_only;
    let n = event_log.traces.len();
    let ghost traces_v = event_log@.traces;
    let ghost tr_fn = |t: IntervalTraceView| trace_rows(t);
    for i in 0..n
        invariant
            rows_so_far == seq![header_row()] + traces_v.take(i as int).flat_map(tr_fn),
            out@ == rows_bytes(rows_so_far),
    {
        let trace = &event_log.traces[i];
        proof {
            assert(trace@ == traces_v[i as int]);
        }
        let m = trace.events.len();
        let ghost ev_fn = |e: IntervalEventView| event_row(trace@, e);
        proof {
            assert(trace@.events.take(0).map_values(ev_fn) =~= Seq::<Seq<Seq<char>>>::empty());
        }
        for j in 0..m
            invariant
                m == trace.events.len(),
                rows_so_far == (seq![header_row()] + traces_v.take(i as int).flat_map(tr_fn))
                    + trace@.events.take(j as int).map_values(ev_fn),
                out@ == rows_bytes(rows_so_far),
        {
            let e = &trace.events[j];
            let mut fields: Vec<String> = Vec::new();
            fields.push(trace.case.clone());
            fields.push(trace.variant.clone());
            fields.push(e.activity.clone());
            fields.push(e.resource.clone());
            fields.push(e.start_time.text.clone());
            fields.push(e.end_time.text.clone());
            proof {
                assert(e@ == trace@.events[j as int]);
                assert(fields.deep_view() =~= event_row(trace@, trace@.events[j as int]));
            }
            let mut piece = csv_encode_row(&fields);
            let ghost out_pre = out@;
            out.append(&mut piece);
            proof {
                lemma_rows_bytes_push(rows_so_far, event_row(trace@, trace@.events[j as int]));
                trace@.events.lemma_take_succ_push(j as int);
                trace@.events.take(j as int).lemma_push_map_commute(
                    ev_fn,
                    trace@.events[j as int],
                );
            }
            proof {
                rows_so_far = rows_so_far.push(event_row(trace@, trace@.events[j as int]));
                assert(rows_so_far =~= (seq![header_row()] + traces_v.take(i as int).flat_map(
                    tr_fn,
                )) + trace@.events.take(j + 1 as int).map_values(ev_fn));
            }
        }
        proof {
            assert(trace@.events.take(m as int) =~= trace@.events);
            traces_v.lemma_flat_map_take_append(tr_fn, i as int);
            assert(trace_rows(traces_v[i as int]) == trace@.events.map_values(ev_fn));
            assert(rows_so_far =~= seq![header_row()] + traces_v.take(i + 1 as int).flat_map(
                tr_fn,
            ));
        }
    }
    proof {
        assert(traces_v.take(n as int) =~= traces_v);
        assert(rows_so_far =~= log_rows(event_log@));
    }
    out
}

// ---------------------------------------------------------------------------
// Writing lifecycle XML.
// ---------------------------------------------------------------------------
/// The bytes of an XML declaration naming version 1.0 and UTF-8.
pub open spec fn xml_decl_bytes() -> Seq<u8> {
    "<?xml version=\"1.0\" encoding=\"UTF-8\"?>"@.map_values(|c: char| c as u8)
}

/// The bytes of a start tag: the name between angle brackets.
pub open spec fn open_tag_bytes(name: &str) -> Seq<u8> {
    seq![60u8] + name.spec_bytes() + seq![62u8]
}

/// The bytes of an end tag: the name after a slash, between angle brackets.
pub open spec fn close_tag_bytes(name: &str) -> Seq<u8> {
    seq![60u8, 47u8] + name.spec_bytes() + seq![62u8]
}

/// The bytes of a self-closing element with a `key` and a `value` attribute,
/// attribute values escaped as the format demands. The result depends on the
/// three texts alone.
pub uninterp spec fn kv_tag_bytes(tag: Seq<char>, key: Seq<char>, value: Seq<char>) -> Seq<u8>;

/// Relies on quick_xml's `Writer` and `BytesDecl`: the declaration written
/// to a fresh buffer.
#[verifier::external_body]
fn xml_decl() -> (r: Vec<u8>)
    ensures
        r@ == xml_decl_bytes(),
{
    let mut w = quick_xml::Writer::new(Vec::new());
    let decl = quick_xml::events::BytesDecl::new("1.0", Some("UTF-8"), None);
    let _ = w.write_event(quick_xml::events::Event::Decl(decl));
    w.into_inner()
}

/// Relies on quick_xml's `Writer` and `BytesStart`: a start tag is written
/// as the name between angle brackets, nothing escaped.
#[verifier::external_body]
fn xml_open(name: &str) -> (r: Vec<u8>)
    ensures
        r@ == open_tag_bytes(name),
{
    let mut w = quick_xml::Writer::new(Vec::new());
    let e = quick_xml::events::BytesStart::new(name);
    let _ = w.write_event(quick_xml::events::Event::Start(e));
    w.into_inner()
}

/// Relies on quick_xml's `Writer` and `BytesEnd`: an end tag is written as
/// the name after a slash, between angle brackets, nothing escaped.
#[verifier::external_body]
fn xml_close(name: &str) -> (r: Vec<u8>)
    ensures
        r@ == close_tag_bytes(name),
{
    let mut w = quick_xml::Writer::new(Vec::new());
    let e = quick_xml::events::BytesEnd::new(name);
    let _ = w.write_event(quick_xml::events::Event::End(e));
    w.into_inner()
}

/// Relies on quick_xml's `Writer`, `BytesStart` and `push_attribute`: a
/// self-closing element with a `key` and a `value` attribute, the attribute
/// values escaped by the library. The bytes depend on the texts alone.
#[verifier::external_body]
fn xml_kv(tag: &str, key: &str, value: &str) -> (r: Vec<u8>)
    ensures
        r@ == kv_tag_bytes(tag@, key@, value@),
{
    let mut w = quick_xml::Writer::new(Vec::new());
    let mut e = quick_xml::events::BytesStart::new(tag);
    e.push_attribute(("key", key));
    e.push_attribute(("value", value));
    let _ = w.write_event(quick_xml::events::Event::Empty(e));
    w.into_inner()
}

/// The bytes one transition event is written as: an `event` element holding
/// its four key/value attributes, the timestamp as a `date` element by its
/// text.
pub open spec fn xes_event_bytes(e: LifecycleEventView) -> Seq<u8> {
    open_tag_bytes("event") + kv_tag_bytes("string"@, "concept:name"@, e.activity) + kv_tag_bytes(
        "string"@,
        "org:resource"@,
        e.resource,
    ) + kv_tag_bytes("date"@, "time:timestamp"@, e.timestamp.text) + kv_tag_bytes(
        "string"@,
        "lifecycle:transition"@,
        e.lifecycle,
    ) + close_tag_bytes("event")
}

/// The bytes one trace is written as: a `trace` element holding its case and
/// variant, then its events in order.
pub open spec fn xes_trace_bytes(t: LifecycleTraceView) -> Seq<u8> {
    open_tag_bytes("trace") + kv_tag_bytes("string"@, "concept:name"@, t.case) + kv_tag_bytes(
        "string"@,
        "variant"@,
        t.variant,
    ) + t.events.flat_map(|e: LifecycleEventView| xes_event_bytes(e)) + close_tag_bytes("trace")
}

/// The bytes a lifecycle log is written as: the declaration, then a `log`
/// element holding the traces in order.
pub open spec fn xes_bytes(l: LifecycleLogView) -> Seq<u8> {
    xml_decl_bytes() + open_tag_bytes("log") + l.traces.flat_map(
        |t: LifecycleTraceView| xes_trace_bytes(t),
    ) + close_tag_bytes("log")
}

/// Writes a lifecycle log as XML: a declaration, a root `log` element, one
/// `trace` element per trace carrying its case and variant, and one `event`
/// element per event carrying activity, resource, timestamp and transition
/// as key/value attributes.
#[verifier::loop_isolation(false)]
#[verifier::rlimit(60)]
pub fn lifecycle_to_xes(event_log: &lifecycle::EventLog) -> (r: Vec<u8>)
    ensures
        r@ == xes_bytes(event_log@),
{
    let ghost traces_v = event_log@.traces;
    let ghost tr_fn = |t: LifecycleTraceView| xes_trace_bytes(t);
    let ghost ev_fn = |e: LifecycleEventView| xes_event_bytes(e);
    let mut out: Vec<u8> = xml_decl();
    let mut piece = xml_open("log");
    out.append(&mut piece);
    proof {
        assert(traces_v.take(0).flat_map(tr_fn) =~= Seq::<u8>::empty()) by {
            assert(traces_v.take(0).map_values(tr_fn) =~= Seq::<Seq<u8>>::empty());
            assert(Seq::<Seq<u8>>::empty().flatten() =~= Seq::<u8>::empty());
        }
        assert(out@ =~= xml_decl_bytes() + open_tag_bytes("log") + traces_v.take(0).flat_map(
            tr_fn,
        ));
    }
    let n = event_log.traces.len();
    for i in 0..n
        invariant
            out@ == xml_decl_bytes() + open_tag_bytes("log") + traces_v.take(i as int).flat_map(
                tr_fn,
            ),
    {
        let trace = &event_log.traces[i];
        proof {
            assert(trace@ == traces_v[i as int]);
        }
        let mut piece = xml_open("trace");
        out.append(&mut piece);
        let mut piece = xml_kv("string", "concept:name", trace.case.as_str());
        out.append(&mut piece);
        let mut piece = xml_kv("string", "variant", trace.variant.as_str());
        out.append(&mut piece);
        let ghost trace_prefix = xml_decl_bytes() + open_tag_bytes("log") + traces_v.take(
            i as int,
        ).flat_map(tr_fn) + open_tag_bytes("trace") + kv_tag_bytes(
            "string"@,
            "concept:name"@,
            trace@.case,
        ) + kv_tag_bytes("string"@, "variant"@, trace@.variant);
        proof {
            assert(trace@.events.take(0).flat_map(ev_fn) =~= Seq::<u8>::empty()) by {
                assert(trace@.events.take(0).map_values(ev_fn) =~= Seq::<Seq<u8>>::empty());
                assert(Seq::<Seq<u8>>::empty().flatten() =~= Seq::<u8>::empty());
            }
            assert(out@ =~= trace_prefix + trace@.events.take(0).flat_map(ev_fn));
        }
        let m = trace.events.len();
        for j in 0..m
            invariant
                m == trace.events.len(),
                out@ == trace_prefix + trace@.events.take(j as int).flat_map(ev_fn),
        {
            let e = &trace.events[j];
            proof {
                assert(e@ == trace@.events[j as int]);
            }
            let mut piece = xml_open("event");
            out.append(&mut piece);
            let mut piece = xml_kv("string", "concept:name", e.activity.as_str());
            out.append(&mut piece);
            let mut piece = xml_kv("string", "org:resource", e.resource.as_str());
            out.append(&mut piece);
            let mut piece = xml_kv("date", "time:timestamp", e.timestamp.text.as_str());
            out.append(&mut piece);
            let mut piece = xml_kv("string", "lifecycle:transition", e.lifecycle.as_str());
            out.append(&mut piece);
            let mut piece = xml_close("event");
            out.append(&mut piece);
            proof {
                trace@.events.lemma_flat_map_take_append(ev_fn, j as int);
                assert(out@ =~= trace_prefix + trace@.events.take(j + 1 as int).flat_map(ev_fn));
            }
        }
        let mut piece = xml_close("trace");
        out.append(&mut piece);
        proof {
            assert(trace@.events.take(m as int) =~= trace@.events);
            traces_v.lemma_flat_map_take_append(tr_fn, i as int);
            assert(out@ =~= xml_decl_bytes() + open_tag_bytes("log") + traces_v.take(
                i + 1 as int,
            ).flat_map(tr_fn));
        }
    }
    let mut piece = xml_close("log");
    out.append(&mut piece);
    proof {
        assert(traces_v.take(n as int) =~= traces_v);
        assert(out@ =~= xes_bytes(event_log@));
    }
    out
}

} // verus!

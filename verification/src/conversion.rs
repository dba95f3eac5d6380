//! The bidirectional transform between lifecycle and interval logs.
//!
//! Forward: each trace's events are grouped by activity (keeping, within a
//! group, the order the events had in the trace), every group must have even
//! size, and consecutive pairs of each group become one interval record; the
//! records of a trace are then ordered by ascending start instant, and the
//! traces by ascending start instant of their earliest record. A group of odd
//! size is a fatal error, reported with the offending group.
//!
//! Reverse: each interval record expands to one `start` and one `complete`
//! transition, in that fixed order; trace and record order is preserved.

use crate::io;
use crate::io::EventLogColumns;
use crate::xes::interval;
use crate::xes::interval::{IntervalEventView, IntervalLogView, IntervalTraceView};
use crate::xes::lifecycle;
use crate::xes::lifecycle::{LifecycleEventView, LifecycleLogView, LifecycleTraceView};
use vstd::multiset::Multiset;
use vstd::prelude::*;
use vstd::seq_lib::lemma_multiset_commutative;

verus! {

// ---------------------------------------------------------------------------
// The reverse direction, as a total mathematical function.
// ---------------------------------------------------------------------------
/// The `start` transition of an interval record.
pub open spec fn start_of(e: IntervalEventView) -> LifecycleEventView {
    LifecycleEventView {
        activity: e.activity,
        resource: e.resource,
        timestamp: e.start_time,
        lifecycle: "start"@,
    }
}

/// The `complete` transition of an interval record.
pub open spec fn complete_of(e: IntervalEventView) -> LifecycleEventView {
    LifecycleEventView {
        activity: e.activity,
        resource: e.resource,
        timestamp: e.end_time,
        lifecycle: "complete"@,
    }
}

/// The transition pair of one interval record, start first.
pub open spec fn expand_event(e: IntervalEventView) -> Seq<LifecycleEventView> {
    seq![start_of(e), complete_of(e)]
}

/// The transitions of a whole record sequence, in record order.
pub open spec fn expand_events(es: Seq<IntervalEventView>) -> Seq<LifecycleEventView> {
    es.flat_map(|e: IntervalEventView| expand_event(e))
}

/// The lifecycle trace that an interval trace expands to.
pub open spec fn expand_trace(t: IntervalTraceView) -> LifecycleTraceView {
    LifecycleTraceView { case: t.case, variant: t.variant, events: expand_events(t.events) }
}

/// The lifecycle log that an interval log expands to.
pub open spec fn expand_log(l: IntervalLogView) -> LifecycleLogView {
    LifecycleLogView { traces: l.traces.map_values(|t: IntervalTraceView| expand_trace(t)) }
}

// ---------------------------------------------------------------------------
// The forward direction: grouping, pairing, ordering.
// ---------------------------------------------------------------------------
/// The activity names of a trace's events, in trace order.
pub open spec fn activity_names(s: Seq<LifecycleEventView>) -> Seq<Seq<char>> {
    s.map_values(|e: LifecycleEventView| e.activity)
}

/// The predicate holding of the values other than `h`.
pub open spec fn differs_from(h: Seq<char>) -> spec_fn(Seq<char>) -> bool {
    |y: Seq<char>| y != h
}

/// The predicate holding of the events whose activity is `a`.
pub open spec fn has_activity(a: Seq<char>) -> spec_fn(LifecycleEventView) -> bool {
    |e: LifecycleEventView| e.activity == a
}

/// The distinct values of `xs` in order of first occurrence.
pub open spec fn first_occurrences(xs: Seq<Seq<char>>) -> Seq<Seq<char>>
    decreases xs.len(),
    via first_occurrences_dec
{
    if xs.len() == 0 {
        Seq::empty()
    } else {
        seq![xs[0]] + first_occurrences(xs.skip(1).filter(differs_from(xs[0])))
    }
}

#[via_fn]
proof fn first_occurrences_dec(xs: Seq<Seq<char>>) {
    if xs.len() != 0 {
        xs.skip(1).lemma_filter_len(differs_from(xs[0]));
    }
}

/// The events of `s` whose activity is `a`, in trace order.
pub open spec fn activity_run(s: Seq<LifecycleEventView>, a: Seq<char>) -> Seq<
    LifecycleEventView,
> {
    s.filter(has_activity(a))
}

/// The maximal groups of equal-activity events of a trace: one group per
/// distinct activity, groups in order of the activity's first occurrence,
/// events within a group in trace order.
pub open spec fn activity_groups(s: Seq<LifecycleEventView>) -> Seq<Seq<LifecycleEventView>> {
    first_occurrences(activity_names(s)).map_values(|a: Seq<char>| activity_run(s, a))
}

/// Whether some activity group of the trace has odd size; such a trace cannot
/// be folded into interval form.
pub open spec fn has_odd_group(s: Seq<LifecycleEventView>) -> bool {
    exists|j: int|
        0 <= j < activity_groups(s).len() && #[trigger] activity_groups(s)[j].len() % 2 == 1
}

/// The interval record folded from a pair of transitions: activity and
/// resource from the first, the start stamp from whichever of the two is
/// tagged `start` and the end stamp from whichever is tagged `complete`, the
/// first element's stamp standing in where no element carries the tag.
pub open spec fn pair_event(a: LifecycleEventView, b: LifecycleEventView) -> IntervalEventView {
    IntervalEventView {
        activity: a.activity,
        resource: a.resource,
        start_time: if b.lifecycle == "start"@ {
            b.timestamp
        } else {
            a.timestamp
        },
        end_time: if b.lifecycle == "complete"@ {
            b.timestamp
        } else {
            a.timestamp
        },
    }
}

/// The interval records folded from consecutive pairs of a group.
pub open spec fn pair_up(g: Seq<LifecycleEventView>) -> Seq<IntervalEventView>
    decreases g.len(),
{
    if g.len() < 2 {
        Seq::empty()
    } else {
        seq![pair_event(g[0], g[1])] + pair_up(g.skip(2))
    }
}

/// The folded records of one activity's run within `s`.
pub open spec fn run_pairs(s: Seq<LifecycleEventView>) -> spec_fn(Seq<char>) -> Seq<
    IntervalEventView,
> {
    |x: Seq<char>| pair_up(activity_run(s, x))
}

/// All interval records of a trace, group by group.
pub open spec fn paired_events(s: Seq<LifecycleEventView>) -> Seq<IntervalEventView> {
    first_occurrences(activity_names(s)).flat_map(run_pairs(s))
}

/// Whether a record sequence is ordered by ascending start instant.
pub open spec fn events_sorted(es: Seq<IntervalEventView>) -> bool {
    forall|i: int, j: int|
        0 <= i < j < es.len() ==> #[trigger] es[i].start_time.millis <= #[trigger] es[j].start_time.millis
}

/// The ordering key of a trace: the start instant of its earliest record, or
/// the least instant for a trace without records.
pub open spec fn trace_key(t: IntervalTraceView) -> int {
    if t.events.len() == 0 {
        i64::MIN as int
    } else {
        t.events[0].start_time.millis
    }
}

/// Whether a trace sequence is ordered by ascending key.
pub open spec fn traces_sorted(ts: Seq<IntervalTraceView>) -> bool {
    forall|i: int, j: int| 0 <= i < j < ts.len() ==> trace_key(#[trigger] ts[i]) <= trace_key(#[trigger] ts[j])
}

/// Insertion into an ordered sequence: the new element goes after every
/// element whose key does not exceed its own, so elements with equal keys
/// keep the order they arrive in.
pub open spec fn insert_ordered<A>(s: Seq<A>, e: A, key: spec_fn(A) -> int) -> Seq<A>
    decreases s.len(),
{
    if s.len() == 0 {
        seq![e]
    } else if key(s[0]) <= key(e) {
        seq![s[0]] + insert_ordered(s.skip(1), e, key)
    } else {
        seq![e] + s
    }
}

/// Ordering by ascending key, stably: elements with equal keys keep their
/// given order.
pub open spec fn sort_ordered<A>(s: Seq<A>, key: spec_fn(A) -> int) -> Seq<A>
    decreases s.len(),
{
    if s.len() == 0 {
        Seq::empty()
    } else {
        insert_ordered(sort_ordered(s.drop_last(), key), s.last(), key)
    }
}

/// The ordering key of a record, as a function value.
pub open spec fn start_key_fn() -> spec_fn(IntervalEventView) -> int {
    |e: IntervalEventView| e.start_time.millis
}

/// The ordering key of a trace, as a function value.
pub open spec fn trace_key_fn() -> spec_fn(IntervalTraceView) -> int {
    |t: IntervalTraceView| trace_key(t)
}

/// The interval trace a lifecycle trace folds to: same case and variant,
/// the folded records of its activity groups in ascending start order,
/// records with equal instants keeping group order.
pub open spec fn fold_trace(t: LifecycleTraceView) -> IntervalTraceView {
    IntervalTraceView {
        case: t.case,
        variant: t.variant,
        events: sort_ordered(paired_events(t.events), start_key_fn()),
    }
}

/// The traces of the folded log: each source trace folded, in ascending key
/// order, traces with equal keys keeping source order.
pub open spec fn fold_traces(ts: Seq<LifecycleTraceView>) -> Seq<IntervalTraceView> {
    sort_ordered(ts.map_values(|t: LifecycleTraceView| fold_trace(t)), trace_key_fn())
}

/// Whether `dst` is the interval trace folded from lifecycle trace `src`:
/// same case and variant, records exactly the folded pairs of `src`'s
/// activity groups, ordered by ascending start instant.
pub open spec fn trace_folded(src: LifecycleTraceView, dst: IntervalTraceView) -> bool {
    &&& dst.case == src.case
    &&& dst.variant == src.variant
    &&& dst.events.to_multiset() == paired_events(src.events).to_multiset()
    &&& events_sorted(dst.events)
}

/// Whether `p` lists each index below `n` exactly once.
pub open spec fn is_permutation(p: Seq<int>, n: int) -> bool {
    &&& p.len() == n
    &&& forall|i: int| 0 <= i < n ==> 0 <= #[trigger] p[i] < n
    &&& forall|i: int, j: int| 0 <= i < j < n ==> p[i] != p[j]
}

/// Whether `dst` is the interval log folded from lifecycle log `src`: one
/// folded trace per source trace, ordered by ascending key, under the
/// default column names. The equality with [`fold_traces`] pins the result
/// completely — equal inputs fold to structurally equal logs — and the
/// remaining clauses restate consequences in the forms callers use.
pub open spec fn log_folded(src: LifecycleLogView, dst: IntervalLogView) -> bool {
    &&& dst.columns == io::default_columns()
    &&& dst.traces == fold_traces(src.traces)
    &&& dst.traces.len() == src.traces.len()
    &&& traces_sorted(dst.traces)
    &&& exists|p: Seq<int>|
        #[trigger] is_permutation(p, src.traces.len() as int) && forall|j: int|
            0 <= j < dst.traces.len() ==> trace_folded(
                src.traces[p[j]],
                #[trigger] dst.traces[j],
            )
}

/// A lifecycle trace that cannot be folded: the offending activity group,
/// whose size is odd.
#[derive(Debug)]
pub struct ConversionError {
    pub group: Vec<lifecycle::Event>,
}

/// Whether `e` reports an actual odd-sized activity group of `src`.
pub open spec fn error_reported(src: LifecycleLogView, e: ConversionError) -> bool {
    exists|i: int, j: int|
        {
            &&& 0 <= i < src.traces.len()
            &&& 0 <= j < activity_groups(src.traces[i].events).len()
            &&& #[trigger] activity_groups(src.traces[i].events)[j] == e.group.deep_view()
            &&& e.group.deep_view().len() % 2 == 1
        }
}

// ---------------------------------------------------------------------------
// Reverse conversion.
// ---------------------------------------------------------------------------
/// Expands every interval record into its `start`/`complete` transition pair,
/// preserving trace and record order.
pub fn interval_to_lifecycle(event_log: &interval::EventLog) -> (r: lifecycle::EventLog)
    ensures
        r@ == expand_log(event_log@),
{
    let mut traces: Vec<lifecycle::Trace> = Vec::new();
    let n = event_log.traces.len();
    for i in 0..n
        invariant
            n == event_log.traces.len(),
            traces.deep_view() =~= event_log@.traces.take(i as int).map_values(
                |t: IntervalTraceView| expand_trace(t),
            ),
    {
        let trace = &event_log.traces[i];
        let mut events: Vec<lifecycle::Event> = Vec::new();
        let m = trace.events.len();
        for k in 0..m
            invariant
                m == trace.events.len(),
                events.deep_view() =~= expand_events(trace@.events.take(k as int)),
        {
            let e = &trace.events[k];
            events.push(
                lifecycle::Event {
                    activity: e.activity.clone(),
                    resource: e.resource.clone(),
                    timestamp: e.start_time.clone(),
                    lifecycle: String::from_str("start"),
                },
            );
            events.push(
                lifecycle::Event {
                    activity: e.activity.clone(),
                    resource: e.resource.clone(),
                    timestamp: e.end_time.clone(),
                    lifecycle: String::from_str("complete"),
                },
            );
            proof {
                trace@.events.lemma_take_succ_push(k as int);
                trace@.events.take(k as int).lemma_flat_map_push(
                    |e: IntervalEventView| expand_event(e),
                    trace@.events[k as int],
                );
            }
        }
        proof {
            trace@.events.lemma_take_len();
        }
        traces.push(
            lifecycle::Trace {
                case: trace.case.clone(),
                variant: trace.variant.clone(),
                events,
            },
        );
        proof {
            event_log@.traces.lemma_take_succ_push(i as int);
            event_log@.traces.take(i as int).lemma_push_map_commute(
                |t: IntervalTraceView| expand_trace(t),
                event_log@.traces[i as int],
            );
        }
    }
    proof {
        event_log@.traces.lemma_take_len();
    }
    lifecycle::EventLog { traces }
}

// ---------------------------------------------------------------------------
// Lemmas about grouping and pairing.
// ---------------------------------------------------------------------------
/// Appending a value extends the first-occurrence list exactly when the value
/// is new.
pub proof fn lemma_first_occurrences_push(xs: Seq<Seq<char>>, x: Seq<char>)
    ensures
        first_occurrences(xs.push(x)) == if xs.contains(x) {
            first_occurrences(xs)
        } else {
            first_occurrences(xs).push(x)
        },
    decreases xs.len(),
{
    broadcast use vstd::seq_lib::group_filter_ensures;

    if xs.len() == 0 {
        reveal_with_fuel(first_occurrences, 2);
        assert(xs.push(x).skip(1) =~= Seq::<Seq<char>>::empty());
        assert(Seq::<Seq<char>>::empty().filter(differs_from(x)) =~= Seq::<Seq<char>>::empty());
        assert(first_occurrences(xs.push(x)) =~= seq![x]);
        assert(first_occurrences(xs).push(x) =~= seq![x]);
    } else {
        let h = xs[0];
        let pred = differs_from(h);
        assert(xs.push(x).skip(1) =~= xs.skip(1).push(x));
        xs.skip(1).lemma_filter_push(x, pred);
        let filtered = xs.skip(1).filter(pred);
        if x == h {
            assert(first_occurrences(xs.push(x)) == seq![h] + first_occurrences(filtered));
            assert(xs.contains(x)) by {
                assert(xs[0] == x);
            }
        } else {
            lemma_first_occurrences_push(filtered, x);
            assert(first_occurrences(xs.push(x)) == seq![h] + first_occurrences(
                filtered.push(x),
            ));
            // x occurs in xs exactly when it occurs in the filtered tail
            assert(filtered.contains(x) <==> xs.contains(x)) by {
                if filtered.contains(x) {
                    xs.skip(1).lemma_filter_contains_rev(pred, x);
                    let j = choose|j: int| 0 <= j < xs.skip(1).len() && xs.skip(1)[j] == x;
                    assert(xs[j + 1] == x);
                }
                if xs.contains(x) {
                    let j = choose|j: int| 0 <= j < xs.len() && xs[j] == x;
                    assert(j != 0);
                    assert(xs.skip(1)[j - 1] == x);
                    xs.skip(1).lemma_filter_contains(pred, j - 1);
                }
            }
            if filtered.contains(x) {
            } else {
                assert(seq![h] + first_occurrences(filtered).push(x) =~= (seq![h]
                    + first_occurrences(filtered)).push(x));
            }
        }
    }
}

/// A value occurs among the first occurrences exactly when it occurs at all.
pub proof fn lemma_first_occurrences_contains(xs: Seq<Seq<char>>, x: Seq<char>)
    ensures
        first_occurrences(xs).contains(x) <==> xs.contains(x),
    decreases xs.len(),
{
    broadcast use vstd::seq_lib::group_filter_ensures;

    if xs.len() == 0 {
    } else {
        let h = xs[0];
        let pred = differs_from(h);
        let filtered = xs.skip(1).filter(pred);
        lemma_first_occurrences_contains(filtered, x);
        let fo = first_occurrences(xs);
        assert(fo == seq![h] + first_occurrences(filtered));
        if x == h {
            assert(fo[0] == x);
            assert(xs[0] == x);
        } else {
            assert(filtered.contains(x) <==> xs.contains(x)) by {
                if filtered.contains(x) {
                    xs.skip(1).lemma_filter_contains_rev(pred, x);
                    let j = choose|j: int| 0 <= j < xs.skip(1).len() && xs.skip(1)[j] == x;
                    assert(xs[j + 1] == x);
                }
                if xs.contains(x) {
                    let j = choose|j: int| 0 <= j < xs.len() && xs[j] == x;
                    assert(j != 0);
                    assert(xs.skip(1)[j - 1] == x);
                    xs.skip(1).lemma_filter_contains(pred, j - 1);
                }
            }
            assert(fo.contains(x) <==> first_occurrences(filtered).contains(x)) by {
                if fo.contains(x) {
                    let j = choose|j: int| 0 <= j < fo.len() && fo[j] == x;
                    assert(j != 0);
                    assert(first_occurrences(filtered)[j - 1] == x);
                }
                if first_occurrences(filtered).contains(x) {
                    let j = choose|j: int|
                        0 <= j < first_occurrences(filtered).len() && first_occurrences(
                            filtered,
                        )[j] == x;
                    assert(fo[j + 1] == x);
                }
            }
        }
    }
}

/// Folding two more transitions appends one more interval record.
pub proof fn lemma_pair_up_take_succ(g: Seq<LifecycleEventView>, i: int)
    requires
        0 <= i,
        i % 2 == 0,
        i + 2 <= g.len(),
    ensures
        pair_up(g.take(i + 2)) == pair_up(g.take(i)).push(pair_event(g[i], g[i + 1])),
    decreases i,
{
    if i == 0 {
        reveal_with_fuel(pair_up, 2);
        let t = g.take(2);
        assert(t.skip(2) =~= Seq::<LifecycleEventView>::empty());
        assert(pair_up(t) =~= seq![pair_event(g[0], g[1])]);
        assert(pair_up(g.take(0)).push(pair_event(g[0], g[1])) =~= seq![
            pair_event(g[0], g[1]),
        ]);
    } else {
        let r = g.skip(2);
        assert(g.take(i + 2).skip(2) =~= r.take(i));
        assert(g.take(i).skip(2) =~= r.take(i - 2));
        lemma_pair_up_take_succ(r, i - 2);
        assert(r[i - 2] == g[i]);
        assert(r[i - 1] == g[i + 1]);
        assert(g.take(i + 2)[0] == g[0]);
        assert(g.take(i + 2)[1] == g[1]);
        assert(g.take(i)[0] == g[0]);
        assert(g.take(i)[1] == g[1]);
        assert(seq![pair_event(g[0], g[1])] + pair_up(r.take(i - 2)).push(
            pair_event(g[i], g[i + 1]),
        ) =~= (seq![pair_event(g[0], g[1])] + pair_up(r.take(i - 2))).push(
            pair_event(g[i], g[i + 1]),
        ));
    }
}

// ---------------------------------------------------------------------------
// Forward conversion.
// ---------------------------------------------------------------------------
/// Folds one trace's events into interval records, group by group, in order
/// of each activity's first occurrence; the records are not yet ordered by
/// start instant. Fails on an odd-sized group, reporting it.
fn fold_trace_events(trace: &lifecycle::Trace) -> (r: Result<
    Vec<interval::Event>,
    ConversionError,
>)
    ensures
        r matches Ok(out) ==> out.deep_view() == paired_events(trace@.events),
        r is Ok <==> !has_odd_group(trace@.events),
        r matches Err(e) ==> {
            &&& exists|j: int|
                0 <= j < activity_groups(trace@.events).len() && #[trigger] activity_groups(
                    trace@.events,
                )[j] == e.group.deep_view()
            &&& e.group.deep_view().len() % 2 == 1
        },
{
    let ghost s = trace@.events;
    let n = trace.events.len();
    let start_tag = String::from_str("start");
    let complete_tag = String::from_str("complete");
    let mut out: Vec<interval::Event> = Vec::new();
    let mut k: usize = 0;
    while k < n
        invariant
            n == trace.events.len(),
            s == trace@.events,
            k <= n,
            start_tag@ == "start"@,
            complete_tag@ == "complete"@,
            out.deep_view() == first_occurrences(activity_names(s.take(k as int))).flat_map(
                run_pairs(s),
            ),
            forall|j: int|
                0 <= j < first_occurrences(activity_names(s.take(k as int))).len()
                    ==> activity_run(
                    s,
                    #[trigger] first_occurrences(activity_names(s.take(k as int)))[j],
                ).len() % 2 == 0,
        decreases n - k,
    {
        let ghost names_pre = activity_names(s.take(k as int));
        let ghost a_spec = s[k as int].activity;
        proof {
            s.lemma_take_succ_push(k as int);
            s.take(k as int).lemma_push_map_commute(
                |e: LifecycleEventView| e.activity,
                s[k as int],
            );
            assert(activity_names(s.take(k + 1 as int)) == names_pre.push(a_spec));
            lemma_first_occurrences_push(names_pre, a_spec);
        }
        // Is this the first occurrence of the activity within the trace?
        let mut seen = false;
        let mut j: usize = 0;
        while j < k
            invariant
                j <= k < n,
                n == trace.events.len(),
                s == trace@.events,
                seen <==> exists|t: int|
                    0 <= t < j && #[trigger] s[t].activity == s[k as int].activity,
            decreases k - j,
        {
            if trace.events[j].activity == trace.events[k].activity {
                seen = true;
                proof {
                    assert(s[j as int].activity == s[k as int].activity);
                }
            }
            j += 1;
        }
        proof {
            assert(seen <==> names_pre.contains(a_spec)) by {
                if seen {
                    let t = choose|t: int| 0 <= t < k && s[t].activity == a_spec;
                    assert(names_pre[t] == a_spec);
                }
                if names_pre.contains(a_spec) {
                    let t = choose|t: int| 0 <= t < names_pre.len() && names_pre[t] == a_spec;
                    assert(s[t].activity == a_spec);
                }
            }
        }
        if !seen {
            let a = trace.events[k].activity.clone();
            // Collect the whole run of this activity, in trace order.
            let mut g: Vec<lifecycle::Event> = Vec::new();
            let mut t: usize = 0;
            while t < n
                invariant
                    t <= n,
                    n == trace.events.len(),
                    s == trace@.events,
                    a@ == a_spec,
                    g.deep_view() == s.take(t as int).filter(has_activity(a_spec)),
                decreases n - t,
            {
                let ghost gpre = g.deep_view();
                if trace.events[t].activity == a {
                    g.push(trace.events[t].clone());
                    proof {
                        assert(g.deep_view() =~= gpre.push(s[t as int]));
                    }
                }
                proof {
                    s.lemma_take_succ_push(t as int);
                    s.take(t as int).lemma_filter_push(s[t as int], has_activity(a_spec));
                }
                t += 1;
            }
            proof {
                s.lemma_take_len();
                assert(g.deep_view() == activity_run(s, a_spec));
            }
            if g.len() % 2 == 1 {
                proof {
                    lemma_first_occurrences_contains(activity_names(s), a_spec);
                    assert(activity_names(s).contains(a_spec)) by {
                        assert(activity_names(s)[k as int] == a_spec);
                    }
                    let j0 = choose|j0: int|
                        0 <= j0 < first_occurrences(activity_names(s)).len()
                            && first_occurrences(activity_names(s))[j0] == a_spec;
                    assert(activity_groups(s)[j0] == activity_run(s, a_spec));
                }
                return Err(ConversionError { group: g });
            }
            // Pair consecutive members of the group.
            let mut pairs: Vec<interval::Event> = Vec::new();
            let glen = g.len();
            let mut i: usize = 0;
            while i < glen
                invariant
                    i <= glen == g.len(),
                    i % 2 == 0,
                    glen % 2 == 0,
                    g.deep_view() == activity_run(s, a_spec),
                    start_tag@ == "start"@,
                    complete_tag@ == "complete"@,
                    pairs.deep_view() == pair_up(g.deep_view().take(i as int)),
                decreases glen - i,
            {
                let ghost ppre = pairs.deep_view();
                let first = &g[i];
                let second = &g[i + 1];
                let ev = interval::Event {
                    activity: first.activity.clone(),
                    resource: first.resource.clone(),
                    start_time: if second.lifecycle == start_tag {
                        second.timestamp.clone()
                    } else {
                        first.timestamp.clone()
                    },
                    end_time: if second.lifecycle == complete_tag {
                        second.timestamp.clone()
                    } else {
                        first.timestamp.clone()
                    },
                };
                pairs.push(ev);
                proof {
                    let gv = g.deep_view();
                    assert(ev@ == pair_event(gv[i as int], gv[i + 1 as int]));
                    lemma_pair_up_take_succ(gv, i as int);
                    assert(pairs.deep_view() =~= ppre.push(ev@));
                }
                i += 2;
            }
            proof {
                g.deep_view().lemma_take_len();
                assert(pairs.deep_view() == pair_up(activity_run(s, a_spec)));
            }
            let ghost opre = out.deep_view();
            out.append(&mut pairs);
            proof {
                assert(out.deep_view() =~= opre + pair_up(activity_run(s, a_spec)));
                first_occurrences(names_pre).lemma_flat_map_push(run_pairs(s), a_spec);
                assert(first_occurrences(activity_names(s.take(k + 1 as int)))
                    == first_occurrences(names_pre).push(a_spec));
                assert(run_pairs(s)(a_spec) == pair_up(activity_run(s, a_spec)));
            }
        }
        k += 1;
    }
    proof {
        s.lemma_take_len();
        assert(out.deep_view() == paired_events(s));
        assert(!has_odd_group(s)) by {
            assert forall|j: int| 0 <= j < activity_groups(s).len() implies #[trigger] activity_groups(
                s,
            )[j].len() % 2 == 0 by {
                assert(activity_groups(s)[j] == activity_run(
                    s,
                    first_occurrences(activity_names(s))[j],
                ));
            }
        }
    }
    Ok(out)
}

/// Inserting into a sequence inserts into its multiset.
pub proof fn lemma_insert_to_multiset<A>(s: Seq<A>, i: int, a: A)
    requires
        0 <= i <= s.len(),
    ensures
        s.insert(i, a).to_multiset() =~= s.to_multiset().insert(a),
{
    broadcast use vstd::seq_lib::group_to_multiset_ensures;
    broadcast use vstd::multiset::group_multiset_axioms;

    let left = s.subrange(0, i);
    let right = s.subrange(i, s.len() as int);
    assert(s =~= left + right);
    lemma_multiset_commutative(left, right);
    lemma_multiset_commutative(left.push(a), right);
    assert(left.push(a).to_multiset() =~= left.to_multiset().insert(a));
}

/// Inserting at the boundary position: an ordered insertion lands exactly
/// before the first element whose key strictly exceeds the new one.
proof fn lemma_insert_ordered_at<A>(s: Seq<A>, e: A, j: int, key: spec_fn(A) -> int)
    requires
        0 <= j <= s.len(),
        forall|i: int| 0 <= i < j ==> key(#[trigger] s[i]) <= key(e),
        j < s.len() ==> key(s[j]) > key(e),
    ensures
        insert_ordered(s, e, key) == s.insert(j, e),
    decreases s.len(),
{
    if j == 0 {
        if s.len() == 0 {
            assert(insert_ordered(s, e, key) =~= s.insert(0, e));
        } else {
            assert(key(s[0]) > key(e));
            assert(seq![e] + s =~= s.insert(0, e));
        }
    } else {
        assert(key(s[0]) <= key(e));
        assert forall|i: int| 0 <= i < j - 1 implies key(#[trigger] s.skip(1)[i]) <= key(e) by {
            assert(s.skip(1)[i] == s[i + 1]);
        }
        assert(j - 1 < s.skip(1).len() ==> key(s.skip(1)[j - 1]) > key(e)) by {
            if j < s.len() {
                assert(s.skip(1)[j - 1] == s[j]);
            }
        }
        lemma_insert_ordered_at(s.skip(1), e, j - 1, key);
        s.skip(1).insert_ensures(j - 1, e);
        assert(seq![s[0]] + s.skip(1).insert(j - 1, e) =~= s.insert(j, e));
    }
}

/// Ordering one more element inserts it into the ordered prefix.
proof fn lemma_sort_ordered_step<A>(s: Seq<A>, k: int, key: spec_fn(A) -> int)
    requires
        0 <= k < s.len(),
    ensures
        sort_ordered(s.take(k + 1), key) == insert_ordered(
            sort_ordered(s.take(k), key),
            s[k],
            key,
        ),
{
    let t = s.take(k + 1);
    assert(t.drop_last() =~= s.take(k));
    assert(t.last() == s[k]);
}

/// Orders interval records by ascending start instant, stably: the result is
/// exactly `sort_ordered` of the input, and the record multiset is
/// unchanged.
fn sort_events(v: Vec<interval::Event>) -> (r: Vec<interval::Event>)
    ensures
        r.deep_view() == sort_ordered(v.deep_view(), start_key_fn()),
        r.deep_view().to_multiset() == v.deep_view().to_multiset(),
        events_sorted(r.deep_view()),
{
    let ghost v0 = v.deep_view();
    let mut rest = v;
    let mut out: Vec<interval::Event> = Vec::new();
    proof {
        broadcast use vstd::seq_lib::group_to_multiset_ensures;
        broadcast use vstd::multiset::group_multiset_axioms;

        assert(out.deep_view().to_multiset().add(rest.deep_view().to_multiset())
            =~= v0.to_multiset());
        assert(v0.take(0) =~= Seq::<IntervalEventView>::empty());
        assert(sort_ordered(Seq::<IntervalEventView>::empty(), start_key_fn()) == Seq::<
            IntervalEventView,
        >::empty());
        assert(rest.deep_view() =~= v0.skip(0));
    }
    while rest.len() > 0
        invariant
            out.len() + rest.len() == v0.len(),
            rest.deep_view() == v0.skip(out.len() as int),
            out.deep_view() == sort_ordered(v0.take(out.len() as int), start_key_fn()),
            out.deep_view().to_multiset().add(rest.deep_view().to_multiset()) == v0.to_multiset(),
            events_sorted(out.deep_view()),
        decreases rest.len(),
    {
        let ghost k = out.len() as int;
        let ghost rest_pre = rest.deep_view();
        let ghost out_pre = out.deep_view();
        let ghost rest_exec_pre = rest@;
        let e = rest.remove(0);
        proof {
            broadcast use vstd::seq_lib::group_to_multiset_ensures;
            broadcast use vstd::multiset::group_multiset_axioms;

            assert(rest_pre[0] == rest_exec_pre[0].deep_view());
            assert(e.deep_view() == rest_pre[0]);
            assert(e@ == v0[k]);
            assert(rest.deep_view() =~= rest_pre.remove(0));
            assert(rest.deep_view() =~= v0.skip(k + 1));
            assert(rest.deep_view().to_multiset() =~= rest_pre.to_multiset().remove(e@));
        }
        let mut idx: usize = 0;
        while idx < out.len() && out[idx].start_time.millis <= e.start_time.millis
            invariant
                idx <= out.len(),
                out.deep_view() == out_pre,
                forall|t: int|
                    0 <= t < idx ==> #[trigger] out_pre[t].start_time.millis
                        <= e@.start_time.millis,
            decreases out.len() - idx,
        {
            idx += 1;
        }
        let ghost pos = idx as int;
        out.insert(idx, e);
        proof {
            broadcast use vstd::seq_lib::group_to_multiset_ensures;
            broadcast use vstd::multiset::group_multiset_axioms;

            out_pre.insert_ensures(pos, e@);
            assert(out.deep_view() =~= out_pre.insert(pos, e@));
            lemma_insert_to_multiset(out_pre, pos, e@);
            assert forall|i: int| 0 <= i < pos implies start_key_fn()(#[trigger] out_pre[i])
                <= start_key_fn()(e@) by {
                assert(out_pre[i].start_time.millis <= e@.start_time.millis);
            }
            assert(pos < out_pre.len() ==> start_key_fn()(out_pre[pos]) > start_key_fn()(e@));
            lemma_insert_ordered_at(out_pre, e@, pos, start_key_fn());
            lemma_sort_ordered_step(v0, k, start_key_fn());
            assert(out.deep_view() == sort_ordered(v0.take(k + 1), start_key_fn()));
            let cur = out.deep_view();
            assert(events_sorted(cur)) by {
                assert forall|x: int, y: int| 0 <= x < y < cur.len() implies cur[x].start_time.millis
                    <= cur[y].start_time.millis by {
                    if y < pos {
                    } else if x < pos && y == pos {
                    } else if x < pos && y > pos {
                        assert(cur[y] == out_pre[y - 1]);
                    } else if x == pos {
                        assert(out_pre[pos].start_time.millis >= e@.start_time.millis);
                        assert(cur[y] == out_pre[y - 1]);
                    } else {
                        assert(cur[x] == out_pre[x - 1]);
                        assert(cur[y] == out_pre[y - 1]);
                    }
                }
            }
        }
    }
    proof {
        assert(v0.take(v0.len() as int) =~= v0);
    }
    out
}

/// The ordering key of a trace.
fn trace_sort_key(t: &interval::Trace) -> (r: i64)
    ensures
        r == trace_key(t@),
{
    if t.events.len() == 0 {
        i64::MIN
    } else {
        t.events[0].start_time.millis
    }
}

/// Orders interval traces by ascending key (the start instant of the
/// earliest record), stably: the result is exactly `sort_ordered` of the
/// input. Also returns the position each trace held in the input.
fn sort_traces(v: Vec<interval::Trace>) -> (r: (Vec<interval::Trace>, Ghost<Seq<int>>))
    ensures
        r.0.deep_view() == sort_ordered(v.deep_view(), trace_key_fn()),
        r.0.len() == v.len(),
        is_permutation(r.1@, v.len() as int),
        forall|j: int| 0 <= j < r.0.len() ==> #[trigger] r.0.deep_view()[j] == v.deep_view()[r.1@[j]],
        traces_sorted(r.0.deep_view()),
{
    let ghost v0 = v.deep_view();
    let mut rest = v;
    let mut out: Vec<interval::Trace> = Vec::new();
    let mut perm: Ghost<Seq<int>> = Ghost(Seq::empty());
    proof {
        assert(v0.take(0) =~= Seq::<IntervalTraceView>::empty());
        assert(sort_ordered(Seq::<IntervalTraceView>::empty(), trace_key_fn()) == Seq::<
            IntervalTraceView,
        >::empty());
        assert(rest.deep_view() =~= v0.skip(0));
    }
    while rest.len() > 0
        invariant
            out.len() + rest.len() == v0.len(),
            perm@.len() == out.len(),
            rest.deep_view() == v0.skip(out.len() as int),
            out.deep_view() == sort_ordered(v0.take(out.len() as int), trace_key_fn()),
            forall|j: int| 0 <= j < perm@.len() ==> 0 <= #[trigger] perm@[j] < v0.len() - rest.len(),
            forall|x: int, y: int| 0 <= x < y < perm@.len() ==> perm@[x] != perm@[y],
            forall|j: int| 0 <= j < out.len() ==> #[trigger] out.deep_view()[j] == v0[perm@[j]],
            traces_sorted(out.deep_view()),
        decreases rest.len(),
    {
        let ghost k = out.len() as int;
        let ghost rest_pre = rest.deep_view();
        let ghost out_pre = out.deep_view();
        let ghost rest_exec_pre = rest@;
        let t = rest.remove(0);
        proof {
            assert(rest_pre[0] == rest_exec_pre[0].deep_view());
            assert(t.deep_view() == rest_pre[0]);
            assert(rest_pre == v0.skip(k));
            assert(t@ == v0[k]);
            assert(rest.deep_view() =~= rest_pre.remove(0));
            assert(rest.deep_view() =~= v0.skip(k + 1));
        }
        let key = trace_sort_key(&t);
        let mut idx: usize = 0;
        while idx < out.len() && trace_sort_key(&out[idx]) <= key
            invariant
                idx <= out.len(),
                out.deep_view() == out_pre,
                key == trace_key(t@),
                forall|j: int| 0 <= j < idx ==> trace_key(#[trigger] out_pre[j]) <= trace_key(t@),
            decreases out.len() - idx,
        {
            idx += 1;
        }
        let ghost pos = idx as int;
        out.insert(idx, t);
        proof {
            out_pre.insert_ensures(pos, t@);
            assert(out.deep_view() =~= out_pre.insert(pos, t@));
            assert forall|i: int| 0 <= i < pos implies trace_key_fn()(#[trigger] out_pre[i])
                <= trace_key_fn()(t@) by {
                assert(trace_key(out_pre[i]) <= trace_key(t@));
            }
            assert(pos < out_pre.len() ==> trace_key_fn()(out_pre[pos]) > trace_key_fn()(t@));
            lemma_insert_ordered_at(out_pre, t@, pos, trace_key_fn());
            lemma_sort_ordered_step(v0, k, trace_key_fn());
            assert(out.deep_view() == sort_ordered(v0.take(k + 1), trace_key_fn()));
        }
        perm = Ghost(perm@.insert(pos, k));
        proof {
            perm@.remove(pos).insert_ensures(pos, k);
            let cur = out.deep_view();
            assert(traces_sorted(cur)) by {
                assert forall|x: int, y: int| 0 <= x < y < cur.len() implies trace_key(cur[x])
                    <= trace_key(cur[y]) by {
                    if y < pos {
                    } else if x < pos && y == pos {
                    } else if x < pos && y > pos {
                        assert(cur[y] == out_pre[y - 1]);
                    } else if x == pos {
                        assert(trace_key(out_pre[pos]) >= trace_key(t@));
                        assert(cur[y] == out_pre[y - 1]);
                    } else {
                        assert(cur[x] == out_pre[x - 1]);
                        assert(cur[y] == out_pre[y - 1]);
                    }
                }
            }
        }
    }
    proof {
        assert(rest.deep_view().len() == 0);
        assert(v0.take(v0.len() as int) =~= v0);
    }
    (out, perm)
}

/// Folds a lifecycle log into an interval log: per trace, events are grouped
/// by activity (keeping trace order within a group), consecutive pairs of
/// each group become one record, and records and traces are ordered by
/// ascending start instant. Fails exactly when some trace has an odd-sized
/// activity group, reporting that group.
pub fn lifecycle_to_interval(lifecycle_log: &lifecycle::EventLog) -> (r: Result<
    interval::EventLog,
    ConversionError,
>)
    ensures
        r matches Ok(out) ==> log_folded(lifecycle_log@, out@),
        r is Ok <==> (forall|i: int|
            0 <= i < lifecycle_log@.traces.len() ==> !has_odd_group(
                #[trigger] lifecycle_log@.traces[i].events,
            )),
        r matches Err(e) ==> error_reported(lifecycle_log@, e),
{
    let n = lifecycle_log.traces.len();
    let mut folded: Vec<interval::Trace> = Vec::new();
    proof {
        assert(lifecycle_log@.traces.take(0).map_values(
            |t: LifecycleTraceView| fold_trace(t),
        ) =~= Seq::<IntervalTraceView>::empty());
        assert(folded.deep_view() =~= Seq::<IntervalTraceView>::empty());
    }
    for i in 0..n
        invariant
            n == lifecycle_log.traces.len(),
            folded.len() == i,
            folded.deep_view() == lifecycle_log@.traces.take(i as int).map_values(
                |t: LifecycleTraceView| fold_trace(t),
            ),
            forall|j: int|
                0 <= j < i ==> trace_folded(
                    lifecycle_log@.traces[j],
                    #[trigger] folded.deep_view()[j],
                ),
            forall|j: int|
                0 <= j < i ==> !has_odd_group(#[trigger] lifecycle_log@.traces[j].events),
    {
        let trace = &lifecycle_log.traces[i];
        proof {
            assert(trace@ == lifecycle_log@.traces[i as int]);
        }
        match fold_trace_events(trace) {
            Ok(events) => {
                let ghost fpre = folded.deep_view();
                let sorted = sort_events(events);
                folded.push(
                    interval::Trace {
                        case: trace.case.clone(),
                        variant: trace.variant.clone(),
                        events: sorted,
                    },
                );
                proof {
                    assert(folded.deep_view() =~= fpre.push(folded.deep_view().last()));
                    assert(folded.deep_view().last() =~= fold_trace(
                        lifecycle_log@.traces[i as int],
                    ));
                    lifecycle_log@.traces.lemma_take_succ_push(i as int);
                    lifecycle_log@.traces.take(i as int).lemma_push_map_commute(
                        |t: LifecycleTraceView| fold_trace(t),
                        lifecycle_log@.traces[i as int],
                    );
                    assert(trace_folded(
                        lifecycle_log@.traces[i as int],
                        folded.deep_view()[i as int],
                    ));
                }
            },
            Err(e) => {
                proof {
                    let j = choose|j: int|
                        0 <= j < activity_groups(trace@.events).len()
                            && #[trigger] activity_groups(trace@.events)[j]
                            == e.group.deep_view();
                    assert(0 <= i < lifecycle_log@.traces.len() && 0 <= j < activity_groups(
                        lifecycle_log@.traces[i as int].events,
                    ).len() && activity_groups(lifecycle_log@.traces[i as int].events)[j]
                        == e.group.deep_view());
                }
                return Err(e);
            },
        }
    }
    let (sorted_traces, perm) = sort_traces(folded);
    let out = interval::EventLog {
        traces: sorted_traces,
        columns: EventLogColumns::default_style(),
    };
    proof {
        let p = perm@;
        assert(is_permutation(p, lifecycle_log@.traces.len() as int));
        assert(forall|j: int|
            0 <= j < out@.traces.len() ==> trace_folded(
                lifecycle_log@.traces[p[j]],
                #[trigger] out@.traces[j],
            ));
        assert(lifecycle_log@.traces.take(n as int) =~= lifecycle_log@.traces);
        assert(out@.traces == fold_traces(lifecycle_log@.traces));
    }
    Ok(out)
}

// ---------------------------------------------------------------------------
// Laws: what folding and expanding preserve.
// ---------------------------------------------------------------------------
/// The activity names of interval records, in record order.
pub open spec fn record_names(es: Seq<IntervalEventView>) -> Seq<Seq<char>> {
    es.map_values(|e: IntervalEventView| e.activity)
}

/// The predicate holding of the records whose activity is `a`.
pub open spec fn record_has_activity(a: Seq<char>) -> spec_fn(IntervalEventView) -> bool {
    |e: IntervalEventView| e.activity == a
}

/// The predicate holding of the records whose activity is not `a`.
pub open spec fn record_lacks_activity(a: Seq<char>) -> spec_fn(IntervalEventView) -> bool {
    |e: IntervalEventView| e.activity != a
}

/// The records of `es` carrying a given activity, in record order.
pub open spec fn record_run(es: Seq<IntervalEventView>) -> spec_fn(Seq<char>) -> Seq<
    IntervalEventView,
> {
    |a: Seq<char>| es.filter(record_has_activity(a))
}

/// Mapping an empty sequence and concatenating gives the empty sequence.
proof fn lemma_flat_map_empty<A, B>(f: spec_fn(A) -> Seq<B>)
    ensures
        Seq::<A>::empty().flat_map(f) == Seq::<B>::empty(),
{
    let m = Seq::<A>::empty().map_values(f);
    assert(m =~= Seq::<Seq<B>>::empty());
    assert(Seq::<Seq<B>>::empty().flatten() =~= Seq::<B>::empty());
}

/// Concatenating a mapped sequence starts with the first element's image.
proof fn lemma_flat_map_first<A, B>(s: Seq<A>, f: spec_fn(A) -> Seq<B>)
    requires
        s.len() > 0,
    ensures
        s.flat_map(f) == f(s[0]) + s.skip(1).flat_map(f),
{
    let m = s.map_values(f);
    assert(m.drop_first() =~= s.skip(1).map_values(f));
    assert(m.first() == f(s[0]));
    assert(m.flatten() == m.first() + m.drop_first().flatten());
}

/// Functions equal on a sequence's elements flat-map it equally.
proof fn lemma_flat_map_congruence<A, B>(s: Seq<A>, f: spec_fn(A) -> Seq<B>, g: spec_fn(A) -> Seq<
    B,
>)
    requires
        forall|i: int| 0 <= i < s.len() ==> f(#[trigger] s[i]) == g(s[i]),
    ensures
        s.flat_map(f) == s.flat_map(g),
{
    assert(s.map_values(f) =~= s.map_values(g));
}

/// A sequence's multiset splits along any predicate and its complement.
proof fn lemma_filter_split_multiset<A>(s: Seq<A>, p: spec_fn(A) -> bool, q: spec_fn(A) -> bool)
    requires
        forall|x: A| #[trigger] q(x) <==> !p(x),
    ensures
        s.filter(p).to_multiset().add(s.filter(q).to_multiset()) =~= s.to_multiset(),
    decreases s.len(),
{
    broadcast use vstd::seq_lib::group_to_multiset_ensures;
    broadcast use vstd::multiset::group_multiset_axioms;
    broadcast use vstd::seq_lib::group_filter_ensures;

    if s.len() == 0 {
        assert(s.filter(p) =~= Seq::<A>::empty());
        assert(s.filter(q) =~= Seq::<A>::empty());
        assert(s.to_multiset() =~= Multiset::<A>::empty());
        assert(Seq::<A>::empty().to_multiset() =~= Multiset::<A>::empty());
    } else {
        let d = s.drop_last();
        let x = s.last();
        lemma_filter_split_multiset(d, p, q);
        assert(s =~= d.push(x));
        d.lemma_filter_push(x, p);
        d.lemma_filter_push(x, q);
        assert(q(x) <==> !p(x));
    }
}

/// Filtering splits off the first element.
proof fn lemma_filter_first<A>(s: Seq<A>, p: spec_fn(A) -> bool)
    requires
        s.len() > 0,
    ensures
        s.filter(p) == if p(s[0]) {
            seq![s[0]] + s.skip(1).filter(p)
        } else {
            s.skip(1).filter(p)
        },
{
    broadcast use vstd::seq_lib::group_filter_ensures;

    assert(s =~= seq![s[0]] + s.skip(1));
    Seq::<A>::filter_distributes_over_add(seq![s[0]], s.skip(1), p);
    assert(seq![s[0]] =~= Seq::<A>::empty().push(s[0]));
    Seq::<A>::empty().lemma_filter_push(s[0], p);
    assert(Seq::<A>::empty().filter(p) =~= Seq::<A>::empty());
    if p(s[0]) {
        assert(Seq::<A>::empty().filter(p).push(s[0]) =~= seq![s[0]]);
    } else {
        assert(Seq::<A>::empty().filter(p) + s.skip(1).filter(p) =~= s.skip(1).filter(p));
    }
}

/// Where each transition of an expanded record sequence comes from: the
/// record at half its position.
proof fn lemma_expand_events_index(es: Seq<IntervalEventView>)
    ensures
        expand_events(es).len() == 2 * es.len(),
        forall|k: int|
            0 <= k < es.len() ==> expand_events(es)[2 * k] == start_of(#[trigger] es[k])
                && expand_events(es)[2 * k + 1] == complete_of(es[k]),
    decreases es.len(),
{
    let f = |e: IntervalEventView| expand_event(e);
    if es.len() == 0 {
        lemma_flat_map_empty(f);
    } else {
        let d = es.drop_last();
        lemma_expand_events_index(d);
        assert(es =~= d.push(es.last()));
        d.lemma_flat_map_push(f, es.last());
        assert(expand_events(es) == expand_events(d) + expand_event(es.last()));
        assert forall|k: int| 0 <= k < es.len() implies expand_events(es)[2 * k] == start_of(
            #[trigger] es[k],
        ) && expand_events(es)[2 * k + 1] == complete_of(es[k]) by {
            if k < es.len() - 1 {
                assert(expand_events(es)[2 * k] == expand_events(d)[2 * k]);
                assert(expand_events(es)[2 * k + 1] == expand_events(d)[2 * k + 1]);
                assert(es[k] == d[k]);
            } else {
                assert(expand_events(es)[2 * k] == expand_event(es.last())[0]);
                assert(expand_events(es)[2 * k + 1] == expand_event(es.last())[1]);
            }
        }
    }
}

/// The two lifecycle tags differ.
proof fn lemma_tags_differ()
    ensures
        "start"@ != "complete"@,
{
    reveal_strlit("start");
    reveal_strlit("complete");
    assert("start"@.len() == 5);
    assert("complete"@.len() == 8);
}

/// Folding the expansion of a record sequence restores it exactly.
proof fn lemma_pair_up_expand(es: Seq<IntervalEventView>)
    ensures
        pair_up(expand_events(es)) == es,
{
    lemma_expand_events_index(es);
    lemma_tags_differ();
    let g = expand_events(es);
    assert forall|k: int| 0 <= k < es.len() implies pair_event(g[2 * k], g[2 * k + 1]) == es[k] by {
        assert(g[2 * k] == start_of(es[k]));
        assert(g[2 * k + 1] == complete_of(es[k]));
        assert(pair_event(start_of(es[k]), complete_of(es[k])) =~= es[k]);
    }
    lemma_pair_up_expand_prefix(es, es.len() as int);
    g.lemma_take_len();
    es.lemma_take_len();
}

/// Folding a prefix of an expansion restores the matching record prefix.
proof fn lemma_pair_up_expand_prefix(es: Seq<IntervalEventView>, k: int)
    requires
        0 <= k <= es.len(),
    ensures
        pair_up(expand_events(es).take(2 * k)) == es.take(k),
    decreases k,
{
    let g = expand_events(es);
    lemma_expand_events_index(es);
    lemma_tags_differ();
    if k == 0 {
        assert(g.take(0) =~= Seq::<LifecycleEventView>::empty());
        assert(pair_up(g.take(0)) =~= Seq::<IntervalEventView>::empty());
        assert(es.take(0) =~= Seq::<IntervalEventView>::empty());
    } else {
        lemma_pair_up_expand_prefix(es, k - 1);
        lemma_pair_up_take_succ(g, 2 * (k - 1));
        assert(pair_event(g[2 * (k - 1)], g[2 * (k - 1) + 1]) =~= es[k - 1]);
        assert(es.take(k) =~= es.take(k - 1).push(es[k - 1]));
    }
}

/// Filtering by activity commutes with taking names.
proof fn lemma_names_filter_commute(es: Seq<IntervalEventView>, a: Seq<char>)
    ensures
        record_names(es).filter(differs_from(a)) == record_names(
            es.filter(record_lacks_activity(a)),
        ),
    decreases es.len(),
{
    broadcast use vstd::seq_lib::group_filter_ensures;

    let name_of = |e: IntervalEventView| e.activity;
    if es.len() == 0 {
        assert(record_names(es) =~= Seq::<Seq<char>>::empty());
        assert(Seq::<Seq<char>>::empty().filter(differs_from(a)) =~= Seq::<Seq<char>>::empty());
        assert(es.filter(record_lacks_activity(a)) =~= Seq::<IntervalEventView>::empty());
        assert(record_names(es.filter(record_lacks_activity(a))) =~= Seq::<Seq<char>>::empty());
    } else {
        let d = es.drop_last();
        let x = es.last();
        lemma_names_filter_commute(d, a);
        assert(es =~= d.push(x));
        d.lemma_push_map_commute(name_of, x);
        assert(record_names(es) == record_names(d).push(x.activity));
        record_names(d).lemma_filter_push(x.activity, differs_from(a));
        d.lemma_filter_push(x, record_lacks_activity(a));
        if x.activity != a {
            d.filter(record_lacks_activity(a)).lemma_push_map_commute(name_of, x);
        }
    }
}

/// A record's activity occurs among the expansion's names exactly when it
/// occurs among the record names.
proof fn lemma_expand_names_contains(es: Seq<IntervalEventView>, a: Seq<char>)
    ensures
        activity_names(expand_events(es)).contains(a) <==> record_names(es).contains(a),
{
    lemma_expand_events_index(es);
    let le = activity_names(expand_events(es));
    let re = record_names(es);
    if le.contains(a) {
        let j = choose|j: int| 0 <= j < le.len() && le[j] == a;
        let k = j / 2;
        assert(expand_events(es)[2 * k] == start_of(es[k]) && expand_events(es)[2 * k + 1]
            == complete_of(es[k]));
        assert(expand_events(es)[j].activity == es[k].activity);
        assert(re[k] == a);
    }
    if re.contains(a) {
        let k = choose|k: int| 0 <= k < re.len() && re[k] == a;
        assert(expand_events(es)[2 * k] == start_of(es[k]));
        assert(le[2 * k] == a);
    }
}

/// Expanding does not change which activities occur first, nor in what
/// order.
proof fn lemma_expand_first_occurrences(es: Seq<IntervalEventView>)
    ensures
        first_occurrences(activity_names(expand_events(es))) == first_occurrences(
            record_names(es),
        ),
    decreases es.len(),
{
    let f = |e: IntervalEventView| expand_event(e);
    let name_of = |e: IntervalEventView| e.activity;
    let lc_name_of = |e: LifecycleEventView| e.activity;
    if es.len() == 0 {
        lemma_flat_map_empty(f);
        assert(activity_names(expand_events(es)) =~= Seq::<Seq<char>>::empty());
        assert(record_names(es) =~= Seq::<Seq<char>>::empty());
    } else {
        let d = es.drop_last();
        let x = es.last();
        let a = x.activity;
        lemma_expand_first_occurrences(d);
        assert(es =~= d.push(x));
        d.lemma_flat_map_push(f, x);
        assert(expand_events(es) == expand_events(d) + expand_event(x));
        let ed = expand_events(d);
        assert(expand_events(es) =~= ed.push(start_of(x)).push(complete_of(x)));
        ed.lemma_push_map_commute(lc_name_of, start_of(x));
        ed.push(start_of(x)).lemma_push_map_commute(lc_name_of, complete_of(x));
        assert(activity_names(expand_events(es)) == activity_names(ed).push(a).push(a));
        lemma_first_occurrences_push(activity_names(ed), a);
        lemma_first_occurrences_push(activity_names(ed).push(a), a);
        assert(activity_names(ed).push(a).contains(a)) by {
            assert(activity_names(ed).push(a).last() == a);
        }
        d.lemma_push_map_commute(name_of, x);
        assert(record_names(es) == record_names(d).push(a));
        lemma_first_occurrences_push(record_names(d), a);
        lemma_expand_names_contains(d, a);
    }
}

/// An activity's run within an expansion is the expansion of the activity's
/// records.
proof fn lemma_expand_run(es: Seq<IntervalEventView>, a: Seq<char>)
    ensures
        activity_run(expand_events(es), a) == expand_events(es.filter(record_has_activity(a))),
    decreases es.len(),
{
    broadcast use vstd::seq_lib::group_filter_ensures;

    let f = |e: IntervalEventView| expand_event(e);
    if es.len() == 0 {
        lemma_flat_map_empty(f);
        assert(expand_events(es) =~= Seq::<LifecycleEventView>::empty());
        assert(Seq::<LifecycleEventView>::empty().filter(has_activity(a)) =~= Seq::<
            LifecycleEventView,
        >::empty());
        assert(es.filter(record_has_activity(a)) =~= Seq::<IntervalEventView>::empty());
    } else {
        let d = es.drop_last();
        let x = es.last();
        lemma_expand_run(d, a);
        assert(es =~= d.push(x));
        d.lemma_flat_map_push(f, x);
        let ed = expand_events(d);
        assert(expand_events(es) =~= ed.push(start_of(x)).push(complete_of(x)));
        ed.lemma_filter_push(start_of(x), has_activity(a));
        ed.push(start_of(x)).lemma_filter_push(complete_of(x), has_activity(a));
        d.lemma_filter_push(x, record_has_activity(a));
        if x.activity == a {
            d.filter(record_has_activity(a)).lemma_flat_map_push(f, x);
            assert(activity_run(expand_events(es), a) =~= expand_events(
                es.filter(record_has_activity(a)),
            ));
        }
    }
}

/// Flat-mapping each first-occurring activity to its records partitions a
/// record sequence: the multiset of records is unchanged.
proof fn lemma_partition_by_activity(es: Seq<IntervalEventView>)
    ensures
        first_occurrences(record_names(es)).flat_map(record_run(es)).to_multiset()
            =~= es.to_multiset(),
    decreases es.len(),
{
    broadcast use vstd::seq_lib::group_to_multiset_ensures;
    broadcast use vstd::multiset::group_multiset_axioms;
    broadcast use vstd::seq_lib::group_filter_ensures;

    if es.len() == 0 {
        assert(record_names(es) =~= Seq::<Seq<char>>::empty());
        lemma_flat_map_empty(record_run(es));
        assert(Seq::<IntervalEventView>::empty().to_multiset() =~= Multiset::<
            IntervalEventView,
        >::empty());
    } else {
        let a0 = es[0].activity;
        let tail = es.skip(1);
        let rest = tail.filter(record_lacks_activity(a0));
        // the first-occurrence list peels off a0
        assert(record_names(es)[0] == a0);
        assert(record_names(es).skip(1) =~= record_names(tail)) by {
            assert(record_names(es).skip(1).len() == record_names(tail).len());
            assert forall|i: int|
                0 <= i < record_names(tail).len() implies record_names(es).skip(1)[i]
                == record_names(tail)[i] by {
                assert(record_names(es)[i + 1] == es[i + 1].activity);
                assert(tail[i] == es[i + 1]);
            }
        }
        lemma_names_filter_commute(tail, a0);
        assert(first_occurrences(record_names(es)) == seq![a0] + first_occurrences(
            record_names(rest),
        ));
        // decompose the flat_map
        let fo_rest = first_occurrences(record_names(rest));
        let whole = seq![a0] + fo_rest;
        lemma_flat_map_first(whole, record_run(es));
        assert(whole[0] == a0);
        assert(whole.skip(1) =~= fo_rest);
        // later groups draw the same records from `es` and from `rest`
        assert forall|i: int|
            0 <= i < fo_rest.len() implies record_run(es)(#[trigger] fo_rest[i]) == record_run(
            rest,
        )(fo_rest[i]) by {
            let a = fo_rest[i];
            lemma_first_occurrences_contains(record_names(rest), a);
            assert(record_names(rest).contains(a)) by {
                assert(fo_rest.contains(a)) by {
                    assert(fo_rest[i] == a);
                }
            }
            let j = choose|j: int|
                0 <= j < record_names(rest).len() && record_names(rest)[j] == a;
            assert(rest[j].activity == a);
            assert(record_lacks_activity(a0)(rest[j]));
            assert(a != a0);
            lemma_filter_chain(es, a0, a);
        }
        lemma_flat_map_congruence(fo_rest, record_run(es), record_run(rest));
        lemma_partition_by_activity(rest);
        lemma_multiset_commutative(record_run(es)(a0), fo_rest.flat_map(record_run(rest)));
        // the records split into the run of a0 and the rest
        lemma_filter_first(es, record_has_activity(a0));
        lemma_filter_first(es, record_lacks_activity(a0));
        assert(es.filter(record_has_activity(a0)) == seq![es[0]] + tail.filter(
            record_has_activity(a0),
        ));
        assert(es.filter(record_lacks_activity(a0)) == rest);
        lemma_filter_split_multiset(tail, record_has_activity(a0), record_lacks_activity(a0));
        lemma_multiset_commutative(seq![es[0]], tail.filter(record_has_activity(a0)));
        assert(es =~= seq![es[0]] + tail);
        lemma_multiset_commutative(seq![es[0]], tail);
    }
}

/// For an activity other than the first record's, its run is unaffected by
/// dropping the first record and all records sharing its activity.
proof fn lemma_filter_chain(es: Seq<IntervalEventView>, a0: Seq<char>, a: Seq<char>)
    requires
        a != a0,
        es.len() > 0,
        es[0].activity == a0,
    ensures
        es.filter(record_has_activity(a)) == es.skip(1).filter(record_lacks_activity(a0)).filter(
            record_has_activity(a),
        ),
{
    lemma_filter_absorb(es.skip(1), a0, a);
    lemma_filter_first(es, record_has_activity(a));
}

/// Removing the records of a different activity does not change an
/// activity's run.
proof fn lemma_filter_absorb(s: Seq<IntervalEventView>, a0: Seq<char>, a: Seq<char>)
    requires
        a != a0,
    ensures
        s.filter(record_lacks_activity(a0)).filter(record_has_activity(a)) == s.filter(
            record_has_activity(a),
        ),
    decreases s.len(),
{
    broadcast use vstd::seq_lib::group_filter_ensures;

    if s.len() == 0 {
        assert(s.filter(record_lacks_activity(a0)) =~= Seq::<IntervalEventView>::empty());
        assert(Seq::<IntervalEventView>::empty().filter(record_has_activity(a)) =~= Seq::<
            IntervalEventView,
        >::empty());
        assert(s.filter(record_has_activity(a)) =~= Seq::<IntervalEventView>::empty());
    } else {
        let d = s.drop_last();
        let x = s.last();
        lemma_filter_absorb(d, a0, a);
        assert(s =~= d.push(x));
        d.lemma_filter_push(x, record_lacks_activity(a0));
        d.lemma_filter_push(x, record_has_activity(a));
        if record_lacks_activity(a0)(x) {
            d.filter(record_lacks_activity(a0)).lemma_filter_push(x, record_has_activity(a));
        } else {
            assert(x.activity == a0);
            assert(!record_has_activity(a)(x));
        }
    }
}

/// Expanding a record sequence and folding it back preserves the record
/// multiset exactly.
proof fn lemma_round_trip_events(es: Seq<IntervalEventView>)
    ensures
        paired_events(expand_events(es)).to_multiset() =~= es.to_multiset(),
{
    lemma_expand_first_occurrences(es);
    let fo = first_occurrences(record_names(es));
    assert forall|i: int|
        0 <= i < fo.len() implies run_pairs(expand_events(es))(#[trigger] fo[i]) == record_run(
        es,
    )(fo[i]) by {
        let a = fo[i];
        lemma_expand_run(es, a);
        lemma_pair_up_expand(es.filter(record_has_activity(a)));
    }
    lemma_flat_map_congruence(fo, run_pairs(expand_events(es)), record_run(es));
    lemma_partition_by_activity(es);
}

/// Expanding an interval log always yields a log that folds back: every
/// activity group of the expansion has even size.
pub proof fn lemma_expansion_folds(l: IntervalLogView)
    ensures
        forall|i: int|
            0 <= i < expand_log(l).traces.len() ==> !has_odd_group(
                #[trigger] expand_log(l).traces[i].events,
            ),
{
    assert forall|i: int| 0 <= i < expand_log(l).traces.len() implies !has_odd_group(
        #[trigger] expand_log(l).traces[i].events,
    ) by {
        let es = l.traces[i].events;
        assert(expand_log(l).traces[i] == expand_trace(l.traces[i]));
        let s = expand_events(es);
        lemma_expand_first_occurrences(es);
        assert forall|j: int| 0 <= j < activity_groups(s).len() implies #[trigger] activity_groups(
            s,
        )[j].len() % 2 == 0 by {
            let a = first_occurrences(activity_names(s))[j];
            assert(activity_groups(s)[j] == activity_run(s, a));
            lemma_expand_run(es, a);
            lemma_expand_events_index(es.filter(record_has_activity(a)));
        }
    }
}

/// Round trip: expanding an interval log to lifecycle form and folding it
/// back restores, trace for trace (up to the fold's reordering of traces),
/// the same case, the same variant, and the same multiset of records.
pub proof fn lemma_round_trip(src: IntervalLogView, dst: IntervalLogView)
    requires
        log_folded(expand_log(src), dst),
    ensures
        dst.traces.len() == src.traces.len(),
        exists|p: Seq<int>|
            #[trigger] is_permutation(p, src.traces.len() as int) && forall|j: int|
                0 <= j < dst.traces.len() ==> {
                    &&& (#[trigger] dst.traces[j]).case == src.traces[p[j]].case
                    &&& dst.traces[j].variant == src.traces[p[j]].variant
                    &&& dst.traces[j].events.to_multiset() == src.traces[p[j]].events.to_multiset()
                },
{
    let mid = expand_log(src);
    let p = choose|p: Seq<int>|
        #[trigger] is_permutation(p, mid.traces.len() as int) && forall|j: int|
            0 <= j < dst.traces.len() ==> trace_folded(mid.traces[p[j]], #[trigger] dst.traces[j]);
    assert forall|j: int| 0 <= j < dst.traces.len() implies {
        &&& (#[trigger] dst.traces[j]).case == src.traces[p[j]].case
        &&& dst.traces[j].variant == src.traces[p[j]].variant
        &&& dst.traces[j].events.to_multiset() == src.traces[p[j]].events.to_multiset()
    } by {
        let i = p[j];
        assert(mid.traces[i] == expand_trace(src.traces[i]));
        assert(trace_folded(mid.traces[i], dst.traces[j]));
        lemma_round_trip_events(src.traces[i].events);
    }
}

// ---------------------------------------------------------------------------
// Laws: expansion cardinality.
// ---------------------------------------------------------------------------
/// The total record count of an interval log.
pub open spec fn interval_event_total(ts: Seq<IntervalTraceView>) -> int
    decreases ts.len(),
{
    if ts.len() == 0 {
        0
    } else {
        interval_event_total(ts.drop_last()) + ts.last().events.len()
    }
}

/// The total transition count of a lifecycle log.
pub open spec fn lifecycle_event_total(ts: Seq<LifecycleTraceView>) -> int
    decreases ts.len(),
{
    if ts.len() == 0 {
        0
    } else {
        lifecycle_event_total(ts.drop_last()) + ts.last().events.len()
    }
}

/// Expansion cardinality: a log of N records expands to exactly 2N
/// transitions; each record contributes its `start` transition at the even
/// position and its `complete` transition right after it, activity and
/// resource copied unchanged.
pub proof fn lemma_expansion_cardinality(l: IntervalLogView)
    ensures
        expand_log(l).traces.len() == l.traces.len(),
        forall|i: int|
            0 <= i < l.traces.len() ==> #[trigger] expand_log(l).traces[i].events.len() == 2
                * l.traces[i].events.len(),
        forall|i: int, k: int|
            0 <= i < l.traces.len() && 0 <= k < l.traces[i].events.len() ==> {
                &&& expand_log(l).traces[i].events[2 * k] == start_of(
                    #[trigger] l.traces[i].events[k],
                )
                &&& expand_log(l).traces[i].events[2 * k + 1] == complete_of(l.traces[i].events[k])
            },
        lifecycle_event_total(expand_log(l).traces) == 2 * interval_event_total(l.traces),
    decreases l.traces.len(),
{
    assert forall|i: int| 0 <= i < l.traces.len() implies #[trigger] expand_log(
        l,
    ).traces[i].events.len() == 2 * l.traces[i].events.len() by {
        assert(expand_log(l).traces[i] == expand_trace(l.traces[i]));
        lemma_expand_events_index(l.traces[i].events);
    }
    assert forall|i: int, k: int|
        0 <= i < l.traces.len() && 0 <= k < l.traces[i].events.len() implies {
        &&& expand_log(l).traces[i].events[2 * k] == start_of(#[trigger] l.traces[i].events[k])
        &&& expand_log(l).traces[i].events[2 * k + 1] == complete_of(l.traces[i].events[k])
    } by {
        assert(expand_log(l).traces[i] == expand_trace(l.traces[i]));
        lemma_expand_events_index(l.traces[i].events);
    }
    if l.traces.len() == 0 {
    } else {
        let shorter = IntervalLogView { traces: l.traces.drop_last(), columns: l.columns };
        lemma_expansion_cardinality(shorter);
        assert(expand_log(shorter).traces =~= expand_log(l).traces.drop_last());
        assert(expand_log(l).traces.last() == expand_trace(l.traces.last()));
        lemma_expand_events_index(l.traces.last().events);
    }
}

} // verus!

//! The lifecycle log model and its XML reader: traces of transition events,
//! each event tagged with the lifecycle phase (`start` or `complete`) it
//! records, read by a single pass over the XML token stream.
//!
//! The XML format represents key/value pairs as self-closing elements
//! carrying a `key` and a `value` attribute. The reader keeps three pieces of
//! state: whether it stands inside a trace, whether inside an event, and
//! which semantic role the last recognized `key` named; each `value` is then
//! routed into the matching accumulator field, or dropped where the role and
//! the nesting do not fit.

use crate::stamp::{parse_rfc3339_millis, rfc3339_millis, Stamp, StampView};
use quick_xml::events::Event as XmlEvent;
use quick_xml::Reader as XmlReader;
use vstd::prelude::*;

verus! {

/// Mathematical value of a lifecycle [`Event`].
#[verifier::ext_equal]
pub struct LifecycleEventView {
    pub activity: Seq<char>,
    pub resource: Seq<char>,
    pub timestamp: StampView,
    pub lifecycle: Seq<char>,
}

/// Mathematical value of a lifecycle [`Trace`].
#[verifier::ext_equal]
pub struct LifecycleTraceView {
    pub case: Seq<char>,
    pub variant: Seq<char>,
    pub events: Seq<LifecycleEventView>,
}

/// Mathematical value of a lifecycle [`EventLog`].
#[verifier::ext_equal]
pub struct LifecycleLogView {
    pub traces: Seq<LifecycleTraceView>,
}

/// One lifecycle transition record: an activity's name, the acting resource,
/// the instant of the transition, and the phase (`start`, `complete`, or any
/// other tag, which converters ignore).
#[derive(Debug)]
pub struct Event {
    pub activity: String,
    pub resource: String,
    pub timestamp: Stamp,
    pub lifecycle: String,
}

/// The ordered events of one case, with its identifier and classification.
#[derive(Debug)]
pub struct Trace {
    pub case: String,
    pub variant: String,
    pub events: Vec<Event>,
}

/// An ordered sequence of lifecycle traces.
#[derive(Debug)]
pub struct EventLog {
    pub traces: Vec<Trace>,
}

impl View for Event {
    type V = LifecycleEventView;

    open spec fn view(&self) -> LifecycleEventView {
        LifecycleEventView {
            activity: self.activity@,
            resource: self.resource@,
            timestamp: self.timestamp@,
            lifecycle: self.lifecycle@,
        }
    }
}

impl DeepView for Event {
    type V = LifecycleEventView;

    open spec fn deep_view(&self) -> LifecycleEventView {
        self.view()
    }
}

impl View for Trace {
    type V = LifecycleTraceView;

    open spec fn view(&self) -> LifecycleTraceView {
        LifecycleTraceView {
            case: self.case@,
            variant: self.variant@,
            events: self.events.deep_view(),
        }
    }
}

impl DeepView for Trace {
    type V = LifecycleTraceView;

    open spec fn deep_view(&self) -> LifecycleTraceView {
        self.view()
    }
}

impl View for EventLog {
    type V = LifecycleLogView;

    open spec fn view(&self) -> LifecycleLogView {
        LifecycleLogView { traces: self.traces.deep_view() }
    }
}

impl Clone for Event {
    fn clone(&self) -> (r: Self)
        ensures
            r@ == self@,
    {
        Event {
            activity: self.activity.clone(),
            resource: self.resource.clone(),
            timestamp: self.timestamp.clone(),
            lifecycle: self.lifecycle.clone(),
        }
    }
}

// ---------------------------------------------------------------------------
// XML tokens.
// ---------------------------------------------------------------------------
/// Mathematical value of an [`XmlToken`].
#[verifier::ext_equal]
pub enum XmlTokenView {
    Open(Seq<char>),
    Close(Seq<char>),
    SelfClosed(Seq<char>, Seq<(Seq<char>, Seq<char>)>),
}

/// One tag of the XML stream, reduced to what the reader inspects: an
/// opening tag, a closing tag, or a self-closing tag with its attributes in
/// document order. Markup of any other kind carries nothing the reader
/// looks at.
#[derive(Debug)]
pub enum XmlToken {
    Open(String),
    Close(String),
    SelfClosed(String, Vec<(String, String)>),
}

impl View for XmlToken {
    type V = XmlTokenView;

    open spec fn view(&self) -> XmlTokenView {
        match self {
            XmlToken::Open(name) => XmlTokenView::Open(name@),
            XmlToken::Close(name) => XmlTokenView::Close(name@),
            XmlToken::SelfClosed(name, attrs) => XmlTokenView::SelfClosed(
                name@,
                attrs.deep_view(),
            ),
        }
    }
}

impl DeepView for XmlToken {
    type V = XmlTokenView;

    open spec fn deep_view(&self) -> XmlTokenView {
        self.view()
    }
}

/// The tags of an XML document, in document order, reduced to what the
/// reader inspects — or nothing where the document is ill-formed. The
/// result depends on the characters alone.
pub uninterp spec fn xml_tokens(s: Seq<char>) -> Option<Seq<XmlTokenView>>;

/// Relies on quick_xml's `Reader::from_str` and `read_event`: one pass over
/// the document, each tag event reduced to an owned token, other markup
/// skipped; a well-formedness fault, or an attribute list that cannot be
/// read, yields nothing. The tokens depend on the characters alone.
#[verifier::external_body]
fn tokenize(xml: &str) -> (r: Option<Vec<XmlToken>>)
    ensures
        r.deep_view() == xml_tokens(xml@),
{
    let mut rd = XmlReader::from_str(xml);
    let mut out = vec![];
    loop {
        match rd.read_event().ok()? {
            XmlEvent::Eof => break,
            XmlEvent::Start(e) => out.push(XmlToken::Open(e.name().0.to_string())),
            XmlEvent::End(e) => out.push(XmlToken::Close(e.name().0.to_string())),
            XmlEvent::Empty(e) => out.push(XmlToken::SelfClosed(
                e.name().0.to_string(),
                e.attributes().map(|a| a.ok().map(|a| (a.key.0.to_string(), a.value.into_owned()))).collect::<Option<Vec<_>>>()?,
            )),
            _ => {},
        }
    }
    Some(out)
}

// ---------------------------------------------------------------------------
// The reader's state machine, as a mathematical fold over the token stream.
// ---------------------------------------------------------------------------
/// The semantic role that the last recognized `key` attribute named.
#[derive(Debug)]
pub enum Role {
    Activity,
    Resource,
    Time,
    Transition,
    Variant,
    Inactive,
}

/// The reader's state: the finished traces, the trace and event
/// accumulators, the nesting flags, the active role, and whether the
/// accumulator trace's case and variant are already set (each is taken from
/// its first occurrence only).
#[verifier::ext_equal]
pub struct ReaderState {
    pub traces: Seq<LifecycleTraceView>,
    pub cur_trace: LifecycleTraceView,
    pub cur_event: LifecycleEventView,
    pub in_trace: bool,
    pub in_event: bool,
    pub role: Role,
    pub case_set: bool,
    pub variant_set: bool,
}

/// A stamp carrying no text and no instant.
pub open spec fn blank_stamp() -> StampView {
    StampView { text: Seq::empty(), millis: 0 }
}

/// An event accumulator with every field blank.
pub open spec fn blank_event() -> LifecycleEventView {
    LifecycleEventView {
        activity: Seq::empty(),
        resource: Seq::empty(),
        timestamp: blank_stamp(),
        lifecycle: Seq::empty(),
    }
}

/// A trace accumulator with every field blank.
pub open spec fn blank_trace() -> LifecycleTraceView {
    LifecycleTraceView { case: Seq::empty(), variant: Seq::empty(), events: Seq::empty() }
}

/// The state before any token.
pub open spec fn initial_state() -> ReaderState {
    ReaderState {
        traces: Seq::empty(),
        cur_trace: blank_trace(),
        cur_event: blank_event(),
        in_trace: false,
        in_event: false,
        role: Role::Inactive,
        case_set: false,
        variant_set: false,
    }
}

/// The role a `key` attribute's value names; unrecognized keys deactivate
/// value routing.
pub open spec fn role_of(v: Seq<char>) -> Role {
    if v == "concept:name"@ {
        Role::Activity
    } else if v == "org:resource"@ {
        Role::Resource
    } else if v == "time:timestamp"@ {
        Role::Time
    } else if v == "lifecycle:transition"@ {
        Role::Transition
    } else if v == "variant"@ {
        Role::Variant
    } else {
        Role::Inactive
    }
}

/// Where a `value` attribute's text goes: into the accumulator field that
/// the active role and the nesting select, or nowhere. A timestamp text that
/// is no RFC 3339 instant is a fatal error.
pub open spec fn route_value(st: ReaderState, v: Seq<char>) -> Result<ReaderState, ()> {
    match st.role {
        Role::Activity => if st.in_event {
            Ok(
                ReaderState {
                    cur_event: LifecycleEventView { activity: v, ..st.cur_event },
                    ..st
                },
            )
        } else if st.in_trace && !st.case_set {
            Ok(
                ReaderState {
                    cur_trace: LifecycleTraceView { case: v, ..st.cur_trace },
                    case_set: true,
                    ..st
                },
            )
        } else {
            Ok(st)
        },
        Role::Resource => if st.in_event {
            Ok(
                ReaderState {
                    cur_event: LifecycleEventView { resource: v, ..st.cur_event },
                    ..st
                },
            )
        } else {
            Ok(st)
        },
        Role::Time => if st.in_event {
            match rfc3339_millis(v) {
                Some(m) => Ok(
                    ReaderState {
                        cur_event: LifecycleEventView {
                            timestamp: StampView { text: v, millis: m as int },
                            ..st.cur_event
                        },
                        ..st
                    },
                ),
                None => Err(()),
            }
        } else {
            Ok(st)
        },
        Role::Transition => if st.in_event {
            Ok(
                ReaderState {
                    cur_event: LifecycleEventView { lifecycle: v, ..st.cur_event },
                    ..st
                },
            )
        } else {
            Ok(st)
        },
        Role::Variant => if st.in_trace && !st.in_event && !st.variant_set {
            Ok(
                ReaderState {
                    cur_trace: LifecycleTraceView { variant: v, ..st.cur_trace },
                    variant_set: true,
                    ..st
                },
            )
        } else {
            Ok(st)
        },
        Role::Inactive => Ok(st),
    }
}

/// One attribute of a self-closing element: `key` selects the role, `value`
/// is routed, anything else is inert.
pub open spec fn apply_attr(st: ReaderState, kv: (Seq<char>, Seq<char>)) -> Result<
    ReaderState,
    (),
> {
    if kv.0 == "key"@ {
        Ok(ReaderState { role: role_of(kv.1), ..st })
    } else if kv.0 == "value"@ {
        route_value(st, kv.1)
    } else {
        Ok(st)
    }
}

/// An element's attributes, applied in document order.
pub open spec fn apply_attrs(st: ReaderState, attrs: Seq<(Seq<char>, Seq<char>)>) -> Result<
    ReaderState,
    (),
>
    decreases attrs.len(),
{
    if attrs.len() == 0 {
        Ok(st)
    } else {
        match apply_attrs(st, attrs.drop_last()) {
            Ok(s2) => apply_attr(s2, attrs.last()),
            Err(e) => Err(e),
        }
    }
}

/// One token of the stream: trace and event markers open and close the
/// accumulators; a self-closing `string` or `date` element carries a
/// key/value pair; everything else is inert.
pub open spec fn apply_token(st: ReaderState, tok: XmlTokenView) -> Result<ReaderState, ()> {
    match tok {
        XmlTokenView::Open(name) => if name == "trace"@ {
            Ok(
                ReaderState {
                    in_trace: true,
                    cur_trace: blank_trace(),
                    case_set: false,
                    variant_set: false,
                    ..st
                },
            )
        } else if name == "event"@ {
            Ok(ReaderState { in_event: true, cur_event: blank_event(), ..st })
        } else {
            Ok(st)
        },
        XmlTokenView::Close(name) => if name == "trace"@ {
            Ok(ReaderState { in_trace: false, traces: st.traces.push(st.cur_trace), ..st })
        } else if name == "event"@ {
            Ok(
                ReaderState {
                    in_event: false,
                    cur_trace: LifecycleTraceView {
                        events: st.cur_trace.events.push(st.cur_event),
                        ..st.cur_trace
                    },
                    ..st
                },
            )
        } else {
            Ok(st)
        },
        XmlTokenView::SelfClosed(name, attrs) => if name == "string"@ || name == "date"@ {
            apply_attrs(st, attrs)
        } else {
            Ok(st)
        },
    }
}

/// The whole token stream, folded in order from the initial state.
pub open spec fn fold_tokens(toks: Seq<XmlTokenView>) -> Result<ReaderState, ()>
    decreases toks.len(),
{
    if toks.len() == 0 {
        Ok(initial_state())
    } else {
        match fold_tokens(toks.drop_last()) {
            Ok(st) => apply_token(st, toks.last()),
            Err(e) => Err(e),
        }
    }
}

/// The predicate holding of the events that are no reserved sentinel.
pub open spec fn not_sentinel() -> spec_fn(LifecycleEventView) -> bool {
    |e: LifecycleEventView| e.activity != "Start"@ && e.activity != "End"@
}

/// A trace without its sentinel events.
pub open spec fn strip_sentinels(t: LifecycleTraceView) -> LifecycleTraceView {
    LifecycleTraceView { case: t.case, variant: t.variant, events: t.events.filter(not_sentinel()) }
}

/// The log that a fully folded state yields: the finished traces, an
/// unterminated accumulator silently dropped, sentinel events removed where
/// asked.
pub open spec fn finish(st: ReaderState, drop_sentinels: bool) -> LifecycleLogView {
    if drop_sentinels {
        LifecycleLogView {
            traces: st.traces.map_values(|t: LifecycleTraceView| strip_sentinels(t)),
        }
    } else {
        LifecycleLogView { traces: st.traces }
    }
}

/// The log that a token stream parses to, or nothing where the fold fails.
pub open spec fn parse_outcome(toks: Seq<XmlTokenView>, drop_sentinels: bool) -> Option<
    LifecycleLogView,
> {
    match fold_tokens(toks) {
        Ok(st) => Some(finish(st, drop_sentinels)),
        Err(_) => None,
    }
}

/// A reason the reader gave up: the document was ill-formed, or a timestamp
/// value was no RFC 3339 instant.
#[derive(Debug)]
pub enum ParseError {
    MalformedXml,
    InvalidTimestamp,
}

/// Folding one more token applies it to the fold of the prefix.
proof fn lemma_fold_tokens_step(toks: Seq<XmlTokenView>, i: int)
    requires
        0 <= i < toks.len(),
    ensures
        fold_tokens(toks.take(i + 1)) == (match fold_tokens(toks.take(i)) {
            Ok(st) => apply_token(st, toks[i]),
            Err(e) => Err(e),
        }),
{
    let t1 = toks.take(i + 1);
    assert(t1.drop_last() =~= toks.take(i));
    assert(t1.last() == toks[i]);
}

/// Once the fold of a prefix has failed, the whole fold fails.
proof fn lemma_fold_tokens_err(toks: Seq<XmlTokenView>, i: int)
    requires
        0 <= i <= toks.len(),
        fold_tokens(toks.take(i)) is Err,
    ensures
        fold_tokens(toks) is Err,
    decreases toks.len() - i,
{
    if i == toks.len() {
        assert(toks.take(i) =~= toks);
    } else {
        lemma_fold_tokens_step(toks, i);
        lemma_fold_tokens_err(toks, i + 1);
    }
}

/// Applying one more attribute applies it to the fold of the prefix.
proof fn lemma_apply_attrs_step(st: ReaderState, attrs: Seq<(Seq<char>, Seq<char>)>, i: int)
    requires
        0 <= i < attrs.len(),
    ensures
        apply_attrs(st, attrs.take(i + 1)) == (match apply_attrs(st, attrs.take(i)) {
            Ok(s2) => apply_attr(s2, attrs[i]),
            Err(e) => Err(e),
        }),
{
    let t1 = attrs.take(i + 1);
    assert(t1.drop_last() =~= attrs.take(i));
    assert(t1.last() == attrs[i]);
}

/// Once an attribute prefix has failed, the whole attribute list fails.
proof fn lemma_apply_attrs_err(st: ReaderState, attrs: Seq<(Seq<char>, Seq<char>)>, i: int)
    requires
        0 <= i <= attrs.len(),
        apply_attrs(st, attrs.take(i)) is Err,
    ensures
        apply_attrs(st, attrs) is Err,
    decreases attrs.len() - i,
{
    if i == attrs.len() {
        assert(attrs.take(i) =~= attrs);
    } else {
        lemma_apply_attrs_step(st, attrs, i);
        lemma_apply_attrs_err(st, attrs, i + 1);
    }
}

/// Copies a vector of events.
fn clone_events(v: &Vec<Event>) -> (r: Vec<Event>)
    ensures
        r.deep_view() == v.deep_view(),
{
    let mut r: Vec<Event> = Vec::new();
    let n = v.len();
    for i in 0..n
        invariant
            n == v.len(),
            r.deep_view() =~= v.deep_view().take(i as int),
    {
        let ghost rpre = r.deep_view();
        r.push(v[i].clone());
        proof {
            assert(r.deep_view() =~= rpre.push(v.deep_view()[i as int]));
        }
    }
    proof {
        v.deep_view().lemma_take_len();
    }
    r
}

impl Clone for Trace {
    fn clone(&self) -> (r: Self)
        ensures
            r@ == self@,
    {
        let r = Trace {
            case: self.case.clone(),
            variant: self.variant.clone(),
            events: clone_events(&self.events),
        };
        proof {
            assert(r@ =~= self@);
        }
        r
    }
}

/// The role a key's text names.
fn role_from(v: &String) -> (r: Role)
    ensures
        r == role_of(v@),
{
    if *v == String::from_str("concept:name") {
        Role::Activity
    } else if *v == String::from_str("org:resource") {
        Role::Resource
    } else if *v == String::from_str("time:timestamp") {
        Role::Time
    } else if *v == String::from_str("lifecycle:transition") {
        Role::Transition
    } else if *v == String::from_str("variant") {
        Role::Variant
    } else {
        Role::Inactive
    }
}

/// Runs the reader's state machine over an already tokenized stream and
/// builds the log it denotes. Fails exactly where the fold fails: on a
/// timestamp value that is no RFC 3339 instant.
#[verifier::loop_isolation(false)]
pub fn apply_tokens(tokens: &Vec<XmlToken>, drop_sentinels: bool) -> (r: Result<
    EventLog,
    ParseError,
>)
    ensures
        r matches Ok(log) ==> parse_outcome(tokens.deep_view(), drop_sentinels) == Some(log@),
        r is Ok <==> parse_outcome(tokens.deep_view(), drop_sentinels) is Some,
        r matches Err(e) ==> e is InvalidTimestamp,
{
    let ghost toks = tokens.deep_view();
    let mut traces: Vec<Trace> = Vec::new();
    let mut cur_trace = Trace { case: String::new(), variant: String::new(), events: Vec::new() };
    let mut cur_event = Event {
        activity: String::new(),
        resource: String::new(),
        timestamp: Stamp { text: String::new(), millis: 0 },
        lifecycle: String::new(),
    };
    let mut in_trace = false;
    let mut in_event = false;
    let mut active_role = Role::Inactive;
    let mut case_set = false;
    let mut variant_set = false;
    let n = tokens.len();
    proof {
        assert(cur_trace@ =~= blank_trace());
        assert(cur_event@ =~= blank_event());
        assert(toks.take(0) =~= Seq::<XmlTokenView>::empty());
        assert(traces.deep_view() =~= Seq::<LifecycleTraceView>::empty());
        assert((ReaderState {
            traces: traces.deep_view(),
            cur_trace: cur_trace@,
            cur_event: cur_event@,
            in_trace: in_trace,
            in_event: in_event,
            role: active_role,
            case_set: case_set,
            variant_set: variant_set,
        }) =~= initial_state());
    }
    let mut idx: usize = 0;
    while idx < n
        invariant
            idx <= n,
            fold_tokens(toks.take(idx as int)) == Ok::<ReaderState, ()>(
                (ReaderState {
                    traces: traces.deep_view(),
                    cur_trace: cur_trace@,
                    cur_event: cur_event@,
                    in_trace: in_trace,
                    in_event: in_event,
                    role: active_role,
                    case_set: case_set,
                    variant_set: variant_set,
                }),
            ),
        decreases n - idx,
    {
        let ghost pre = ReaderState {
            traces: traces.deep_view(),
            cur_trace: cur_trace@,
            cur_event: cur_event@,
            in_trace: in_trace,
            in_event: in_event,
            role: active_role,
            case_set: case_set,
            variant_set: variant_set,
        };
        proof {
            lemma_fold_tokens_step(toks, idx as int);
        }
        match &tokens[idx] {
            XmlToken::Open(name) => {
                if *name == String::from_str("trace") {
                    in_trace = true;
                    cur_trace = Trace {
                        case: String::new(),
                        variant: String::new(),
                        events: Vec::new(),
                    };
                    case_set = false;
                    variant_set = false;
                    proof {
                        assert(cur_trace@ =~= blank_trace());
                    }
                } else if *name == String::from_str("event") {
                    in_event = true;
                    cur_event = Event {
                        activity: String::new(),
                        resource: String::new(),
                        timestamp: Stamp { text: String::new(), millis: 0 },
                        lifecycle: String::new(),
                    };
                    proof {
                        assert(cur_event@ =~= blank_event());
                    }
                }
            },
            XmlToken::Close(name) => {
                if *name == String::from_str("trace") {
                    in_trace = false;
                    let ghost tpre = traces.deep_view();
                    traces.push(cur_trace.clone());
                    proof {
                        assert(traces.deep_view() =~= tpre.push(cur_trace@));
                    }
                } else if *name == String::from_str("event") {
                    in_event = false;
                    let ghost epre = cur_trace@.events;
                    cur_trace.events.push(cur_event.clone());
                    proof {
                        assert(cur_trace@.events =~= epre.push(cur_event@));
                    }
                }
            },
            XmlToken::SelfClosed(name, attrs) => {
                if *name == String::from_str("string") || *name == String::from_str("date") {
                    let ghost attrs_v = attrs.deep_view();
                    let m = attrs.len();
                    proof {
                        assert(attrs_v.take(0) =~= Seq::<(Seq<char>, Seq<char>)>::empty());
                    }
                    let mut ai: usize = 0;
                    while ai < m
                        invariant
                            ai <= m,
                            apply_attrs(pre, attrs_v.take(ai as int)) == Ok::<ReaderState, ()>(
                                (ReaderState {
                                    traces: traces.deep_view(),
                                    cur_trace: cur_trace@,
                                    cur_event: cur_event@,
                                    in_trace: in_trace,
                                    in_event: in_event,
                                    role: active_role,
                                    case_set: case_set,
                                    variant_set: variant_set,
                                }),
                            ),
                        decreases m - ai,
                    {
                        let ghost apre = ReaderState {
                            traces: traces.deep_view(),
                            cur_trace: cur_trace@,
                            cur_event: cur_event@,
                            in_trace: in_trace,
                            in_event: in_event,
                            role: active_role,
                            case_set: case_set,
                            variant_set: variant_set,
                        };
                        proof {
                            lemma_apply_attrs_step(pre, attrs_v, ai as int);
                            assert(attrs_v[ai as int] == (attrs@[ai as int].0@, attrs@[
                                ai as int].1@));
                        }
                        let k = &attrs[ai].0;
                        if *k == String::from_str("key") {
                            active_role = role_from(&attrs[ai].1);
                        } else if *k == String::from_str("value") {
                            let v = &attrs[ai].1;
                            match active_role {
                                Role::Activity => {
                                    if in_event {
                                        cur_event.activity = v.clone();
                                    } else if in_trace && !case_set {
                                        cur_trace.case = v.clone();
                                        case_set = true;
                                    }
                                },
                                Role::Resource => {
                                    if in_event {
                                        cur_event.resource = v.clone();
                                    }
                                },
                                Role::Time => {
                                    if in_event {
                                        match parse_rfc3339_millis(v.as_str()) {
                                            Some(ms) => {
                                                cur_event.timestamp = Stamp {
                                                    text: v.clone(),
                                                    millis: ms,
                                                };
                                            },
                                            None => {
                                                proof {
                                                    lemma_apply_attrs_err(
                                                        pre,
                                                        attrs_v,
                                                        ai + 1 as int,
                                                    );
                                                    lemma_fold_tokens_err(toks, idx + 1 as int);
                                                }
                                                return Err(ParseError::InvalidTimestamp);
                                            },
                                        }
                                    }
                                },
                                Role::Transition => {
                                    if in_event {
                                        cur_event.lifecycle = v.clone();
                                    }
                                },
                                Role::Variant => {
                                    if in_trace && !in_event && !variant_set {
                                        cur_trace.variant = v.clone();
                                        variant_set = true;
                                    }
                                },
                                Role::Inactive => {},
                            }
                        }
                        proof {
                            assert(apply_attr(apre, attrs_v[ai as int]) == Ok::<ReaderState, ()>(
                                (ReaderState {
                                    traces: traces.deep_view(),
                                    cur_trace: cur_trace@,
                                    cur_event: cur_event@,
                                    in_trace: in_trace,
                                    in_event: in_event,
                                    role: active_role,
                                    case_set: case_set,
                                    variant_set: variant_set,
                                }),
                            ));
                        }
                        ai += 1;
                    }
                    proof {
                        assert(attrs_v.take(m as int) =~= attrs_v);
                    }
                }
            },
        }
        proof {
            assert(apply_token(pre, toks[idx as int]) == Ok::<ReaderState, ()>(
                (ReaderState {
                    traces: traces.deep_view(),
                    cur_trace: cur_trace@,
                    cur_event: cur_event@,
                    in_trace: in_trace,
                    in_event: in_event,
                    role: active_role,
                    case_set: case_set,
                    variant_set: variant_set,
                }),
            ));
        }
        idx += 1;
    }
    proof {
        assert(toks.take(n as int) =~= toks);
    }
    let final_traces = if drop_sentinels {
        let mut stripped: Vec<Trace> = Vec::new();
        let tn = traces.len();
        let mut ti: usize = 0;
        while ti < tn
            invariant
                ti <= tn == traces.len(),
                stripped.deep_view() == traces.deep_view().take(ti as int).map_values(
                    |t: LifecycleTraceView| strip_sentinels(t),
                ),
            decreases tn - ti,
        {
            let src = &traces[ti];
            let mut kept: Vec<Event> = Vec::new();
            let en = src.events.len();
            proof {
                assert(src@.events.take(0) =~= Seq::<LifecycleEventView>::empty());
                assert(Seq::<LifecycleEventView>::empty().filter(not_sentinel()) =~= Seq::<
                    LifecycleEventView,
                >::empty()) by {
                    Seq::<LifecycleEventView>::empty().lemma_filter_len(not_sentinel());
                }
            }
            let mut ei: usize = 0;
            while ei < en
                invariant
                    ei <= en == src.events.len(),
                    kept.deep_view() == src@.events.take(ei as int).filter(not_sentinel()),
                decreases en - ei,
            {
                let ghost kpre = kept.deep_view();
                let e = &src.events[ei];
                if !(e.activity == String::from_str("Start") || e.activity == String::from_str(
                    "End",
                )) {
                    kept.push(e.clone());
                    proof {
                        assert(kept.deep_view() =~= kpre.push(src@.events[ei as int]));
                    }
                }
                proof {
                    src@.events.lemma_take_succ_push(ei as int);
                    src@.events.take(ei as int).lemma_filter_push(
                        src@.events[ei as int],
                        not_sentinel(),
                    );
                }
                ei += 1;
            }
            proof {
                assert(src@.events.take(en as int) =~= src@.events);
            }
            let ghost spre = stripped.deep_view();
            stripped.push(
                Trace { case: src.case.clone(), variant: src.variant.clone(), events: kept },
            );
            proof {
                assert(stripped.deep_view() =~= spre.push(strip_sentinels(src@)));
                traces.deep_view().lemma_take_succ_push(ti as int);
                traces.deep_view().take(ti as int).lemma_push_map_commute(
                    |t: LifecycleTraceView| strip_sentinels(t),
                    traces.deep_view()[ti as int],
                );
            }
            ti += 1;
        }
        proof {
            assert(traces.deep_view().take(tn as int) =~= traces.deep_view());
        }
        stripped
    } else {
        traces
    };
    let log = EventLog { traces: final_traces };
    proof {
        assert(parse_outcome(toks, drop_sentinels) == Some(log@));
    }
    Ok(log)
}

/// Reads a lifecycle log from XML text: tokenizes the document in one pass
/// and runs the reader's state machine over the tokens. With
/// `drop_sentinels` set, events named after the reserved sentinels `Start`
/// and `End` are removed after the log is built. Fails exactly on an
/// ill-formed document and on a timestamp value that is no RFC 3339
/// instant; an unterminated trace or event at the end of the document is
/// silently dropped.
pub fn parse_str(xml: &str, drop_sentinels: bool) -> (r: Result<EventLog, ParseError>)
    ensures
        r is Ok <==> (xml_tokens(xml@) matches Some(toks) && parse_outcome(
            toks,
            drop_sentinels,
        ) is Some),
        r matches Ok(log) ==> parse_outcome(xml_tokens(xml@)->Some_0, drop_sentinels) == Some(
            log@,
        ),
        xml_tokens(xml@) is None ==> r == Err::<EventLog, ParseError>(ParseError::MalformedXml),
        xml_tokens(xml@) is Some && parse_outcome(xml_tokens(xml@)->Some_0, drop_sentinels)
            is None ==> r == Err::<EventLog, ParseError>(ParseError::InvalidTimestamp),
{
    match tokenize(xml) {
        None => Err(ParseError::MalformedXml),
        Some(tokens) => {
            proof {
                assert(tokens.deep_view() == xml_tokens(xml@)->Some_0);
            }
            apply_tokens(&tokens, drop_sentinels)
        },
    }
}

} // verus!

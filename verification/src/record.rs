use vstd::prelude::*;

use crate::span_path::SpanPath;
use crate::strings::str_eq;

verus! {

/// The severity of a record.
#[derive(Debug, Clone, Copy, PartialEq, Eq, Structural)]
pub enum Level {
    Error,
    Warn,
    Info,
    Debug,
    Trace,
}

impl Level {
    /// The canonical upper-case name of the level.
    pub fn as_str(&self) -> (r: &'static str)
        ensures
            *self is Error ==> r@ == "ERROR"@,
            *self is Warn ==> r@ == "WARN"@,
            *self is Info ==> r@ == "INFO"@,
            *self is Debug ==> r@ == "DEBUG"@,
            *self is Trace ==> r@ == "TRACE"@,
    {
        match self {
            Level::Error => "ERROR",
            Level::Warn => "WARN",
            Level::Info => "INFO",
            Level::Debug => "DEBUG",
            Level::Trace => "TRACE",
        }
    }
}

/// The error for a string that names no severity level.
#[derive(Debug, Clone, Copy, PartialEq, Eq, Structural)]
pub struct InvalidLevelString;

/// What a record says about one span: its name, and the numeric step index
/// if the span carried one.
#[derive(Debug)]
pub struct Span {
    name: String,
    step_index: Option<u64>,
}

/// The mathematical content of a [`Span`].
pub struct SpanV {
    pub name: Seq<char>,
    pub step_index: Option<u64>,
}

impl View for Span {
    type V = SpanV;

    closed spec fn view(&self) -> SpanV {
        SpanV { name: self.name@, step_index: self.step_index }
    }
}

impl DeepView for Span {
    type V = SpanV;

    open spec fn deep_view(&self) -> SpanV {
        self.view()
    }
}

impl Clone for Span {
    fn clone(&self) -> (r: Self)
        ensures
            r@ == self@,
    {
        Span { name: self.name.clone(), step_index: self.step_index }
    }
}

impl Span {
    pub fn new(name: String) -> (r: Self)
        ensures
            r@ == (SpanV { name: name@, step_index: None }),
    {
        Span { name, step_index: None }
    }

    pub fn with_step_index(name: String, step_index: u64) -> (r: Self)
        ensures
            r@ == (SpanV { name: name@, step_index: Some(step_index) }),
    {
        Span { name, step_index: Some(step_index) }
    }

    pub fn name(&self) -> (r: &str)
        ensures
            r@ == self@.name,
    {
        self.name.as_str()
    }

    pub fn step_index(&self) -> (r: Option<u64>)
        ensures
            r == self@.step_index,
    {
        self.step_index
    }
}

/// Whether a record marks a span being entered, a span being exited, or a
/// plain event.
#[derive(Debug, Clone, Copy, PartialEq, Eq, Structural)]
pub enum RecordKind {
    SpanEnter,
    SpanExit,
    Event,
}

/// One structured trace record.
#[derive(Debug)]
pub struct Record {
    target: String,
    span: Option<Span>,
    level: Level,
    spans: Option<Vec<Span>>,
    kind: RecordKind,
    message: Option<String>,
    timestamp: i64,
    thread_id: String,
}

/// The mathematical content of a [`Record`]. The timestamp counts
/// nanoseconds from an arbitrary fixed origin.
pub struct RecordV {
    pub target: Seq<char>,
    pub span: Option<SpanV>,
    pub level: Level,
    pub spans: Option<Seq<SpanV>>,
    pub kind: RecordKind,
    pub message: Option<Seq<char>>,
    pub timestamp: i64,
    pub thread_id: Seq<char>,
}

impl View for Record {
    type V = RecordV;

    closed spec fn view(&self) -> RecordV {
        RecordV {
            target: self.target@,
            span: match self.span {
                Some(s) => Some(s@),
                None => None,
            },
            level: self.level,
            spans: match self.spans {
                Some(ss) => Some(ss.deep_view()),
                None => None,
            },
            kind: self.kind,
            message: match self.message {
                Some(m) => Some(m@),
                None => None,
            },
            timestamp: self.timestamp,
            thread_id: self.thread_id@,
        }
    }
}

impl DeepView for Record {
    type V = RecordV;

    open spec fn deep_view(&self) -> RecordV {
        self.view()
    }
}

/// The span path that a record denotes: the names of its ancestor spans, and
/// for an exit record also the name of the span being exited, which exit
/// records leave out of their ancestor list. `None` when an exit record
/// names no span at all.
pub open spec fn record_span_path(r: RecordV) -> Option<Seq<Seq<char>>> {
    let base = match r.spans {
        Some(ss) => ss.map_values(|s: SpanV| s.name),
        None => Seq::<Seq<char>>::empty(),
    };
    match r.kind {
        RecordKind::SpanExit => match r.span {
            Some(sp) => Some(base.push(sp.name)),
            None => None,
        },
        _ => Some(base),
    }
}

impl Record {
    pub fn level(&self) -> (r: Level)
        ensures
            r == self@.level,
    {
        self.level
    }

    pub fn span(&self) -> (r: Option<&Span>)
        ensures
            match r {
                Some(s) => self@.span == Some(s@),
                None => self@.span is None,
            },
    {
        self.span.as_ref()
    }

    pub fn spans(&self) -> (r: Option<&Vec<Span>>)
        ensures
            match r {
                Some(ss) => self@.spans == Some(ss.deep_view()),
                None => self@.spans is None,
            },
    {
        self.spans.as_ref()
    }

    pub fn target(&self) -> (r: &str)
        ensures
            r@ == self@.target,
    {
        self.target.as_str()
    }

    pub fn message(&self) -> (r: Option<&str>)
        ensures
            match r {
                Some(m) => self@.message == Some(m@),
                None => self@.message is None,
            },
    {
        match &self.message {
            Some(m) => Some(m.as_str()),
            None => None,
        }
    }

    pub fn kind(&self) -> (r: RecordKind)
        ensures
            r == self@.kind,
    {
        self.kind
    }

    pub fn timestamp(&self) -> (r: i64)
        ensures
            r == self@.timestamp,
    {
        self.timestamp
    }

    pub fn thread_id(&self) -> (r: &str)
        ensures
            r@ == self@.thread_id,
    {
        self.thread_id.as_str()
    }

    /// Create the span path associated with this record.
    ///
    /// For span enter/exit records, this is the path of the span being
    /// entered or exited, and for events the path of the span in which the
    /// event takes place. Exit records do not list the exited span among
    /// their ancestors, so its own name is appended here.
    pub fn create_span_path(&self) -> (r: Result<SpanPath, RecordError>)
        ensures
            match r {
                Ok(p) => record_span_path(self@) == Some(p@),
                Err(e) => record_span_path(self@) is None && e == RecordError::NoSpanInExitRecord,
            },
    {
        let mut names: Vec<String> = Vec::new();
        let ghost base: Seq<Seq<char>> = match self@.spans {
            Some(ss) => ss.map_values(|s: SpanV| s.name),
            None => Seq::<Seq<char>>::empty(),
        };
        match &self.spans {
            Some(ss) => {
                let n = ss.len();
                let mut i: usize = 0;
                while i < n
                    invariant
                        n == ss@.len(),
                        i <= n,
                        names@.len() == i,
                        forall|j: int| 0 <= j < i ==> (#[trigger] names@[j])@ == ss@[j]@.name,
                    decreases n - i,
                {
                    names.push(ss[i].name.clone());
                    i = i + 1;
                }
                proof {
                    assert(self@.spans == Some(ss.deep_view()));
                    assert(base =~= ss.deep_view().map_values(|s: SpanV| s.name));
                    assert forall|j: int| 0 <= j < n implies names.deep_view()[j] == base[j] by {
                        assert(base[j] == ss.deep_view()[j].name);
                        assert(ss.deep_view()[j] == ss@[j]@);
                    }
                    assert(names.deep_view() =~= base);
                }
            },
            None => {
                proof {
                    assert(names.deep_view() =~= base);
                }
            },
        }
        match self.kind {
            RecordKind::SpanExit => {
                match &self.span {
                    Some(sp) => {
                        let ghost names_before = names.deep_view();
                        names.push(sp.name.clone());
                        proof {
                            assert forall|j: int|
                                0 <= j < names@.len() implies names.deep_view()[j] == base.push(
                                sp.name@,
                            )[j] by {
                                if j < names@.len() - 1 {
                                    assert(names.deep_view()[j] == names_before[j]);
                                }
                            }
                            assert(names.deep_view() =~= base.push(sp.name@));
                        }
                        Ok(SpanPath::new(names))
                    },
                    None => Err(RecordError::NoSpanInExitRecord),
                }
            },
            _ => Ok(SpanPath::new(names)),
        }
    }
}


/// The error for a record whose span path cannot be formed.
#[derive(Debug, Clone, Copy, PartialEq, Eq, Structural)]
pub enum RecordError {
    /// An exit record named no span, so the exited span's name is unknown.
    NoSpanInExitRecord,
}

/// The error for a [`RecordBuilder`] that cannot build a record.
#[derive(Debug)]
pub struct RecordBuildError {
    message: String,
}

impl RecordBuildError {
    /// What went wrong, in words.
    pub closed spec fn message_view(&self) -> Seq<char> {
        self.message@
    }

    pub fn message(&self) -> (r: &str)
        ensures
            r@ == self.message_view(),
    {
        self.message.as_str()
    }
}

/// The mathematical content of a [`RecordBuilder`].
pub struct RecordBuilderV {
    pub target: Option<Seq<char>>,
    pub span: Option<SpanV>,
    pub level: Option<Level>,
    pub spans: Option<Seq<SpanV>>,
    pub kind: Option<RecordKind>,
    pub message: Option<Seq<char>>,
    pub timestamp: Option<i64>,
    pub thread_id: Option<Seq<char>>,
}

/// Builds a [`Record`] field by field.
#[derive(Debug, Default)]
pub struct RecordBuilder {
    target: Option<String>,
    span: Option<Span>,
    level: Option<Level>,
    spans: Option<Vec<Span>>,
    kind: Option<RecordKind>,
    message: Option<String>,
    timestamp: Option<i64>,
    thread_id: Option<String>,
}

impl View for RecordBuilder {
    type V = RecordBuilderV;

    closed spec fn view(&self) -> RecordBuilderV {
        RecordBuilderV {
            target: match self.target {
                Some(t) => Some(t@),
                None => None,
            },
            span: match self.span {
                Some(s) => Some(s@),
                None => None,
            },
            level: self.level,
            spans: match self.spans {
                Some(ss) => Some(ss.deep_view()),
                None => None,
            },
            kind: self.kind,
            message: match self.message {
                Some(m) => Some(m@),
                None => None,
            },
            timestamp: self.timestamp,
            thread_id: match self.thread_id {
                Some(t) => Some(t@),
                None => None,
            },
        }
    }
}

/// The builder with every field absent.
pub open spec fn empty_builder() -> RecordBuilderV {
    RecordBuilderV {
        target: None,
        span: None,
        level: None,
        spans: None,
        kind: None,
        message: None,
        timestamp: None,
        thread_id: None,
    }
}

/// Whether a builder's message is allowed for its kind: span enter and exit
/// records may only carry the messages "enter" and "exit" respectively.
pub open spec fn message_ok(b: RecordBuilderV) -> bool {
    match b.kind {
        Some(RecordKind::SpanEnter) => b.message is None || b.message == Some("enter"@),
        Some(RecordKind::SpanExit) => b.message is None || b.message == Some("exit"@),
        _ => true,
    }
}

/// Whether a builder holds everything a record needs.
pub open spec fn builder_ok(b: RecordBuilderV) -> bool {
    &&& b.kind is Some
    &&& message_ok(b)
    &&& b.target is Some
    &&& b.level is Some
    &&& b.timestamp is Some
    &&& b.thread_id is Some
}

/// The record a complete builder denotes: as filled in, with the message
/// forced to "enter" or "exit" on span enter and exit records.
pub open spec fn built_record(b: RecordBuilderV) -> RecordV {
    RecordV {
        target: b.target->0,
        span: b.span,
        level: b.level->0,
        spans: b.spans,
        kind: b.kind->0,
        message: match b.kind->0 {
            RecordKind::SpanEnter => Some("enter"@),
            RecordKind::SpanExit => Some("exit"@),
            RecordKind::Event => b.message,
        },
        timestamp: b.timestamp->0,
        thread_id: b.thread_id->0,
    }
}

impl RecordBuilder {
    pub fn new() -> (r: Self)
        ensures
            r@ == empty_builder(),
    {
        Self {
            target: None,
            span: None,
            level: None,
            spans: None,
            kind: None,
            message: None,
            timestamp: None,
            thread_id: None,
        }
    }

    pub fn from_record(record: Record) -> (r: Self)
        ensures
            r@ == (RecordBuilderV {
                target: Some(record@.target),
                span: record@.span,
                level: Some(record@.level),
                spans: record@.spans,
                kind: Some(record@.kind),
                message: record@.message,
                timestamp: Some(record@.timestamp),
                thread_id: Some(record@.thread_id),
            }),
    {
        Self {
            target: Some(record.target),
            span: record.span,
            level: Some(record.level),
            spans: record.spans,
            kind: Some(record.kind),
            message: record.message,
            timestamp: Some(record.timestamp),
            thread_id: Some(record.thread_id),
        }
    }

    pub fn event() -> (r: Self)
        ensures
            r@ == (RecordBuilderV { kind: Some(RecordKind::Event), ..empty_builder() }),
    {
        Self { kind: Some(RecordKind::Event), ..Self::new() }
    }

    pub fn span_enter() -> (r: Self)
        ensures
            r@ == (RecordBuilderV { kind: Some(RecordKind::SpanEnter), ..empty_builder() }),
    {
        Self { kind: Some(RecordKind::SpanEnter), ..Self::new() }
    }

    pub fn span_exit() -> (r: Self)
        ensures
            r@ == (RecordBuilderV { kind: Some(RecordKind::SpanExit), ..empty_builder() }),
    {
        Self { kind: Some(RecordKind::SpanExit), ..Self::new() }
    }

    pub fn info(self) -> (r: Self)
        ensures
            r@ == (RecordBuilderV { level: Some(Level::Info), ..self@ }),
    {
        Self { level: Some(Level::Info), ..self }
    }

    pub fn warn(self) -> (r: Self)
        ensures
            r@ == (RecordBuilderV { level: Some(Level::Warn), ..self@ }),
    {
        Self { level: Some(Level::Warn), ..self }
    }

    pub fn debug(self) -> (r: Self)
        ensures
            r@ == (RecordBuilderV { level: Some(Level::Debug), ..self@ }),
    {
        Self { level: Some(Level::Debug), ..self }
    }

    pub fn trace(self) -> (r: Self)
        ensures
            r@ == (RecordBuilderV { level: Some(Level::Trace), ..self@ }),
    {
        Self { level: Some(Level::Trace), ..self }
    }

    pub fn error(self) -> (r: Self)
        ensures
            r@ == (RecordBuilderV { level: Some(Level::Error), ..self@ }),
    {
        Self { level: Some(Level::Error), ..self }
    }

    pub fn target(self, target: String) -> (r: Self)
        ensures
            r@ == (RecordBuilderV { target: Some(target@), ..self@ }),
    {
        Self { target: Some(target), ..self }
    }

    pub fn span(self, span: Span) -> (r: Self)
        ensures
            r@ == (RecordBuilderV { span: Some(span@), ..self@ }),
    {
        Self { span: Some(span), ..self }
    }

    pub fn level(self, level: Level) -> (r: Self)
        ensures
            r@ == (RecordBuilderV { level: Some(level), ..self@ }),
    {
        Self { level: Some(level), ..self }
    }

    pub fn spans(self, spans: Vec<Span>) -> (r: Self)
        ensures
            r@ == (RecordBuilderV { spans: Some(spans.deep_view()), ..self@ }),
    {
        Self { spans: Some(spans), ..self }
    }

    pub fn kind(self, kind: RecordKind) -> (r: Self)
        ensures
            r@ == (RecordBuilderV { kind: Some(kind), ..self@ }),
    {
        Self { kind: Some(kind), ..self }
    }

    pub fn message(self, message: String) -> (r: Self)
        ensures
            r@ == (RecordBuilderV { message: Some(message@), ..self@ }),
    {
        Self { message: Some(message), ..self }
    }

    pub fn timestamp(self, timestamp: i64) -> (r: Self)
        ensures
            r@ == (RecordBuilderV { timestamp: Some(timestamp), ..self@ }),
    {
        Self { timestamp: Some(timestamp), ..self }
    }

    pub fn thread_id(self, thread_id: String) -> (r: Self)
        ensures
            r@ == (RecordBuilderV { thread_id: Some(thread_id@), ..self@ }),
    {
        Self { thread_id: Some(thread_id), ..self }
    }

    /// Builds the record if every needed field is present and the message is
    /// allowed for the kind.
    pub fn try_build(self) -> (r: Result<Record, RecordBuildError>)
        ensures
            (r is Ok) == builder_ok(self@),
            r is Ok ==> r->Ok_0@ == built_record(self@),
            r is Err ==> r->Err_0.message_view() == build_error_message(self@),
    {
        let kind = match self.kind {
            Some(k) => k,
            None => {
                return Err(RecordBuildError { message: missing_field("kind") });
            },
        };
        let message: Option<String> = match kind {
            RecordKind::SpanEnter => {
                match &self.message {
                    Some(m) => {
                        if !str_eq(m.as_str(), "enter") {
                            return Err(
                                RecordBuildError {
                                    message: String::from_str(
                                        "span enter records cannot have message other than \"enter\"",
                                    ),
                                },
                            );
                        }
                    },
                    None => {},
                }
                Some(String::from_str("enter"))
            },
            RecordKind::SpanExit => {
                match &self.message {
                    Some(m) => {
                        if !str_eq(m.as_str(), "exit") {
                            return Err(
                                RecordBuildError {
                                    message: String::from_str(
                                        "span exit records cannot have message other than \"exit\"",
                                    ),
                                },
                            );
                        }
                    },
                    None => {},
                }
                Some(String::from_str("exit"))
            },
            RecordKind::Event => self.message,
        };
        let target = match self.target {
            Some(t) => t,
            None => {
                return Err(RecordBuildError { message: missing_field("target") });
            },
        };
        let level = match self.level {
            Some(l) => l,
            None => {
                return Err(RecordBuildError { message: missing_field("level") });
            },
        };
        let timestamp = match self.timestamp {
            Some(t) => t,
            None => {
                return Err(RecordBuildError { message: missing_field("timestamp") });
            },
        };
        let thread_id = match self.thread_id {
            Some(t) => t,
            None => {
                return Err(RecordBuildError { message: missing_field("thread_id") });
            },
        };
        Ok(
            Record {
                target,
                span: self.span,
                level,
                spans: self.spans,
                kind,
                message,
                timestamp,
                thread_id,
            },
        )
    }

    /// Builds the record; only for builders that hold everything a record
    /// needs.
    pub fn build(self) -> (r: Record)
        requires
            builder_ok(self@),
        ensures
            r@ == built_record(self@),
    {
        let r = self.try_build();
        r.unwrap()
    }
}

/// The complaint `try_build` raises, for a builder that cannot build: the
/// first missing field in the order checked, or a disallowed message.
pub open spec fn build_error_message(b: RecordBuilderV) -> Seq<char> {
    if b.kind is None {
        "missing field "@ + "kind"@ + " in Record construction"@
    } else if !message_ok(b) {
        if b.kind == Some(RecordKind::SpanEnter) {
            "span enter records cannot have message other than \"enter\""@
        } else {
            "span exit records cannot have message other than \"exit\""@
        }
    } else if b.target is None {
        "missing field "@ + "target"@ + " in Record construction"@
    } else if b.level is None {
        "missing field "@ + "level"@ + " in Record construction"@
    } else if b.timestamp is None {
        "missing field "@ + "timestamp"@ + " in Record construction"@
    } else {
        "missing field "@ + "thread_id"@ + " in Record construction"@
    }
}

fn missing_field(field_name: &str) -> (r: String)
    ensures
        r@ == "missing field "@ + field_name@ + " in Record construction"@,
{
    let mut s = String::from_str("missing field ");
    s.append(field_name);
    s.append(" in Record construction");
    s
}

} // verus!

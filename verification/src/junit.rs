//! Tolerant JUnit-XML reports: the flat list of test cases a report holds,
//! and each case's identity and outcome.

use vstd::prelude::*;

use crate::decimal::{seconds_nanos, seconds_to_nanos};
use crate::text::{copy_opt_string, copy_string, decimal, opt_view, push_decimal, push_str, str_eq};
use crate::xml::{event_at, next_event, reader_for, trim_text, XmlAttribute, XmlEvent, XmlTag};

verus! {

/// The outcome of a test case, derived from its child elements: an
/// `<error>` child wins over `<failure>`, which wins over `<skipped>`; no
/// matching child means the case passed.
#[derive(Debug, Clone, Copy, PartialEq, Eq, Structural)]
pub enum TestStatus {
    Passed,
    Failed,
    Error,
    Skipped,
}

impl TestStatus {
    /// Rank used when several children (or several rows of one id) would set
    /// the status: the higher one wins.
    pub open spec fn rank(self) -> u8 {
        match self {
            TestStatus::Passed => 0,
            TestStatus::Skipped => 1,
            TestStatus::Failed => 2,
            TestStatus::Error => 3,
        }
    }

    /// The rank of this status (see `rank`).
    pub fn severity(self) -> (s: u8)
        ensures
            s == self.rank(),
    {
        match self {
            TestStatus::Passed => 0,
            TestStatus::Skipped => 1,
            TestStatus::Failed => 2,
            TestStatus::Error => 3,
        }
    }

    /// Failed or errored.
    pub open spec fn is_failure(self) -> bool {
        self == TestStatus::Failed || self == TestStatus::Error
    }

    /// Whether this status is a failure or an error.
    pub fn failing(self) -> (r: bool)
        ensures
            r == self.is_failure(),
    {
        match self {
            TestStatus::Failed | TestStatus::Error => true,
            _ => false,
        }
    }
}

/// A single `<testcase>` element.
#[derive(Debug, Clone, PartialEq, Eq)]
pub struct TestCase {
    pub name: String,
    pub classname: Option<String>,
    /// Wall time in nanoseconds (zero when the report gave none).
    pub duration: u128,
    pub status: TestStatus,
    /// The `type` attribute of the child that set the status, when the
    /// runner wrote one (the exception class).
    pub failure_type: Option<String>,
}

/// The mathematical content of a test case.
pub struct CaseView {
    pub name: Seq<char>,
    pub classname: Option<Seq<char>>,
    pub duration: u128,
    pub status: TestStatus,
    pub failure_type: Option<Seq<char>>,
}

impl View for TestCase {
    type V = CaseView;

    open spec fn view(&self) -> CaseView {
        CaseView {
            name: self.name@,
            classname: opt_view(self.classname),
            duration: self.duration,
            status: self.status,
            failure_type: opt_view(self.failure_type),
        }
    }
}

/// The identity `classname::name`, or the bare name without a classname.
pub open spec fn qualified(classname: Option<Seq<char>>, name: Seq<char>) -> Seq<char> {
    match classname {
        Some(c) => c + seq![':', ':'] + name,
        None => name,
    }
}

impl CaseView {
    /// This case's identity (see `qualified`).
    pub open spec fn id(self) -> Seq<char> {
        qualified(self.classname, self.name)
    }
}

impl TestCase {
    /// The test's identity: `classname::name` when a classname is present,
    /// bare `name` otherwise. History, quarantine and every report key on it.
    pub fn qualified_name(&self) -> (id: String)
        ensures
            id@ == self@.id(),
    {
        match &self.classname {
            Some(classname) => {
                let mut id = copy_string(classname);
                push_str(&mut id, "::");
                proof {
                    reveal_strlit("::");
                    assert("::"@ =~= seq![':', ':']);
                }
                push_str(&mut id, self.name.as_str());
                id
            },
            None => copy_string(&self.name),
        }
    }

    /// A field-by-field copy.
    pub fn copy(&self) -> (out: TestCase)
        ensures
            out@ == self@,
    {
        TestCase {
            name: copy_string(&self.name),
            classname: copy_opt_string(&self.classname),
            duration: self.duration,
            status: self.status,
            failure_type: copy_opt_string(&self.failure_type),
        }
    }
}

/// A parsed JUnit-XML report: a flat list of test cases, however deeply
/// the source nests `<testsuite>` elements.
#[derive(Debug, Clone, Default, PartialEq, Eq)]
pub struct JunitReport {
    pub test_cases: Vec<TestCase>,
}

/// How many of `cases` failed or errored.
pub open spec fn failing_in(cases: Seq<TestCase>) -> nat
    decreases cases.len(),
{
    if cases.len() == 0 {
        0
    } else {
        failing_in(cases.drop_last()) + if cases.last().status.is_failure() {
            1nat
        } else {
            0nat
        }
    }
}

/// Whether some case of `cases` failed or errored.
pub open spec fn any_failing(cases: Seq<TestCase>) -> bool {
    exists|i: int| 0 <= i < cases.len() && #[trigger] cases[i].status.is_failure()
}

/// A sequence with no failing case counts none.
pub proof fn lemma_failing_in_zero(cases: Seq<TestCase>)
    ensures
        (failing_in(cases) == 0) == !any_failing(cases),
    decreases cases.len(),
{
    if cases.len() > 0 {
        lemma_failing_in_zero(cases.drop_last());
        if any_failing(cases.drop_last()) {
            let i = choose|i: int|
                0 <= i < cases.drop_last().len() && #[trigger] cases.drop_last()[i].status.is_failure();
            assert(cases[i].status.is_failure());
        }
        if any_failing(cases) && !cases.last().status.is_failure() {
            let i = choose|i: int| 0 <= i < cases.len() && #[trigger] cases[i].status.is_failure();
            assert(cases.drop_last()[i].status.is_failure());
        }
    }
}

impl JunitReport {
    /// How many test cases failed or errored.
    pub fn failing_count(&self) -> (n: usize)
        ensures
            n == failing_in(self.test_cases@),
    {
        let mut n: usize = 0;
        let mut i: usize = 0;
        while i < self.test_cases.len()
            invariant
                i <= self.test_cases.len(),
                n == failing_in(self.test_cases@.take(i as int)),
                n <= i,
            decreases self.test_cases.len() - i,
        {
            assert(self.test_cases@.take((i + 1) as int).drop_last() =~= self.test_cases@.take(
                i as int,
            ));
            if self.test_cases[i].status.failing() {
                n += 1;
            }
            i += 1;
        }
        assert(self.test_cases@.take(i as int) =~= self.test_cases@);
        n
    }

    /// Whether any test case failed or errored — the report-side half of
    /// the suite verdict.
    pub fn has_failures(&self) -> (r: bool)
        ensures
            r == any_failing(self.test_cases@),
    {
        proof {
            lemma_failing_in_zero(self.test_cases@);
        }
        self.failing_count() > 0
    }
}


/// Everything that can go wrong while reading a JUnit-XML report.
#[derive(Debug)]
pub enum JunitError {
    /// The file could not be read; carries the reader's message.
    Io(String),
    /// The input was not well-formed XML, or an attribute value could not be
    /// decoded; carries the underlying message.
    Xml(String),
    /// The input never opened a `<testsuite>` or `<testsuites>` root element
    /// (covers empty input and non-XML text).
    MissingRoot,
    /// The input ended with elements still open (truncated XML).
    UnexpectedEof,
    /// The input file is larger than the limit and was refused before
    /// reading, so a huge or hostile report cannot exhaust memory.
    TooLarge { bytes: u64, max: u64 },
}

/// The mathematical content of an error.
pub enum ErrorView {
    Io(Seq<char>),
    Xml(Seq<char>),
    MissingRoot,
    UnexpectedEof,
    TooLarge { bytes: u64, max: u64 },
}

/// The view of an error.
pub open spec fn error_view(e: JunitError) -> ErrorView {
    match e {
        JunitError::Io(m) => ErrorView::Io(m@),
        JunitError::Xml(m) => ErrorView::Xml(m@),
        JunitError::MissingRoot => ErrorView::MissingRoot,
        JunitError::UnexpectedEof => ErrorView::UnexpectedEof,
        JunitError::TooLarge { bytes, max } => ErrorView::TooLarge { bytes, max },
    }
}

/// The message an error is shown with.
pub open spec fn error_message(e: ErrorView) -> Seq<char> {
    match e {
        ErrorView::Io(m) => "could not read JUnit-XML report: "@ + m,
        ErrorView::Xml(m) => "could not parse JUnit-XML report: "@ + m,
        ErrorView::MissingRoot => "input has no <testsuite> or <testsuites> root element"@,
        ErrorView::UnexpectedEof => "input ended with elements still open"@,
        ErrorView::TooLarge { bytes, max } => "JUnit-XML report is too large ("@ + decimal(bytes as nat)
            + " bytes; limit is "@ + decimal(max as nat) + ")"@,
    }
}

impl JunitError {
    /// The message this error is shown with.
    pub fn message(&self) -> (m: String)
        ensures
            m@ == error_message(error_view(*self)),
    {
        match self {
            JunitError::Io(err) => {
                let mut m = "could not read JUnit-XML report: ".to_owned();
                push_str(&mut m, err.as_str());
                m
            },
            JunitError::Xml(err) => {
                let mut m = "could not parse JUnit-XML report: ".to_owned();
                push_str(&mut m, err.as_str());
                m
            },
            JunitError::MissingRoot => "input has no <testsuite> or <testsuites> root element".to_owned(),
            JunitError::UnexpectedEof => "input ended with elements still open".to_owned(),
            JunitError::TooLarge { bytes, max } => {
                let mut m = "JUnit-XML report is too large (".to_owned();
                push_decimal(&mut m, *bytes as u128);
                push_str(&mut m, " bytes; limit is ");
                push_decimal(&mut m, *max as u128);
                push_str(&mut m, ")");
                m
            },
        }
    }
}

/// Largest JUnit-XML report read (256 MiB): real reports are kilobytes to
/// a few megabytes, so this refuses a pathological or hostile file before
/// it is read into memory.
pub const MAX_INPUT_BYTES: u64 = 268435456;

/// Refuse inputs larger than `max` bytes.
pub fn ensure_within_limit(bytes: u64, max: u64) -> (r: Result<(), JunitError>)
    ensures
        r is Ok <==> bytes <= max,
        r is Err ==> (r matches Err(JunitError::TooLarge { bytes: b, max: m }) && b == bytes && m == max),
{
    if bytes > max {
        Err(JunitError::TooLarge { bytes, max })
    } else {
        Ok(())
    }
}

/// The view of an attribute: key and value.
pub open spec fn attr_view(a: XmlAttribute) -> (Seq<char>, Seq<char>) {
    (a.key@, a.value@)
}

/// The mathematical content of a tag.
pub struct TagView {
    pub name: Seq<char>,
    pub attributes: Result<Seq<(Seq<char>, Seq<char>)>, Seq<char>>,
}

/// The view of a tag.
pub open spec fn tag_view(t: XmlTag) -> TagView {
    TagView {
        name: t.name@,
        attributes: match t.attributes {
            Ok(v) => Ok(v@.map_values(|a: XmlAttribute| attr_view(a))),
            Err(m) => Err(m@),
        },
    }
}

/// The mathematical content of an event.
pub enum EventView {
    Start(TagView),
    Empty(TagView),
    End,
    Other,
    Eof,
    Malformed(Seq<char>),
}

/// The view of an event.
pub open spec fn event_view(e: XmlEvent) -> EventView {
    match e {
        XmlEvent::Start(t) => EventView::Start(tag_view(t)),
        XmlEvent::Empty(t) => EventView::Empty(tag_view(t)),
        XmlEvent::End => EventView::End,
        XmlEvent::Other => EventView::Other,
        XmlEvent::Eof => EventView::Eof,
        XmlEvent::Malformed(m) => EventView::Malformed(m@),
    }
}

/// The name, classname and duration a `<testcase>`'s attributes give: the
/// last of each wins; a missing `time` is zero.
pub open spec fn case_fields(attrs: Seq<(Seq<char>, Seq<char>)>) -> (Seq<char>, Option<Seq<char>>, u128)
    decreases attrs.len(),
{
    if attrs.len() == 0 {
        (Seq::empty(), None, 0)
    } else {
        let f = case_fields(attrs.drop_last());
        let a = attrs.last();
        if a.0 == "name"@ {
            (a.1, f.1, f.2)
        } else if a.0 == "classname"@ {
            (f.0, Some(a.1), f.2)
        } else if a.0 == "time"@ {
            (f.0, f.1, seconds_nanos(a.1))
        } else {
            f
        }
    }
}

/// The `type` attribute among `attrs` (the last one wins).
pub open spec fn type_attr(attrs: Seq<(Seq<char>, Seq<char>)>) -> Option<Seq<char>>
    decreases attrs.len(),
{
    if attrs.len() == 0 {
        None
    } else if attrs.last().0 == "type"@ {
        Some(attrs.last().1)
    } else {
        type_attr(attrs.drop_last())
    }
}

/// A `<testcase>` being scanned for status children, and the depth its
/// closing tag brings the reader back to.
pub struct OpenView {
    pub case: CaseView,
    pub close_depth: int,
}

/// What the parser knows so far: finished cases, the open case, the
/// element depth, and whether a root element was seen.
pub struct StateView {
    pub cases: Seq<CaseView>,
    pub open: Option<OpenView>,
    pub depth: int,
    pub seen_root: bool,
}

/// Where a scan of events stands.
pub enum Scan {
    /// Still reading.
    Running(StateView),
    /// The input ended.
    Finished(StateView),
    /// The input was refused.
    Failed(ErrorView),
}

/// A `<testcase>` opened by `tag`: passed until a child says otherwise.
pub open spec fn opened(tag: TagView, close_depth: int) -> Result<OpenView, ErrorView> {
    match tag.attributes {
        Err(m) => Err(ErrorView::Xml(m)),
        Ok(attrs) => {
            let f = case_fields(attrs);
            Ok(OpenView {
                case: CaseView { name: f.0, classname: f.1, duration: f.2, status: TestStatus::Passed, failure_type: None },
                close_depth,
            })
        },
    }
}

/// The status a child element so named would set.
pub open spec fn status_named(name: Seq<char>) -> Option<TestStatus> {
    if name == "error"@ {
        Some(TestStatus::Error)
    } else if name == "failure"@ {
        Some(TestStatus::Failed)
    } else if name == "skipped"@ {
        Some(TestStatus::Skipped)
    } else {
        None
    }
}

/// The open case after a child element: a status child that outranks the
/// recorded status sets it, with the child's `type`. Nothing changes
/// outside a `<testcase>` or for other elements.
pub open spec fn marked(open: Option<OpenView>, tag: TagView) -> Option<OpenView> {
    match open {
        None => None,
        Some(o) => match status_named(tag.name) {
            Some(c) => if c.rank() > o.case.status.rank() {
                Some(OpenView {
                    case: CaseView {
                        status: c,
                        failure_type: match tag.attributes {
                            Ok(attrs) => type_attr(attrs),
                            Err(_) => None,
                        },
                        ..o.case
                    },
                    ..o
                })
            } else {
                open
            },
            None => open,
        },
    }
}

/// Whether an element so named is a report root.
pub open spec fn is_root(name: Seq<char>) -> bool {
    name == "testsuite"@ || name == "testsuites"@
}

/// One event's effect on the parser.
pub open spec fn step_spec(st: StateView, ev: EventView) -> Scan {
    match ev {
        EventView::Start(tag) => {
            let depth = st.depth + 1;
            if is_root(tag.name) {
                Scan::Running(StateView { depth, seen_root: true, ..st })
            } else if tag.name == "testcase"@ {
                match opened(tag, depth - 1) {
                    Ok(o) => Scan::Running(StateView { depth, open: Some(o), ..st }),
                    Err(e) => Scan::Failed(e),
                }
            } else {
                Scan::Running(StateView { depth, open: marked(st.open, tag), ..st })
            }
        },
        EventView::Empty(tag) => {
            if is_root(tag.name) {
                Scan::Running(StateView { seen_root: true, ..st })
            } else if tag.name == "testcase"@ {
                match opened(tag, st.depth) {
                    Ok(o) => Scan::Running(StateView { cases: st.cases.push(o.case), ..st }),
                    Err(e) => Scan::Failed(e),
                }
            } else {
                Scan::Running(StateView { open: marked(st.open, tag), ..st })
            }
        },
        EventView::End => {
            let depth = st.depth - 1;
            match st.open {
                Some(o) => if o.close_depth == depth {
                    Scan::Running(StateView { depth, cases: st.cases.push(o.case), open: None, ..st })
                } else {
                    Scan::Running(StateView { depth, ..st })
                },
                None => Scan::Running(StateView { depth, ..st }),
            }
        },
        EventView::Other => Scan::Running(st),
        EventView::Eof => Scan::Finished(st),
        EventView::Malformed(m) => Scan::Failed(ErrorView::Xml(m)),
    }
}

/// The parser before any event.
pub open spec fn initial() -> StateView {
    StateView { cases: Seq::empty(), open: None, depth: 0, seen_root: false }
}

/// The parser after a sequence of events; it stops at the end of the
/// input or at the first refusal.
pub open spec fn scan(evs: Seq<EventView>) -> Scan
    decreases evs.len(),
{
    if evs.len() == 0 {
        Scan::Running(initial())
    } else {
        match scan(evs.drop_last()) {
            Scan::Running(st) => step_spec(st, evs.last()),
            done => done,
        }
    }
}

/// The report a finished scan gives: refused while elements are still
/// open, or when no root element was ever opened.
pub open spec fn finish_spec(st: StateView) -> Result<Seq<CaseView>, ErrorView> {
    if st.depth != 0 {
        Err(ErrorView::UnexpectedEof)
    } else if !st.seen_root {
        Err(ErrorView::MissingRoot)
    } else {
        Ok(st.cases)
    }
}

/// The report a sequence of events gives; events running out counts as
/// the end of the input.
pub open spec fn parse_spec(evs: Seq<EventView>) -> Result<Seq<CaseView>, ErrorView> {
    match scan(evs) {
        Scan::Running(st) => finish_spec(st),
        Scan::Finished(st) => finish_spec(st),
        Scan::Failed(e) => Err(e),
    }
}

/// The view of a parse result.
pub open spec fn result_view(r: Result<JunitReport, JunitError>) -> Result<Seq<CaseView>, ErrorView> {
    match r {
        Ok(report) => Ok(report.test_cases@.map_values(|c: TestCase| c@)),
        Err(e) => Err(error_view(e)),
    }
}

/// A `<testcase>` currently being scanned for a `<failure>`/`<error>`/
/// `<skipped>` child, tracked until the closing tag.
struct OpenTestCase {
    name: String,
    classname: Option<String>,
    duration: u128,
    status: TestStatus,
    failure_type: Option<String>,
    /// The depth the matching closing tag brings the reader back to.
    close_depth: i128,
}

/// The view of an open case.
spec fn open_view(o: OpenTestCase) -> OpenView {
    OpenView {
        case: CaseView {
            name: o.name@,
            classname: opt_view(o.classname),
            duration: o.duration,
            status: o.status,
            failure_type: opt_view(o.failure_type),
        },
        close_depth: o.close_depth as int,
    }
}

/// The view of an optional open case.
spec fn opt_open_view(o: Option<OpenTestCase>) -> Option<OpenView> {
    match o {
        Some(c) => Some(open_view(c)),
        None => None,
    }
}

impl OpenTestCase {
    /// Opens a case from its tag's attributes.
    fn new(tag: &XmlTag, close_depth: i128) -> (r: Result<OpenTestCase, JunitError>)
        ensures
            match r {
                Ok(o) => opened(tag_view(*tag), close_depth as int) == Ok::<OpenView, ErrorView>(open_view(o)),
                Err(e) => opened(tag_view(*tag), close_depth as int) == Err::<OpenView, ErrorView>(error_view(e)),
            },
    {
        let attrs = match &tag.attributes {
            Ok(v) => v,
            Err(message) => {
                return Err(JunitError::Xml(copy_string(message)));
            },
        };
        let ghost av = attrs@.map_values(|a: XmlAttribute| attr_view(a));
        let mut name = String::new();
        let mut classname: Option<String> = None;
        let mut duration: u128 = 0;
        let mut i: usize = 0;
        while i < attrs.len()
            invariant
                i <= attrs.len(),
                av == attrs@.map_values(|a: XmlAttribute| attr_view(a)),
                case_fields(av.take(i as int)) == (name@, opt_view(classname), duration),
            decreases attrs.len() - i,
        {
            assert(av.take(i + 1).drop_last() =~= av.take(i as int));
            assert(av.take(i + 1).last() == attr_view(attrs@[i as int]));
            let key = attrs[i].key.as_str();
            if str_eq(key, "name") {
                name = copy_string(&attrs[i].value);
            } else if str_eq(key, "classname") {
                classname = Some(copy_string(&attrs[i].value));
            } else if str_eq(key, "time") {
                duration = seconds_to_nanos(attrs[i].value.as_str());
            }
            i += 1;
        }
        assert(av.take(i as int) =~= av);
        Ok(OpenTestCase { name, classname, duration, status: TestStatus::Passed, failure_type: None, close_depth })
    }

    /// The finished test case.
    fn finish(self) -> (c: TestCase)
        ensures
            c@ == open_view(self).case,
    {
        TestCase {
            name: self.name,
            classname: self.classname,
            duration: self.duration,
            status: self.status,
            failure_type: self.failure_type,
        }
    }
}

/// The `type` attribute of a tag's attributes.
fn find_type(attrs: &Vec<XmlAttribute>) -> (t: Option<String>)
    ensures
        opt_view(t) == type_attr(attrs@.map_values(|a: XmlAttribute| attr_view(a))),
{
    let ghost av = attrs@.map_values(|a: XmlAttribute| attr_view(a));
    let mut i: usize = attrs.len();
    assert(av.take(i as int) =~= av);
    while i > 0
        invariant
            i <= attrs.len(),
            av == attrs@.map_values(|a: XmlAttribute| attr_view(a)),
            type_attr(av) == type_attr(av.take(i as int)),
        decreases i,
    {
        assert(av.take(i as int).last() == attr_view(attrs@[i - 1]));
        assert(av.take(i as int).drop_last() =~= av.take(i - 1));
        if str_eq(attrs[i - 1].key.as_str(), "type") {
            return Some(copy_string(&attrs[i - 1].value));
        }
        i -= 1;
    }
    None
}

/// Upgrade the open case's status if `tag` names a status-bearing child
/// that outranks the status already recorded. A no-op outside a
/// `<testcase>` or for an unrecognised tag.
fn mark_status(case: &mut Option<OpenTestCase>, tag: &XmlTag)
    ensures
        opt_open_view(*final(case)) == marked(opt_open_view(*old(case)), tag_view(*tag)),
{
    let candidate = if str_eq(tag.name.as_str(), "error") {
        TestStatus::Error
    } else if str_eq(tag.name.as_str(), "failure") {
        TestStatus::Failed
    } else if str_eq(tag.name.as_str(), "skipped") {
        TestStatus::Skipped
    } else {
        return;
    };
    match case {
        Some(open) => {
            if candidate.severity() > open.status.severity() {
                open.status = candidate;
                open.failure_type = match &tag.attributes {
                    Ok(attrs) => find_type(attrs),
                    Err(_) => None,
                };
            }
        },
        None => {},
    }
}

/// The parser's state.
struct Parser {
    test_cases: Vec<TestCase>,
    open_case: Option<OpenTestCase>,
    depth: i128,
    seen_root: bool,
}

/// The view of the parser's state.
spec fn parser_view(p: Parser) -> StateView {
    StateView {
        cases: p.test_cases@.map_values(|c: TestCase| c@),
        open: opt_open_view(p.open_case),
        depth: p.depth as int,
        seen_root: p.seen_root,
    }
}

/// What one event did.
enum Stepped {
    Continue,
    Done,
    Fail(JunitError),
}

/// Feeds one event to the parser.
fn step(p: &mut Parser, ev: &XmlEvent) -> (o: Stepped)
    requires
        -0x1_0000_0000_0000_0000_0000 < old(p).depth < 0x1_0000_0000_0000_0000_0000,
    ensures
        match o {
            Stepped::Continue => step_spec(parser_view(*old(p)), event_view(*ev)) == Scan::Running(
                parser_view(*final(p)),
            ),
            Stepped::Done => step_spec(parser_view(*old(p)), event_view(*ev)) == Scan::Finished(
                parser_view(*final(p)),
            ),
            Stepped::Fail(e) => step_spec(parser_view(*old(p)), event_view(*ev)) == Scan::Failed(error_view(e)),
        },
        old(p).depth - 1 <= final(p).depth <= old(p).depth + 1,
{
    let ghost cases0 = p.test_cases@.map_values(|c: TestCase| c@);
    match ev {
        XmlEvent::Start(tag) => {
            p.depth = p.depth + 1;
            if str_eq(tag.name.as_str(), "testsuite") || str_eq(tag.name.as_str(), "testsuites") {
                p.seen_root = true;
            } else if str_eq(tag.name.as_str(), "testcase") {
                match OpenTestCase::new(tag, p.depth - 1) {
                    Ok(o) => {
                        p.open_case = Some(o);
                    },
                    Err(e) => {
                        return Stepped::Fail(e);
                    },
                }
            } else {
                mark_status(&mut p.open_case, tag);
            }
            Stepped::Continue
        },
        XmlEvent::Empty(tag) => {
            if str_eq(tag.name.as_str(), "testsuite") || str_eq(tag.name.as_str(), "testsuites") {
                p.seen_root = true;
            } else if str_eq(tag.name.as_str(), "testcase") {
                match OpenTestCase::new(tag, p.depth) {
                    Ok(o) => {
                        let c = o.finish();
                        p.test_cases.push(c);
                        assert(p.test_cases@.map_values(|c: TestCase| c@) =~= cases0.push(c@));
                    },
                    Err(e) => {
                        return Stepped::Fail(e);
                    },
                }
            } else {
                mark_status(&mut p.open_case, tag);
            }
            Stepped::Continue
        },
        XmlEvent::End => {
            p.depth = p.depth - 1;
            let closes = match &p.open_case {
                Some(o) => o.close_depth == p.depth,
                None => false,
            };
            if closes {
                let open = p.open_case.take();
                match open {
                    Some(o) => {
                        let c = o.finish();
                        p.test_cases.push(c);
                        assert(p.test_cases@.map_values(|c: TestCase| c@) =~= cases0.push(c@));
                    },
                    None => {},
                }
            }
            Stepped::Continue
        },
        XmlEvent::Other => Stepped::Continue,
        XmlEvent::Eof => Stepped::Done,
        XmlEvent::Malformed(message) => Stepped::Fail(JunitError::Xml(copy_string(message))),
    }
}

/// The report a finished parser holds.
fn finish(p: Parser) -> (r: Result<JunitReport, JunitError>)
    ensures
        result_view(r) == finish_spec(parser_view(p)),
{
    if p.depth != 0 {
        return Err(JunitError::UnexpectedEof);
    }
    if !p.seen_root {
        return Err(JunitError::MissingRoot);
    }
    Ok(JunitReport { test_cases: p.test_cases })
}

/// Reads a report out of a stream of XML events: `<testcase>` elements
/// (however deeply nested) become test cases, their `<error>`, `<failure>`
/// and `<skipped>` children set the status, and a report needs a
/// `<testsuite>` or `<testsuites>` root and every element closed.
pub fn parse_events(events: &Vec<XmlEvent>) -> (r: Result<JunitReport, JunitError>)
    ensures
        result_view(r) == parse_spec(events@.map_values(|e: XmlEvent| event_view(e))),
{
    let ghost evs = events@.map_values(|e: XmlEvent| event_view(e));
    let mut p = Parser { test_cases: Vec::new(), open_case: None, depth: 0, seen_root: false };
    assert(p.test_cases@.map_values(|c: TestCase| c@) =~= Seq::<CaseView>::empty());
    assert(parser_view(p) == initial());
    let mut k: usize = 0;
    while k < events.len()
        invariant
            k <= events.len(),
            evs == events@.map_values(|e: XmlEvent| event_view(e)),
            scan(evs.take(k as int)) == Scan::Running(parser_view(p)),
            -k <= p.depth <= k,
        decreases events.len() - k,
    {
        assert(evs.take(k + 1).drop_last() =~= evs.take(k as int));
        assert(evs.take(k + 1).last() == event_view(events@[k as int]));
        match step(&mut p, &events[k]) {
            Stepped::Continue => {},
            Stepped::Done => {
                proof {
                    lemma_scan_stays(evs, k as int + 1);
                }
                return finish(p);
            },
            Stepped::Fail(e) => {
                proof {
                    lemma_scan_stays(evs, k as int + 1);
                }
                return Err(e);
            },
        }
        k += 1;
    }
    assert(evs.take(k as int) =~= evs);
    finish(p)
}

/// Once a scan has finished or failed, further events change nothing.
proof fn lemma_scan_stays(evs: Seq<EventView>, k: int)
    requires
        0 <= k <= evs.len(),
        !(scan(evs.take(k)) is Running),
    ensures
        scan(evs) == scan(evs.take(k)),
    decreases evs.len() - k,
{
    if k < evs.len() {
        assert(evs.take(k + 1).drop_last() =~= evs.take(k));
        lemma_scan_stays(evs, k + 1);
    } else {
        assert(evs.take(k) =~= evs);
    }
}

/// The message when the reader kept giving events past its input.
pub open spec fn reader_stuck() -> Seq<char> {
    "the reader did not reach the end of the input"@
}

/// The events the parser reads of `xml`: quick-xml's first `budget + 1`
/// events for it (`event_at`), then a refusal, which only a reader that never
/// reached the end of its input would get to. The parse stops at the end
/// of the input or at the first error, so what follows either is never
/// looked at.
pub open spec fn xml_events(xml: Seq<char>, budget: nat) -> Seq<EventView> {
    Seq::new(budget + 1, |k: int| event_at(xml, k as nat, budget)).push(EventView::Malformed(reader_stuck()))
}

/// Parse a JUnit-XML report from a string: what `parse_spec` makes of the
/// events quick-xml's reader gives for it (`xml_events`, bounded by the
/// input's length in bytes).
///
/// Tolerates either a `<testsuites>` or a bare `<testsuite>` root, unknown
/// attributes and elements, and a missing `time` attribute (zero duration).
/// Refuses input that never opens a root (`MissingRoot`, covering empty
/// input and non-XML text), truncated input (`UnexpectedEof`), and any
/// other malformed XML (`Xml`), as `parse_spec` states.
pub fn parse_str(xml: &str) -> (r: Result<JunitReport, JunitError>)
    ensures
        result_view(r) == parse_spec(xml_events(xml@, xml.len() as nat)),
{
    let mut reader = reader_for(xml);
    trim_text(&mut reader);
    let budget = xml.len();
    let ghost full = xml_events(xml@, budget as nat);
    let mut p = Parser { test_cases: Vec::new(), open_case: None, depth: 0, seen_root: false };
    assert(p.test_cases@.map_values(|c: TestCase| c@) =~= Seq::<CaseView>::empty());
    assert(parser_view(p) == initial());
    let ghost mut evs: Seq<EventView> = Seq::empty();
    assert(evs =~= full.take(0));
    let mut n: usize = 0;
    while n < budget
        invariant
            n <= budget,
            budget == xml.len(),
            full == xml_events(xml@, budget as nat),
            reader.source() == xml@,
            reader.count() == n,
            reader.trimmed(),
            evs == full.take(n as int),
            scan(evs) == Scan::Running(parser_view(p)),
            -n <= p.depth <= n,
        decreases budget - n,
    {
        let ev = next_event(&mut reader, budget);
        proof {
            assert(evs.push(event_view(ev)).drop_last() =~= evs);
            assert(full[n as int] == event_view(ev));
            assert(full.take(n + 1) =~= evs.push(event_view(ev)));
            evs = evs.push(event_view(ev));
        }
        match step(&mut p, &ev) {
            Stepped::Continue => {},
            Stepped::Done => {
                let r = finish(p);
                proof {
                    lemma_scan_stays(full, n + 1);
                }
                return r;
            },
            Stepped::Fail(e) => {
                let r: Result<JunitReport, JunitError> = Err(e);
                proof {
                    lemma_scan_stays(full, n + 1);
                }
                return r;
            },
        }
        n += 1;
    }
    let ev = next_event(&mut reader, budget);
    proof {
        assert(evs.push(event_view(ev)).drop_last() =~= evs);
        assert(full[n as int] == event_view(ev));
        assert(full.take(n + 1) =~= evs.push(event_view(ev)));
        evs = evs.push(event_view(ev));
    }
    match step(&mut p, &ev) {
        Stepped::Continue => {},
        Stepped::Done => {
            let r = finish(p);
            proof {
                lemma_scan_stays(full, n + 1);
            }
            return r;
        },
        Stepped::Fail(e) => {
            let r: Result<JunitReport, JunitError> = Err(e);
            proof {
                lemma_scan_stays(full, n + 1);
            }
            return r;
        },
    }
    // each event but the last takes at least one byte of the input, so the
    // reader reaches its end within the budget; one that did not is refused
    let ev = XmlEvent::Malformed("the reader did not reach the end of the input".to_owned());
    proof {
        reveal_strlit("the reader did not reach the end of the input");
        assert(evs.push(event_view(ev)).drop_last() =~= evs);
        assert(full =~= evs.push(event_view(ev)));
        evs = evs.push(event_view(ev));
    }
    match step(&mut p, &ev) {
        Stepped::Fail(e) => {
            let r: Result<JunitReport, JunitError> = Err(e);
            assert(result_view(r) == parse_spec(evs));
            r
        },
        _ => {
            assert(false);
            Err(JunitError::UnexpectedEof)
        },
    }
}

} // verus!

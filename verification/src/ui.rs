//! What the user sees: the commits being tested, each with the status of its
//! tests.
use crate::assoc;
use crate::assoc::Assoc;
use crate::database;
use crate::database::Database;
use crate::git::CommitHash;
use crate::graph;
use crate::graph::{CommitInfoBuffer, GraphBuffer, GraphError, Layout};
use crate::ident;
use crate::strings;
use crate::terminal;
use crate::test::{Notification, TestCase, TestInconclusive, TestName, TestStatus};
use crate::text;
use crate::text::{Class, Line, Span, SpanView, Text};
use crate::util::Rect;
use vstd::prelude::*;

verus! {

/// A test case with its status, ready to be shown.
#[derive(Debug)]
pub struct RenderedTestCase {
    pub test_case: TestCase,
    pub spans: Vec<Span>,
}

/// The cases to show for each commit, by the name of the test.
pub type RenderedCases = Assoc<CommitHash, Assoc<TestName, RenderedTestCase>>;

/// The spans of a rendered case.
pub open spec fn spans_view(spans: Seq<Span>) -> Seq<SpanView> {
    ident::views(spans)
}

/// What is shown for each test.
pub open spec fn tests_view(m: Map<Seq<char>, RenderedTestCase>) -> Map<Seq<char>, Seq<SpanView>> {
    Map::new(|k: Seq<char>| m.dom().contains(k), |k: Seq<char>| spans_view(m[k].spans@))
}

/// What is shown for each test of each commit.
pub open spec fn cases_view(
    m: Map<Seq<char>, Assoc<TestName, RenderedTestCase>>,
) -> Map<Seq<char>, Map<Seq<char>, Seq<SpanView>>> {
    Map::new(|k: Seq<char>| m.dom().contains(k), |k: Seq<char>| tests_view(m[k]@))
}

/// No commit, and no test of a commit, is there twice.
pub open spec fn cases_wf(cases: RenderedCases) -> bool {
    &&& cases.wf()
    &&& forall|k: Seq<char>| #[trigger] cases@.dom().contains(k) ==> cases@[k].wf()
}

/// Where the output of a test case can be looked at.
pub open spec fn result_url(base: Seq<char>, test_case: TestCase) -> Seq<char> {
    base + "/"@ + database::relpath(test_case) + "/stdout.txt"@
}

/// The status of a test case. Cancellation is not shown as an error.
pub open spec fn status_span(status: TestStatus, url: Seq<char>) -> SpanView {
    match status {
        TestStatus::Finished(Err(TestInconclusive::Error(msg))) => SpanView {
            class: Some(Class::Error),
            content: msg@,
            url: Some(url),
        },
        TestStatus::Finished(Ok(entry)) => if entry.entry().result.exit_code == 0 {
            SpanView { class: Some(Class::Success), content: "success"@, url: Some(url) }
        } else {
            SpanView {
                class: Some(Class::Failure),
                content: "failed (status "@ + strings::decimal(
                    entry.entry().result.exit_code as int,
                ) + ")"@,
                url: Some(url),
            }
        },
        _ => SpanView { class: None, content: status.text(), url: Some(url) },
    }
}

/// Text without a style.
pub open spec fn plain(content: Seq<char>) -> SpanView {
    SpanView { class: None, content, url: None }
}

/// What is shown for a test case: the name of the test, and its status with a
/// link to its output.
pub open spec fn case_spans(test_case: TestCase, status: TestStatus, base: Seq<char>) -> Seq<
    SpanView,
> {
    seq![
        SpanView { class: Some(Class::TestName), content: test_case.test.name@, url: None },
        plain(": "@),
        status_span(status, result_url(base, test_case)),
        plain(" "@),
    ]
}

/// The cases with one more notification taken into account.
pub open spec fn updated(
    cases: Map<Seq<char>, Map<Seq<char>, Seq<SpanView>>>,
    notif: Notification,
    base: Seq<char>,
) -> Map<Seq<char>, Map<Seq<char>, Seq<SpanView>>> {
    let hash = notif.test_case.commit_hash@;
    let tests = if cases.dom().contains(hash) {
        cases[hash]
    } else {
        Map::empty()
    };
    cases.insert(
        hash,
        tests.insert(
            notif.test_case.test.name@,
            case_spans(notif.test_case, notif.status, base),
        ),
    )
}

/// Updates the rendered cases to reflect a new notification coming in.
pub fn update_rendered_cases(
    rendered_cases: &mut RenderedCases,
    notif: &Notification,
    result_url_base: &str,
)
    requires
        cases_wf(*old(rendered_cases)),
    ensures
        cases_wf(*final(rendered_cases)),
        cases_view(final(rendered_cases)@) == updated(
            cases_view(old(rendered_cases)@),
            *notif,
            result_url_base@,
        ),
{
    let ghost before = rendered_cases@;
    let hash = &notif.test_case.commit_hash;
    let mut tests: Assoc<TestName, RenderedTestCase> = Assoc::new();
    if rendered_cases.contains_key(hash) {
        tests = rendered_cases.replace(hash, tests);
    }
    let ghost had = tests@;
    assert(tests_view(Map::empty()) =~= Map::empty());
    let name = notif.test_case.test.name.clone();
    let rendered = RenderedTestCase {
        test_case: notif.test_case.clone(),
        spans: OutputBuffer::render_case(&notif.test_case, &notif.status, result_url_base),
    };
    let ghost key = name@;
    tests.insert(name, rendered);
    assert(tests_view(tests@) =~= tests_view(had).insert(key, spans_view(rendered.spans@)));
    rendered_cases.insert(hash.clone(), tests);
    proof {
        let after = rendered_cases@;
        assert(after =~= before.insert(hash@, tests));
        assert(cases_view(after) =~= cases_view(before).insert(hash@, tests_view(tests@)));
    }
}

/// `names` are exactly the given ones, in the order of a dictionary.
pub open spec fn in_order(names: Seq<Seq<char>>, all: Set<Seq<char>>) -> bool {
    &&& forall|name: Seq<char>| #[trigger] names.contains(name) <==> all.contains(name)
    &&& forall|i: int, j: int|
        0 <= i < j < names.len() ==> strings::text_before(#[trigger] names[i], #[trigger] names[j])
}

/// There is only one such order.
pub proof fn lemma_order_unique(a: Seq<Seq<char>>, b: Seq<Seq<char>>, all: Set<Seq<char>>)
    requires
        in_order(a, all),
        in_order(b, all),
    ensures
        a == b,
    decreases a.len(),
{
    if a.len() == 0 {
        if b.len() > 0 {
            assert(b.contains(b[0]));
            assert(a.contains(b[0]));
        }
        assert(a =~= b);
    } else {
        assert(a.contains(a[0]));
        assert(b.contains(a[0]));
        let k = b.index_of(a[0]);
        assert(b.contains(b[0]));
        assert(a.contains(b[0]));
        let m = a.index_of(b[0]);
        if a[0] != b[0] {
            assert(strings::text_before(b[0], b[k]));
            assert(strings::text_before(a[0], a[m]));
            strings::lemma_text_order(a[0], b[0]);
        }
        let rest = all.remove(a[0]);
        let a2 = a.drop_first();
        let b2 = b.drop_first();
        lemma_rest_in_order(a, all);
        lemma_rest_in_order(b, all);
        lemma_order_unique(a2, b2, rest);
        assert(a =~= seq![a[0]] + a2);
        assert(b =~= seq![b[0]] + b2);
    }
}

proof fn lemma_rest_in_order(a: Seq<Seq<char>>, all: Set<Seq<char>>)
    requires
        in_order(a, all),
        a.len() > 0,
    ensures
        in_order(a.drop_first(), all.remove(a[0])),
{
    let rest = a.drop_first();
    assert forall|name: Seq<char>| #[trigger] rest.contains(name) <==> all.remove(a[0]).contains(
        name,
    ) by {
        if rest.contains(name) {
            let i = rest.index_of(name);
            assert(a[i + 1] == name);
            assert(strings::text_before(a[0], a[i + 1]));
            strings::lemma_text_order(a[0], a[0]);
            assert(a.contains(name));
        }
        if all.remove(a[0]).contains(name) {
            assert(a.contains(name));
            let i = a.index_of(name);
            assert(rest[i - 1] == name);
        }
    }
}

/// The spans for some tests, one after the other.
pub open spec fn spans_for(
    names: Seq<Seq<char>>,
    tests: Map<Seq<char>, Seq<SpanView>>,
) -> Seq<SpanView>
    decreases names.len(),
{
    if names.len() == 0 {
        Seq::empty()
    } else {
        spans_for(names.drop_last(), tests) + tests[names.last()]
    }
}

/// `shown` is a line of the layout, with the tests of the commit whose status
/// goes there, sorted by name.
pub open spec fn shows_line(
    line: Seq<char>,
    commit: Option<Seq<char>>,
    cases: Map<Seq<char>, Map<Seq<char>, Seq<SpanView>>>,
    shown: Seq<SpanView>,
) -> bool {
    match commit {
        Some(hash) => if cases.dom().contains(hash) {
            exists|names: Seq<Seq<char>>| #[trigger]
                in_order(names, cases[hash].dom()) && shown == seq![plain(line)] + spans_for(
                    names,
                    cases[hash],
                )
        } else {
            shown == seq![plain(line)]
        },
        None => shown == seq![plain(line)],
    }
}

/// The commit whose status goes to a line.
pub open spec fn commit_at(commits: Map<usize, Seq<char>>, i: int) -> Option<Seq<char>> {
    if commits.dom().contains(i as usize) {
        Some(commits[i as usize])
    } else {
        None
    }
}

/// `shown` is the text for a layout with the given cases.
pub open spec fn shows(
    lines: Seq<Seq<char>>,
    commits: Map<usize, Seq<char>>,
    cases: Map<Seq<char>, Map<Seq<char>, Seq<SpanView>>>,
    shown: Seq<Seq<SpanView>>,
) -> bool {
    if lines.len() == 0 {
        shown == seq![seq![plain("[range empty]"@)]]
    } else {
        &&& shown.len() == lines.len()
        &&& forall|i: int|
            0 <= i < lines.len() ==> shows_line(
                lines[i],
                commit_at(commits, i),
                cases,
                #[trigger] shown[i],
            )
    }
}

/// The names of entries, taken in the given order.
spec fn names_at(
    entries: Seq<(TestName, RenderedTestCase)>,
    order: Seq<usize>,
) -> Seq<Seq<char>> {
    Seq::new(order.len(), |i: int| entries[order[i] as int].0@)
}

/// Every one of the first `n` entries is in the order, and no other.
spec fn covers(order: Seq<usize>, n: int) -> bool {
    &&& forall|i: int| 0 <= i < order.len() ==> (#[trigger] order[i]) < n
    &&& forall|v: usize| v < n ==> #[trigger] order.contains(v)
}

/// The entries in the order of their names.
fn sorted_entries(tests: &Assoc<TestName, RenderedTestCase>) -> (r: Vec<usize>)
    requires
        tests.wf(),
    ensures
        forall|i: int| 0 <= i < r@.len() ==> (#[trigger] r@[i]) < tests.list().len(),
        in_order(names_at(tests.list(), r@), tests@.dom()),
{
    let ghost list = tests.list();
    let mut order: Vec<usize> = Vec::new();
    let mut n: usize = 0;
    while n < tests.len()
        invariant
            n <= list.len(),
            list == tests.list(),
            tests.wf(),
            covers(order@, n as int),
            forall|i: int, j: int|
                0 <= i < j < order@.len() ==> strings::text_before(
                    #[trigger] names_at(list, order@)[i],
                    #[trigger] names_at(list, order@)[j],
                ),
        decreases list.len() - n,
    {
        let name = tests.key_at(n);
        let ghost before = order@;
        let ghost names = names_at(list, before);
        let mut p: usize = 0;
        while p < order.len() && !strings::comes_before(
            name.as_str(),
            tests.key_at(order[p]).as_str(),
        )
            invariant
                p <= order@.len(),
                n < list.len(),
                list == tests.list(),
                tests.wf(),
                name@ == list[n as int].0@,
                order@ == before,
                names == names_at(list, before),
                covers(before, n as int),
                forall|i: int| 0 <= i < p ==> strings::text_before(#[trigger] names[i], name@),
            decreases order@.len() - p,
        {
            proof {
                assert(names[p as int] == list[before[p as int] as int].0@);
                assert(names[p as int] != name@) by {
                    let keys = assoc::entry_keys(list);
                    assert(keys[before[p as int] as int] != keys[n as int]);
                }
                strings::lemma_text_order(names[p as int], name@);
            }
            p += 1;
        }
        order.insert(p, n);
        proof {
            let after = order@;
            let now = names_at(list, after);
            assert(after =~= before.insert(p as int, n));
            assert forall|i: int, j: int| 0 <= i < j < after.len() implies strings::text_before(
                #[trigger] now[i],
                #[trigger] now[j],
            ) by {
                let a: int = if i < p { i } else { i - 1 };
                let b: int = if j < p { j } else { j - 1 };
                if i != p {
                    assert(now[i] == names[a]);
                }
                if j != p {
                    assert(now[j] == names[b]);
                }
                if i != p && j != p {
                    assert(strings::text_before(names[a], names[b]));
                } else if i == p {
                    assert(strings::text_before(name@, names[p as int]));
                    if b > p {
                        assert(strings::text_before(names[p as int], names[b]));
                        strings::lemma_text_order_transitive(name@, names[p as int], names[b]);
                    }
                }
            }
            assert forall|v: usize| v < n + 1 implies #[trigger] after.contains(v) by {
                if v < n {
                    assert(before.contains(v));
                    let k = before.index_of(v);
                    if k < p {
                        assert(after[k] == v);
                    } else {
                        assert(after[k + 1] == v);
                    }
                } else {
                    assert(after[p as int] == v);
                }
            }
            assert forall|i: int| 0 <= i < after.len() implies (#[trigger] after[i]) < n + 1 by {
                if i < p {
                    assert(after[i] == before[i]);
                } else if i > p {
                    assert(after[i] == before[i - 1]);
                }
            }
        }
        n += 1;
    }
    proof {
        let names = names_at(list, order@);
        assert forall|name: Seq<char>| #[trigger] names.contains(name) <==> tests@.dom().contains(
            name,
        ) by {
            assoc::lemma_map_of(list, name);
            let keys = assoc::entry_keys(list);
            if names.contains(name) {
                let i = names.index_of(name);
                assert(keys[order@[i] as int] == name);
            }
            if keys.contains(name) {
                let v = keys.index_of(name) as usize;
                assert(order@.contains(v));
                let i = order@.index_of(v);
                assert(names[i] == name);
            }
        }
    }
    order
}

/// The given lines, and rows for the status of commits, lay out a graph and
/// information about its commits; or the given error says why they cannot be
/// laid out. The information has to be in order, then the graph, and then there
/// has to be information about every commit.
pub open spec fn is_layout(
    parts: Seq<Seq<Seq<char>>>,
    info_parts: Seq<Seq<char>>,
    r: Result<(Seq<Seq<char>>, Map<usize, Seq<char>>), GraphError>,
) -> bool {
    let info = graph::info_map(info_parts);
    let chunks = Seq::new(parts.len(), |k: int| graph::parsed_chunk(parts[k]));
    let info_ok = forall|i: int|
        0 <= i < info_parts.len() ==> (#[trigger] info_parts[i]).contains(' ');
    let graph_ok = forall|k: int|
        0 <= k < parts.len() ==> graph::has_one_hash(#[trigger] parts[k]);
    let complete = forall|k: int|
        0 <= k < parts.len() ==> info.dom().contains((#[trigger] chunks[k]).0);
    match r {
        Ok((lines, commits)) => {
            &&& info_ok && graph_ok && complete
            &&& lines == graph::all_rows(chunks, info)
            &&& commits == graph::status_rows(chunks, info)
        },
        Err(GraphError::BadInfo) => !info_ok,
        Err(GraphError::BadChunk { matches, chunk }) => {
            &&& info_ok && !graph_ok
            &&& graph::is_bad_chunk(parts, matches as nat, strings::texts(chunk@))
        },
        Err(GraphError::MissingInfo(hash)) => {
            &&& info_ok && graph_ok && !complete
            &&& graph::is_missing(chunks, info.dom(), hash@)
        },
        Err(_) => false,
    }
}

/// Represents the buffer showing the current status of all the commits being tested.
#[derive(Debug)]
pub struct OutputBuffer {
    layout: Layout,
}

impl OutputBuffer {
    /// The lines of static information.
    pub closed spec fn lines(&self) -> Seq<Seq<char>> {
        strings::texts(self.layout.lines@)
    }

    /// The commits whose status goes to lines.
    pub closed spec fn commits(&self) -> Map<usize, Seq<char>> {
        graph::commit_texts(self.layout.status_commits@)
    }

    /// No line is for the status of two commits.
    pub closed spec fn wf(&self) -> bool {
        self.layout.status_commits.wf()
    }

    pub fn empty() -> (r: Self)
        ensures
            r.wf(),
            r.lines() == Seq::<Seq<char>>::empty(),
            r.commits() == Map::<usize, Seq<char>>::empty(),
    {
        let r = OutputBuffer { layout: Layout::empty() };
        assert(r.lines() =~= Seq::empty());
        assert(r.commits() =~= Map::empty());
        r
    }

    /// Lays out the commits of a range: the graph that git prints is divided
    /// into chunks that start with the '*' that identifies each commit, and
    /// the information about each commit is put beside its chunk, with room
    /// for the live status below it.
    pub fn new(graph_buf: &GraphBuffer, info_buf: &CommitInfoBuffer) -> (r: Result<
        Self,
        GraphError,
    >)
        ensures
            match r {
                Ok(buf) => buf.wf() && is_layout(
                    graph_buf.parts(),
                    graph::info_parts(info_buf.raw()),
                    Ok((buf.lines(), buf.commits())),
                ),
                Err(e) => is_layout(
                    graph_buf.parts(),
                    graph::info_parts(info_buf.raw()),
                    Err(e),
                ),
            },
    {
        let commit_info = match info_buf.info() {
            Ok(info) => info,
            Err(e) => {
                return Err(e);
            },
        };
        let chunks = match graph_buf.chunks() {
            Ok(chunks) => chunks,
            Err(e) => {
                return Err(e);
            },
        };
        proof {
            let parts = graph_buf.parts();
            let parsed = Seq::new(parts.len(), |k: int| graph::parsed_chunk(parts[k]));
            assert(graph::chunk_views(chunks@) == parsed);
            assert forall|k: int| 0 <= k < chunks@.len() implies (#[trigger] chunks@[k]).0@
                == parsed[k].0 by {
                assert(graph::chunk_views(chunks@)[k] == parsed[k]);
            }
            assert(graph::value_texts(commit_info@).dom() =~= commit_info@.dom());
            assert(forall|k: int|
                0 <= k < chunks@.len() ==> parsed[k].0 == (#[trigger] chunks@[k]).0@);
            assert(forall|k: int|
                0 <= k < parts.len() ==> (#[trigger] parsed[k]).0 == chunks@[k].0@);
        }
        match Layout::new(&chunks, &commit_info) {
            Ok(layout) => Ok(OutputBuffer { layout }),
            Err(e) => Err(e),
        }
    }

    /// The text to show, given the cases.
    pub fn render(&self, rendered_cases: &RenderedCases) -> (r: Text)
        requires
            self.wf(),
            cases_wf(*rendered_cases),
        ensures
            shows(self.lines(), self.commits(), cases_view(rendered_cases@), r@),
    {
        let ghost lines = self.lines();
        let ghost commits = self.commits();
        let ghost cases = cases_view(rendered_cases@);
        if self.layout.lines.len() == 0 {
            let text = Text::from_line(
                Line::from_span(Span::new(String::from_str("[range empty]"))),
            );
            assert(text@ =~= seq![seq![plain("[range empty]"@)]]);
            return text;
        }
        let mut out: Vec<Line> = Vec::new();
        let mut i: usize = 0;
        while i < self.layout.lines.len()
            invariant
                i <= self.layout.lines@.len(),
                self.wf(),
                cases_wf(*rendered_cases),
                lines == self.lines(),
                commits == self.commits(),
                cases == cases_view(rendered_cases@),
                out@.len() == i,
                forall|k: int|
                    0 <= k < i ==> shows_line(
                        lines[k],
                        commit_at(commits, k),
                        cases,
                        (#[trigger] out@[k])@,
                    ),
            decreases self.layout.lines@.len() - i,
        {
            let mut line = Line::from_span(Span::new(self.layout.lines[i].clone()));
            assert(line@ =~= seq![plain(lines[i as int])]);
            let ghost head = line@;
            if let Some(hash) = self.layout.status_commits.get(&i) {
                assert(commit_at(commits, i as int) == Some(hash@));
                if let Some(tests) = rendered_cases.get(hash) {
                    assert(cases[hash@] == tests_view(tests@));
                    OutputBuffer::push_cases(&mut line, tests);
                }
            }
            assert(shows_line(lines[i as int], commit_at(commits, i as int), cases, line@));
            out.push(line);
            i += 1;
        }
        let text = Text { lines: out };
        assert forall|k: int| 0 <= k < lines.len() implies shows_line(
            lines[k],
            commit_at(commits, k),
            cases,
            #[trigger] text@[k],
        ) by {
            assert(text@[k] == out@[k]@);
        }
        text
    }

    /// Appends the cases of a commit to a line, sorted by the names of the
    /// tests.
    fn push_cases(line: &mut Line, tests: &Assoc<TestName, RenderedTestCase>)
        requires
            tests.wf(),
        ensures
            exists|names: Seq<Seq<char>>| #[trigger]
                in_order(names, tests_view(tests@).dom()) && final(line)@ == old(line)@ + spans_for(
                    names,
                    tests_view(tests@),
                ),
    {
        let ghost head = line@;
        let ghost list = tests.list();
        let order = sorted_entries(tests);
        let ghost names = names_at(list, order@);
        let ghost view = tests_view(tests@);
        assert(view.dom() =~= tests@.dom());
        let mut i: usize = 0;
        assert(names.take(0) =~= Seq::empty());
        assert(head + spans_for(Seq::empty(), view) =~= head);
        while i < order.len()
            invariant
                i <= order@.len(),
                list == tests.list(),
                tests.wf(),
                names == names_at(list, order@),
                view == tests_view(tests@),
                forall|k: int| 0 <= k < order@.len() ==> (#[trigger] order@[k]) < list.len(),
                line@ == head + spans_for(names.take(i as int), view),
            decreases order@.len() - i,
        {
            assert(names.take(i + 1).drop_last() =~= names.take(i as int));
            assert(names.take(i + 1).last() == names[i as int]);
            let at: usize = order[i];
            let rendered = tests.value_at(at);
            proof {
                assoc::lemma_distinct_entries(list, at as int);
                assert(view[names[i as int]] == spans_view(rendered.spans@));
            }
            let ghost before = line@;
            push_spans(line, &rendered.spans);
            assert(line@ =~= head + spans_for(names.take(i + 1), view));
            i += 1;
        }
        assert(names.take(i as int) =~= names);
    }

    /// What to show for a test case.
    pub fn render_case(test_case: &TestCase, status: &TestStatus, result_url_base: &str) -> (r: Vec<
        Span,
    >)
        ensures
            spans_view(r@) == case_spans(*test_case, *status, result_url_base@),
    {
        let mut url: String = String::from_str(result_url_base);
        url.append("/");
        url.append(Database::result_relpath(test_case).as_str());
        url.append("/stdout.txt");
        let status_part = match status {
            // Note - cancellation is an "error" in the type system but we
            // don't treat it as an error in the UI.
            TestStatus::Finished(Err(TestInconclusive::Error(msg))) => {
                Span::new(msg.clone()).with_class(Class::Error)
            },
            TestStatus::Finished(Ok(entry)) => {
                if entry.exit_code() == 0 {
                    Span::new(String::from_str("success")).with_class(Class::Success)
                } else {
                    let mut content: String = String::from_str("failed (status ");
                    content.append(strings::signed_decimal_text(entry.exit_code()).as_str());
                    content.append(")");
                    Span::new(content).with_class(Class::Failure)
                }
            },
            _ => Span::new(status.to_string()),
        };
        let status_part = status_part.with_url(url);
        let mut spans: Vec<Span> = Vec::new();
        spans.push(
            Span::new(String::from_str(test_case.test.name.as_str())).with_class(Class::TestName),
        );
        spans.push(Span::new(String::from_str(": ")));
        spans.push(status_part);
        spans.push(Span::new(String::from_str(" ")));
        assert(spans_view(spans@) =~= case_spans(*test_case, *status, result_url_base@));
        spans
    }
}

/// Appends spans to a line.
fn push_spans(line: &mut Line, spans: &Vec<Span>)
    ensures
        final(line)@ == old(line)@ + spans_view(spans@),
{
    let ghost head = line@;
    let ghost all = spans_view(spans@);
    let mut i: usize = 0;
    assert(head + all.take(0) =~= head);
    while i < spans.len()
        invariant
            i <= spans@.len(),
            all == spans_view(spans@),
            line@ == head + all.take(i as int),
        decreases spans@.len() - i,
    {
        let ghost before = line@;
        line.spans.push(spans[i].clone());
        assert(line@ =~= before.push(all[i as int]));
        assert(before.push(all[i as int]) =~= head + all.take(i + 1));
        i += 1;
    }
    assert(all.take(i as int) =~= all);
}

/// As much of a text as fits in a terminal.
pub open spec fn fitted(text: Seq<Seq<SpanView>>, size: Rect) -> Seq<Seq<SpanView>> {
    Seq::new(
        if size.rows < text.len() {
            size.rows as nat
        } else {
            text.len()
        },
        |i: int| text::cut_line(text[i], size.cols as nat),
    )
}

/// What is written to the terminal to show a text and the address of the web
/// page: the alternate screen is entered and cleared first.
pub open spec fn screen_text(body: Seq<char>, url: Seq<char>) -> Seq<char> {
    "\u{1b}[?1049h\n"@ + "\u{1b}["@ + strings::decimal(0) + ";"@ + strings::decimal(0) + "H"@
        + "\u{1b}[0J"@ + body + "Web UI: "@ + url + "\n"@
}

/// What is written to the terminal to show a rendered text and the address of
/// the web page.
pub fn screen(body: &str, url: &str) -> (r: String)
    ensures
        r@ == screen_text(body@, url@),
{
    // Enter alternate screen. This is idempotent so we just do it every time.
    let mut out: String = String::from_str("\u{1b}[?1049h\n");
    // Move cursor to top left and erase the display.
    out.append(terminal::cursor_position(0, 0).as_str());
    out.append(terminal::erase_display().as_str());
    out.append(body);
    out.append("Web UI: ");
    out.append(url);
    out.append("\n");
    assert(out@ =~= screen_text(body@, url@));
    out
}

/// What to do with a new state of affairs.
#[derive(Debug)]
pub struct Repaint {
    /// The HTML to show in the web page.
    pub log_html: String,
    /// The text to write to the terminal.
    pub output: String,
}

/// Tracks the status of the tests being run by observing the notification
/// stream.
#[derive(Debug)]
pub struct StatusViewer {
    rendered_cases: RenderedCases,
    output_buf: OutputBuffer,
    result_url_base: String,
    home_url: String,
}

/// The information to show about each commit. This should eventually be
/// configurable.
pub const LOG_FORMAT: &'static str =
    "%Cred%h%Creset -%C(yellow)%d%Creset %s %Cgreen(%cr) %C(bold blue)<%an>%Creset";

/// `r` shows the given lines and cases, as far as they fit.
pub open spec fn repaints(
    lines: Seq<Seq<char>>,
    commits: Map<usize, Seq<char>>,
    cases: Map<Seq<char>, Map<Seq<char>, Seq<SpanView>>>,
    home_url: Seq<char>,
    size: Rect,
    text: Seq<Seq<SpanView>>,
    shown: Seq<Seq<Seq<char>>>,
    url: Seq<char>,
    r: Repaint,
) -> bool {
    &&& shows(lines, commits, cases, text)
    &&& r.log_html@ == text::html_text(text)
    &&& text::may_show_text(fitted(text, size), shown)
    &&& url == home_url || url == text::styled("1;44"@, home_url)
    &&& r.output@ == screen_text(text::ansi_text(fitted(text, size), shown), url)
}

impl StatusViewer {
    /// What is shown for each test of each commit.
    pub closed spec fn cases(&self) -> Map<Seq<char>, Map<Seq<char>, Seq<SpanView>>> {
        cases_view(self.rendered_cases@)
    }

    /// The lines of static information.
    pub closed spec fn lines(&self) -> Seq<Seq<char>> {
        self.output_buf.lines()
    }

    /// The commits whose status goes to lines.
    pub closed spec fn commits(&self) -> Map<usize, Seq<char>> {
        self.output_buf.commits()
    }

    /// What addresses of results start with.
    pub closed spec fn url_base(&self) -> Seq<char> {
        self.result_url_base@
    }

    /// The address of the web page.
    pub closed spec fn home(&self) -> Seq<char> {
        self.home_url@
    }

    /// Nothing is there twice.
    pub closed spec fn wf(&self) -> bool {
        cases_wf(self.rendered_cases) && self.output_buf.wf()
    }

    /// Construct a UI. The URL base is used to generate hyperlinks to test
    /// results.
    pub fn new(result_url_base: String, home_url: String) -> (r: Self)
        ensures
            r.wf(),
            r.cases() == Map::<Seq<char>, Map<Seq<char>, Seq<SpanView>>>::empty(),
            r.lines() == Seq::<Seq<char>>::empty(),
            r.commits() == Map::<usize, Seq<char>>::empty(),
            r.url_base() == result_url_base@,
            r.home() == home_url@,
    {
        let viewer = StatusViewer {
            rendered_cases: Assoc::new(),
            output_buf: OutputBuffer::empty(),
            result_url_base,
            home_url,
        };
        assert(viewer.cases() =~= Map::empty());
        viewer
    }

    /// Informs the UI of the range of tests that we expect to be testing.
    pub fn set_range(&mut self, output_buf: OutputBuffer)
        requires
            old(self).wf(),
            output_buf.wf(),
        ensures
            final(self).wf(),
            final(self).lines() == output_buf.lines(),
            final(self).commits() == output_buf.commits(),
            final(self).cases() == old(self).cases(),
            final(self).url_base() == old(self).url_base(),
            final(self).home() == old(self).home(),
    {
        self.output_buf = output_buf;
    }

    /// Absorb a notification.
    pub fn update(&mut self, notif: &Notification)
        requires
            old(self).wf(),
        ensures
            final(self).wf(),
            final(self).cases() == updated(old(self).cases(), *notif, old(self).url_base()),
            final(self).lines() == old(self).lines(),
            final(self).commits() == old(self).commits(),
            final(self).url_base() == old(self).url_base(),
            final(self).home() == old(self).home(),
    {
        update_rendered_cases(&mut self.rendered_cases, notif, self.result_url_base.as_str());
    }

    /// The current state of affairs, for the web page and for a terminal of
    /// the given size. Whether styles are applied in the terminal depends on
    /// the environment.
    pub fn repaint(&self, term_size: &Rect) -> (r: Repaint)
        requires
            self.wf(),
        ensures
            exists|text: Seq<Seq<SpanView>>, shown: Seq<Seq<Seq<char>>>, url: Seq<char>| #[trigger]
                repaints(
                    self.lines(),
                    self.commits(),
                    self.cases(),
                    self.home(),
                    *term_size,
                    text,
                    shown,
                    url,
                    r,
                ),
    {
        let render = self.output_buf.render(&self.rendered_cases);
        let ghost text = render@;
        let log_html = render.html_pre().to_string();
        let mut rest = render.into_lines();
        let ghost all = rest@;
        let mut lines: Vec<Line> = Vec::new();
        let ghost goal = fitted(text, *term_size);
        let ghost mut n: int = 0;
        while rest.len() > 0 && lines.len() < term_size.rows
            invariant
                0 <= n <= all.len(),
                text.len() == all.len(),
                forall|k: int| 0 <= k < all.len() ==> (#[trigger] all[k])@ == text[k],
                rest@ =~= all.skip(n),
                goal == fitted(text, *term_size),
                lines@.len() == n,
                n <= term_size.rows,
                forall|k: int| 0 <= k < n ==> (#[trigger] lines@[k])@ == goal[k],
            decreases rest@.len(),
        {
            let line = rest.remove(0);
            lines.push(line.truncate_graphemes(term_size.cols));
            proof {
                n = n + 1;
            }
        }
        let truncated = Text { lines };
        assert(truncated@ =~= goal);
        let body = truncated.ansi().to_string();
        let url = text::bold_on_blue(self.home_url.as_str());
        let output = screen(body.as_str(), url.as_str());
        let r = Repaint { log_html, output };
        proof {
            let shown = choose|shown: Seq<Seq<Seq<char>>>|
                text::may_show_text(goal, shown) && body@ == #[trigger] text::ansi_text(
                    goal,
                    shown,
                );
            assert(repaints(
                self.lines(),
                self.commits(),
                self.cases(),
                self.home(),
                *term_size,
                text,
                shown,
                url@,
                r,
            ));
        }
        r
    }

    /// What is written to the terminal in the end, to leave the alternate
    /// screen.
    pub fn leave() -> (r: String)
        ensures
            r@ == "\u{1b}[?1049l\n"@,
    {
        String::from_str("\u{1b}[?1049l\n")
    }
}

/// What is shown tells the outcomes apart: a result with the exit code 0 is
/// shown as a success, one with another code as a failure with that code, and an
/// error with its message. Everything else is shown without a class.
pub proof fn lemma_status_tells_the_outcome(status: TestStatus, url: Seq<char>)
    ensures
        status_span(status, url).class == Some(Class::Success) <==> (status
            matches TestStatus::Finished(Ok(entry)) && entry.entry().result.exit_code == 0),
        status_span(status, url).class == Some(Class::Failure) <==> (status
            matches TestStatus::Finished(Ok(entry)) && entry.entry().result.exit_code != 0),
        status_span(status, url).class == Some(Class::Error) <==> (status
            matches TestStatus::Finished(Err(TestInconclusive::Error(_)))),
        status_span(status, url).class is None <==> (status is Enqueued || status is Started
            || status matches TestStatus::Finished(Err(TestInconclusive::Canceled))),
        status_span(status, url).url == Some(url),
        match status {
            TestStatus::Enqueued => status_span(status, url).content == "Enqueued"@,
            TestStatus::Started => status_span(status, url).content == "Started"@,
            TestStatus::Finished(Err(TestInconclusive::Canceled)) => status_span(
                status,
                url,
            ).content == "Canceled"@,
            TestStatus::Finished(Err(TestInconclusive::Error(msg))) => status_span(
                status,
                url,
            ).content == msg@,
            TestStatus::Finished(Ok(entry)) => if entry.entry().result.exit_code == 0 {
                status_span(status, url).content == "success"@
            } else {
                strings::has_part(
                    status_span(status, url).content,
                    strings::decimal(entry.entry().result.exit_code as int),
                )
            },
        },
{
    if let TestStatus::Finished(Ok(entry)) = status {
        let code = strings::decimal(entry.entry().result.exit_code as int);
        let n = "failed (status "@.len() as int;
        let text = "failed (status "@ + code + ")"@;
        assert(text.subrange(n, n + code.len()) =~= code);
    }
}

/// Failures with different exit codes are shown differently.
pub proof fn lemma_failures_told_apart(
    a: std::sync::Arc<crate::database::DatabaseEntry>,
    b: std::sync::Arc<crate::database::DatabaseEntry>,
    url: Seq<char>,
)
    requires
        a.entry().result.exit_code > 0,
        b.entry().result.exit_code > 0,
        status_span(TestStatus::Finished(Ok(a)), url) == status_span(
            TestStatus::Finished(Ok(b)),
            url,
        ),
    ensures
        a.entry().result.exit_code == b.entry().result.exit_code,
{
    let x = a.entry().result.exit_code as int;
    let y = b.entry().result.exit_code as int;
    let head = "failed (status "@;
    let end = ")"@;
    let s = status_span(TestStatus::Finished(Ok(a)), url).content;
    assert(s.subrange(head.len() as int, s.len() - end.len()) =~= strings::decimal(x));
    assert(s.subrange(head.len() as int, s.len() - end.len()) =~= strings::decimal(y));
    strings::lemma_decimal_injective(x, y);
}

/// A test case is shown with the name of its test first, then its status, which
/// is a link to the output of this very case.
#[verifier::spinoff_prover]
pub proof fn lemma_case_is_shown(test_case: TestCase, status: TestStatus, base: Seq<char>)
    requires
        test_case.storage().len() > 0,
        test_case.storage().last() != '/',
        test_case.test.name@.len() > 0,
        test_case.test.name@.first() != '/',
    ensures
        ({
            let spans = case_spans(test_case, status, base);
            let url = base + "/"@ + test_case.storage() + "/"@ + test_case.test.name@
                + "/stdout.txt"@;
            &&& spans.len() > 0
            &&& spans[0].content == test_case.test.name@
            &&& spans[0].class == Some(Class::TestName)
            &&& exists|i: int| 0 < i < spans.len() && #[trigger] spans[i] == status_span(status, url)
            &&& forall|i: int|
                0 <= i < spans.len() && (#[trigger] spans[i]).url is Some ==> spans[i].url == Some(
                    url,
                )
            &&& text::line_content(spans) == test_case.test.name@ + ": "@ + status_span(
                status,
                url,
            ).content + " "@
        }),
{
    reveal_strlit("/");
    let spans = case_spans(test_case, status, base);
    let rel = database::relpath(test_case);
    let hash = test_case.storage();
    let name = test_case.test.name@;
    assert(rel =~= hash + "/"@ + name);
    let url = base + "/"@ + hash + "/"@ + name + "/stdout.txt"@;
    assert(base + "/"@ + rel + "/stdout.txt"@ =~= url);
    assert(spans[2] == status_span(status, url));
    let contents = Seq::new(spans.len(), |i: int| spans[i].content);
    assert(contents =~= seq![name, ": "@, status_span(status, url).content, " "@]);
    reveal_with_fuel(text::concatenated, 5);
    assert(contents.drop_last().drop_last().drop_last().drop_last() =~= Seq::empty());
    assert(text::line_content(spans) =~= name + ": "@ + status_span(status, url).content + " "@);
}

/// News about a test case replace what was shown for that test at that commit,
/// and change nothing else.
pub proof fn lemma_news_replace_one_case(
    cases: Map<Seq<char>, Map<Seq<char>, Seq<SpanView>>>,
    notif: Notification,
    base: Seq<char>,
    hash: Seq<char>,
    name: Seq<char>,
)
    ensures
        ({
            let after = updated(cases, notif, base);
            let its_hash = notif.test_case.commit_hash@;
            let its_name = notif.test_case.test.name@;
            &&& after.dom().contains(its_hash)
            &&& after[its_hash].dom().contains(its_name)
            &&& after[its_hash][its_name] == case_spans(notif.test_case, notif.status, base)
            &&& hash != its_hash ==> (after.dom().contains(hash) <==> cases.dom().contains(hash))
            &&& hash != its_hash && cases.dom().contains(hash) ==> after[hash] == cases[hash]
            &&& name != its_name && cases.dom().contains(its_hash) ==> (
            after[its_hash].dom().contains(name) <==> cases[its_hash].dom().contains(name))
            &&& name != its_name && cases.dom().contains(its_hash)
                && cases[its_hash].dom().contains(name) ==> after[its_hash][name]
                == cases[its_hash][name]
        }),
{
}

/// Everything that is known about the tests of a commit is shown in the row of
/// that commit, after the line that belongs there.
pub proof fn lemma_every_test_is_shown(
    lines: Seq<Seq<char>>,
    commits: Map<usize, Seq<char>>,
    cases: Map<Seq<char>, Map<Seq<char>, Seq<SpanView>>>,
    shown: Seq<Seq<SpanView>>,
    row: usize,
    name: Seq<char>,
)
    requires
        shows(lines, commits, cases, shown),
        row < lines.len(),
    ensures
        shown.len() == lines.len(),
        shown[row as int].len() > 0,
        shown[row as int][0] == plain(lines[row as int]),
        !commits.dom().contains(row) ==> shown[row as int].len() == 1,
        commits.dom().contains(row) && cases.dom().contains(commits[row])
            && cases[commits[row]].dom().contains(name) ==> exists|at: int|
            0 < at && at + cases[commits[row]][name].len() <= shown[row as int].len()
                && #[trigger] shown[row as int].subrange(
                at,
                at + cases[commits[row]][name].len(),
            ) == cases[commits[row]][name],
{
    let line = shown[row as int];
    assert(shows_line(lines[row as int], commit_at(commits, row as int), cases, line));
    if commits.dom().contains(row) && cases.dom().contains(commits[row]) {
        let tests = cases[commits[row]];
        let names = choose|names: Seq<Seq<char>>| #[trigger]
            in_order(names, tests.dom()) && line == seq![plain(lines[row as int])] + spans_for(
                names,
                tests,
            );
        if tests.dom().contains(name) {
            assert(names.contains(name));
            let at = lemma_spans_at(names, tests, names.index_of(name));
            assert(line.subrange(at + 1, at + 1 + tests[name].len()) =~= spans_for(
                names,
                tests,
            ).subrange(at, at + tests[name].len()));
        }
    }
}

/// Where the spans of a test stand among those of all.
proof fn lemma_spans_at(
    names: Seq<Seq<char>>,
    tests: Map<Seq<char>, Seq<SpanView>>,
    k: int,
) -> (at: int)
    requires
        0 <= k < names.len(),
    ensures
        0 <= at,
        at + tests[names[k]].len() <= spans_for(names, tests).len(),
        spans_for(names, tests).subrange(at, at + tests[names[k]].len()) == tests[names[k]],
    decreases names.len(),
{
    let rest = names.drop_last();
    let all = spans_for(names, tests);
    if k < rest.len() {
        let at = lemma_spans_at(rest, tests, k);
        assert(all.subrange(at, at + tests[names[k]].len()) =~= spans_for(rest, tests).subrange(
            at,
            at + tests[names[k]].len(),
        ));
        at
    } else {
        let at = spans_for(rest, tests).len() as int;
        assert(all.subrange(at, at + tests[names[k]].len()) =~= tests[names[k]]);
        at
    }
}

/// A terminal shows as many lines from the top as it has rows, each from its
/// start and cut to its width.
pub proof fn lemma_terminal_is_filled(text: Seq<Seq<SpanView>>, size: Rect, i: int)
    requires
        0 <= i < fitted(text, size).len(),
    ensures
        fitted(text, size).len() <= size.rows,
        fitted(text, size).len() < size.rows ==> fitted(text, size).len() == text.len(),
        fitted(text, size).len() <= text.len(),
        fitted(text, size)[i] == text::cut_line(text[i], size.cols as nat),
{
}

/// The screen is entered and cleared, from its upper left corner on, before
/// anything is shown; then it shows the whole text, and the address of the web
/// page in the last line.
pub proof fn lemma_screen_shows(body: Seq<char>, url: Seq<char>)
    ensures
        strings::has_part(screen_text(body, url), body),
        crate::job::ends_with(screen_text(body, url), url + "\n"@),
        screen_text(body, url) == "\u{1b}[?1049h\n\u{1b}[0;0H\u{1b}[0J"@ + body + "Web UI: "@ + url
            + "\n"@,
{
    let s = screen_text(body, url);
    reveal_strlit("\u{1b}[?1049h\n\u{1b}[0;0H\u{1b}[0J");
    reveal_strlit("\u{1b}[?1049h\n");
    reveal_strlit("\u{1b}[");
    reveal_strlit(";");
    reveal_strlit("H");
    reveal_strlit("\u{1b}[0J");
    assert(strings::decimal(0) =~= seq!['0']);
    assert("\u{1b}[?1049h\n"@ + "\u{1b}["@ + strings::decimal(0) + ";"@ + strings::decimal(0) + "H"@
        + "\u{1b}[0J"@ =~= "\u{1b}[?1049h\n\u{1b}[0;0H\u{1b}[0J"@);
    let end = body + "Web UI: "@ + url + "\n"@;
    let n = s.len() - end.len();
    assert(s.subrange(n, n + body.len()) =~= body);
    assert(s.skip(s.len() - (url + "\n"@).len()) =~= url + "\n"@);
}

/// Where there is no commit, that is said, in one line.
pub proof fn lemma_empty_range(
    commits: Map<usize, Seq<char>>,
    cases: Map<Seq<char>, Map<Seq<char>, Seq<SpanView>>>,
    shown: Seq<Seq<SpanView>>,
)
    requires
        shows(Seq::empty(), commits, cases, shown),
    ensures
        shown.len() == 1,
        shown[0].len() == 1,
        shown[0][0].content == "[range empty]"@,
        shown[0][0].class is None && shown[0][0].url is None,
{
}

/// The tests of a commit are shown one after the other, in the given order.
pub proof fn lemma_tests_in_order(
    a: Seq<Seq<char>>,
    b: Seq<Seq<char>>,
    tests: Map<Seq<char>, Seq<SpanView>>,
    name: Seq<char>,
)
    ensures
        spans_for(a + b, tests) == spans_for(a, tests) + spans_for(b, tests),
        spans_for(seq![name], tests) == tests[name],
    decreases b.len(),
{
    reveal_with_fuel(spans_for, 2);
    assert(seq![name].drop_last() =~= Seq::empty());
    assert(spans_for(seq![name], tests) =~= tests[name]);
    if b.len() == 0 {
        assert(a + b =~= a);
        assert(spans_for(a, tests) + spans_for(b, tests) =~= spans_for(a, tests));
    } else {
        assert((a + b).drop_last() =~= a + b.drop_last());
        lemma_tests_in_order(a, b.drop_last(), tests, name);
        assert(spans_for(a + b, tests) =~= spans_for(a, tests) + spans_for(b, tests));
    }
}

/// A repaint puts every span of the text on the web page, whether it fits in
/// the terminal or not; in the terminal there is every line that fits, and the
/// address of the page.
pub proof fn lemma_repaint_shows_everything(
    lines: Seq<Seq<char>>,
    commits: Map<usize, Seq<char>>,
    cases: Map<Seq<char>, Map<Seq<char>, Seq<SpanView>>>,
    home_url: Seq<char>,
    size: Rect,
    text: Seq<Seq<SpanView>>,
    shown: Seq<Seq<Seq<char>>>,
    url: Seq<char>,
    r: Repaint,
    i: int,
    j: int,
)
    requires
        repaints(lines, commits, cases, home_url, size, text, shown, url, r),
        0 <= i < text.len(),
        0 <= j < text[i].len(),
    ensures
        strings::has_part(r.log_html@, text::html_line(text[i]).push('\n')),
        strings::has_part(text::html_line(text[i]), text::html_span(text[i][j])),
        strings::has_part(r.output@, text::ansi_text(fitted(text, size), shown)),
        crate::job::ends_with(r.output@, url + "\n"@),
        i < size.rows && text::cut_line(text[i], size.cols as nat).len() > 0 ==> strings::has_part(
            text::ansi_text(fitted(text, size), shown),
            text::ansi_line(text::cut_line(text[i], size.cols as nat), shown[i]).push('\n'),
        ),
        url == home_url || url == text::styled("1;44"@, home_url),
{
    text::lemma_page_shows_text(text, i, j);
    lemma_screen_shows(text::ansi_text(fitted(text, size), shown), url);
    if i < size.rows && text::cut_line(text[i], size.cols as nat).len() > 0 {
        text::lemma_terminal_shows_text(fitted(text, size), shown, i, 0);
    }
}

/// A layout has a row for the status of every commit of the graph.
pub proof fn lemma_layout_has_every_commit(
    parts: Seq<Seq<Seq<char>>>,
    info_parts: Seq<Seq<char>>,
    lines: Seq<Seq<char>>,
    commits: Map<usize, Seq<char>>,
    k: int,
    before: Seq<char>,
    hash: Seq<char>,
    after: Seq<char>,
)
    requires
        is_layout(parts, info_parts, Ok((lines, commits))),
        lines.len() <= usize::MAX,
        0 <= k < parts.len(),
        parts[k].len() > 0,
        parts[k][0] == before + hash + after,
        forall|i: int| 0 <= i < before.len() ==> !graph::hash_char(#[trigger] before[i]),
        forall|i: int|
            0 <= i < hash.len() ==> '0' <= #[trigger] hash[i] <= '9' || 'a' <= hash[i] <= 'z',
        forall|i: int| 0 <= i < after.len() ==> !graph::hash_char(#[trigger] after[i]),
        hash.len() >= 40,
    ensures
        exists|row: usize| #[trigger]
            commits.dom().contains(row) && row < lines.len() && commits[row] == hash,
        exists|row: int|
            0 <= row < lines.len() && before.is_prefix_of(#[trigger] lines[row]),
        graph::info_map(info_parts).dom().contains(hash),
{
    let info = graph::info_map(info_parts);
    let chunks = Seq::new(parts.len(), |k: int| graph::parsed_chunk(parts[k]));
    graph::lemma_chunk_is_parsed(before, hash, after, parts[k]);
    assert(chunks[k].0 == hash);
    graph::lemma_status_rows(chunks, info, k);
    let row = graph::last_status_row(chunks.take(k + 1), info) as usize;
    assert(commits.dom().contains(row) && row < lines.len() && commits[row] == hash);
    graph::lemma_rows_of_commit(chunks, info, k);
    graph::lemma_laid_out(chunks[k].1, info[hash], 0);
    let start = graph::all_rows(chunks.take(k), info).len() as int;
    let own = graph::laid_out(chunks[k].1, info[hash]);
    assert(lines.subrange(start, start + own.len())[0] == lines[start]);
    assert(before.is_prefix_of(lines[start]));
}

/// A layout fails only for what is wrong: information without a space in it, a
/// chunk without just one hash, or a commit without information.
pub proof fn lemma_why_no_layout(
    parts: Seq<Seq<Seq<char>>>,
    info_parts: Seq<Seq<char>>,
    e: GraphError,
)
    requires
        is_layout(parts, info_parts, Err(e)),
    ensures
        match e {
            GraphError::BadInfo => exists|i: int|
                0 <= i < info_parts.len() && !(#[trigger] info_parts[i]).contains(' '),
            GraphError::BadChunk { matches, chunk } => exists|k: int|
                0 <= k < parts.len() && #[trigger] parts[k] == strings::texts(chunk@)
                    && graph::hashes_in(parts[k][0]).len() == matches && matches != 1,
            GraphError::MissingInfo(hash) => {
                &&& !graph::info_map(info_parts).dom().contains(hash@)
                &&& exists|k: int|
                    0 <= k < parts.len() && graph::parsed_chunk(#[trigger] parts[k]).0 == hash@
            },
            _ => false,
        },
{
    let info = graph::info_map(info_parts);
    let chunks = Seq::new(parts.len(), |k: int| graph::parsed_chunk(parts[k]));
    match e {
        GraphError::MissingInfo(hash) => {
            let k = choose|k: int|
                0 <= k < chunks.len() && hash@ == (#[trigger] chunks[k]).0 && !info.dom().contains(
                    hash@,
                ) && forall|j: int| 0 <= j < k ==> info.dom().contains((#[trigger] chunks[j]).0);
            assert(graph::parsed_chunk(parts[k]).0 == hash@);
        },
        _ => {},
    }
}

} // verus!

//! A plainer view of the commits being tested, which scrolls with the rest of
//! the terminal.
use crate::assoc::Assoc;
use crate::graph;
use crate::graph::{CommitInfoBuffer, GraphBuffer, GraphError};
use crate::strings;
use crate::terminal;
use crate::test::Notification;
use crate::text;
use crate::text::SpanView;
use crate::ui;
use crate::ui::RenderedCases;
use vstd::prelude::*;

verus! {

/// A link in a terminal.
pub open spec fn link(text: Seq<char>, url: Seq<char>) -> Seq<char> {
    "\u{1b}]8;;"@ + url + "\u{1b}\\"@ + text + "\u{1b}]8;;\u{1b}\\"@
}

/// Renders a hyperlink like in
/// https://gist.github.com/egmontkob/eb114294efbcd5adb1944c9f3cb5feda.
pub fn hyperlink(text: &str, url: &str) -> (r: String)
    ensures
        r@ == link(text@, url@),
{
    let mut out: String = String::from_str("\u{1b}]8;;");
    out.append(url);
    out.append("\u{1b}\\");
    out.append(text);
    out.append("\u{1b}]8;;\u{1b}\\");
    out
}

/// A span with an address is shown as a link.
pub proof fn lemma_span_is_link(span: SpanView, shown: Seq<char>)
    ensures
        text::ansi_span(span, shown) == match span.url {
            Some(url) => link(shown, url),
            None => shown,
        },
{
}

/// Represents the buffer showing the current status of all the commits being tested.
#[derive(Debug)]
pub struct OutputBuffer {
    buf: crate::ui::OutputBuffer,
}

/// The number of lines that a text takes up.
pub open spec fn line_count(lines: Seq<Seq<char>>) -> nat {
    if lines.len() == 0 {
        1
    } else {
        lines.len()
    }
}

impl OutputBuffer {
    /// The lines of static information.
    pub closed spec fn lines(&self) -> Seq<Seq<char>> {
        self.buf.lines()
    }

    /// The commits whose status goes to lines.
    pub closed spec fn commits(&self) -> Map<usize, Seq<char>> {
        self.buf.commits()
    }

    /// No line is for the status of two commits.
    pub closed spec fn wf(&self) -> bool {
        self.buf.wf()
    }

    pub fn empty() -> (r: Self)
        ensures
            r.wf(),
            r.lines() == Seq::<Seq<char>>::empty(),
            r.commits() == Map::<usize, Seq<char>>::empty(),
    {
        OutputBuffer { buf: crate::ui::OutputBuffer::empty() }
    }

    /// Lays out the commits of a range: the graph that git prints, with the
    /// information about each commit beside it and room for its live status.
    pub fn new(graph_buf: &GraphBuffer, info_buf: &CommitInfoBuffer) -> (r: Result<
        Self,
        GraphError,
    >)
        ensures
            match r {
                Ok(buf) => buf.wf() && ui::is_layout(
                    graph_buf.parts(),
                    graph::info_parts(info_buf.raw()),
                    Ok((buf.lines(), buf.commits())),
                ),
                Err(e) => ui::is_layout(
                    graph_buf.parts(),
                    graph::info_parts(info_buf.raw()),
                    Err(e),
                ),
            },
    {
        match crate::ui::OutputBuffer::new(graph_buf, info_buf) {
            Ok(buf) => Ok(OutputBuffer { buf }),
            Err(e) => Err(e),
        }
    }

    /// The text to write, and the number of its lines. Whether styles are
    /// applied depends on the environment.
    pub fn render(&self, statuses: &RenderedCases) -> (r: (String, usize))
        requires
            self.wf(),
            ui::cases_wf(*statuses),
        ensures
            exists|text: Seq<Seq<SpanView>>, shown: Seq<Seq<Seq<char>>>|
                ui::shows(self.lines(), self.commits(), ui::cases_view(statuses@), text)
                    && text::may_show_text(text, shown) && r.0@ == #[trigger] text::ansi_text(
                    text,
                    shown,
                ),
            r.1 == line_count(self.lines()),
    {
        let text = self.buf.render(statuses);
        let out = text.ansi().to_string();
        let count: usize = text.lines.len();
        (out, count)
    }
}

/// Tracks the status of the tests being run, and repaints it in place.
#[derive(Debug)]
pub struct Tracker {
    tracked_cases: RenderedCases,
    output_buf: OutputBuffer,
    lines_to_clear: usize,
    result_url_base: String,
}

/// What clears the given number of lines above the cursor.
pub open spec fn clearing(lines: usize) -> Seq<char> {
    if lines == 0 {
        Seq::empty()
    } else {
        "\u{1b}["@ + strings::decimal((lines as u32) as int) + "F"@ + "\u{1b}[0J"@
    }
}

impl Tracker {
    /// What is shown for each test of each commit.
    pub closed spec fn cases(&self) -> Map<Seq<char>, Map<Seq<char>, Seq<SpanView>>> {
        ui::cases_view(self.tracked_cases@)
    }

    /// The lines of static information.
    pub closed spec fn lines(&self) -> Seq<Seq<char>> {
        self.output_buf.lines()
    }

    /// The commits whose status goes to lines.
    pub closed spec fn commits(&self) -> Map<usize, Seq<char>> {
        self.output_buf.commits()
    }

    /// How many lines were painted last.
    pub closed spec fn painted(&self) -> usize {
        self.lines_to_clear
    }

    /// What addresses of results start with.
    pub closed spec fn url_base(&self) -> Seq<char> {
        self.result_url_base@
    }

    /// Nothing is there twice.
    pub closed spec fn wf(&self) -> bool {
        ui::cases_wf(self.tracked_cases) && self.output_buf.wf()
    }

    pub fn new(result_url_base: String) -> (r: Self)
        ensures
            r.wf(),
            r.cases() == Map::<Seq<char>, Map<Seq<char>, Seq<SpanView>>>::empty(),
            r.lines() == Seq::<Seq<char>>::empty(),
            r.commits() == Map::<usize, Seq<char>>::empty(),
            r.painted() == 0,
            r.url_base() == result_url_base@,
    {
        let tracker = Tracker {
            tracked_cases: Assoc::new(),
            output_buf: OutputBuffer::empty(),
            lines_to_clear: 0,
            result_url_base,
        };
        assert(tracker.cases() =~= Map::empty());
        tracker
    }

    /// Shows another range.
    pub fn set_range(&mut self, output_buf: OutputBuffer)
        requires
            old(self).wf(),
            output_buf.wf(),
        ensures
            final(self).wf(),
            final(self).lines() == output_buf.lines(),
            final(self).commits() == output_buf.commits(),
            final(self).cases() == old(self).cases(),
            final(self).painted() == old(self).painted(),
            final(self).url_base() == old(self).url_base(),
    {
        self.output_buf = output_buf;
    }

    /// Absorb a notification.
    pub fn update(&mut self, notif: &Notification)
        requires
            old(self).wf(),
        ensures
            final(self).wf(),
            final(self).cases() == ui::updated(old(self).cases(), *notif, old(self).url_base()),
            final(self).lines() == old(self).lines(),
            final(self).commits() == old(self).commits(),
            final(self).painted() == old(self).painted(),
            final(self).url_base() == old(self).url_base(),
    {
        ui::update_rendered_cases(&mut self.tracked_cases, notif, self.result_url_base.as_str());
    }

    /// What to write to replace what was painted last by the current state of
    /// affairs.
    pub fn repaint(&mut self) -> (r: String)
        requires
            old(self).wf(),
        ensures
            final(self).wf(),
            final(self).cases() == old(self).cases(),
            final(self).lines() == old(self).lines(),
            final(self).commits() == old(self).commits(),
            final(self).url_base() == old(self).url_base(),
            final(self).painted() == line_count(old(self).lines()),
            exists|text: Seq<Seq<SpanView>>, shown: Seq<Seq<Seq<char>>>|
                ui::shows(old(self).lines(), old(self).commits(), old(self).cases(), text)
                    && text::may_show_text(text, shown) && r@ == clearing(old(self).painted())
                    + #[trigger] text::ansi_text(text, shown),
    {
        let mut out: String = String::new();
        if self.lines_to_clear != 0 {
            // Move the cursor up to where the last painting began, and clear
            // everything after it.
            out.append(terminal::previous_line(self.lines_to_clear as u32).as_str());
            out.append(terminal::erase_display().as_str());
        }
        assert(out@ =~= clearing(old(self).painted()));
        let (text, count) = self.output_buf.render(&self.tracked_cases);
        self.lines_to_clear = count;
        out.append(text.as_str());
        out
    }
}

/// A link has its address before its text.
pub proof fn lemma_link(text: Seq<char>, url: Seq<char>)
    ensures
        ("\u{1b}]8;;"@ + url).is_prefix_of(link(text, url)),
        crate::job::ends_with(link(text, url), text + "\u{1b}]8;;\u{1b}\\"@),
        link(text, url).len() >= text.len() + url.len(),
{
    let s = link(text, url);
    let front = "\u{1b}]8;;"@ + url;
    let end = text + "\u{1b}]8;;\u{1b}\\"@;
    assert(s.take(front.len() as int) =~= front);
    assert(s.skip(s.len() - end.len()) =~= end);
}

/// A text has as many lines as are shown of it, and one if it says that there is
/// nothing to show.
pub proof fn lemma_line_count(
    lines: Seq<Seq<char>>,
    commits: Map<usize, Seq<char>>,
    cases: Map<Seq<char>, Map<Seq<char>, Seq<SpanView>>>,
    text: Seq<Seq<SpanView>>,
)
    requires
        ui::shows(lines, commits, cases, text),
    ensures
        line_count(lines) == text.len(),
        text.len() > 0,
{
}

/// Nothing is cleared if nothing was painted; otherwise the cursor goes up by
/// just as many lines as were painted, and what follows is erased.
pub proof fn lemma_clearing(lines: usize)
    requires
        lines <= u32::MAX,
    ensures
        lines == 0 ==> clearing(lines).len() == 0,
        lines > 0 ==> clearing(lines) == "\u{1b}["@ + strings::decimal(lines as int)
            + "F\u{1b}[0J"@,
{
    reveal_strlit("F");
    reveal_strlit("\u{1b}[0J");
    reveal_strlit("F\u{1b}[0J");
    if lines > 0 {
        assert(clearing(lines) =~= "\u{1b}["@ + strings::decimal(lines as int)
            + "F\u{1b}[0J"@);
    }
}

} // verus!

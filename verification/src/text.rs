//! A way to render styled text, either as HTML or using terminal escape codes.
use crate::strings;
use colored::Colorize;
use unicode_segmentation::UnicodeSegmentation;
use vstd::prelude::*;

verus! {

/// This is like a CSS class. For ANSI output this will produce a hard-coded
/// style. For HTML it outputs a CSS class name, some CSS is provided to
/// make use of these classes.
#[derive(Debug, Clone, Copy, PartialEq, Eq, Structural)]
pub enum Class {
    Error,
    Success,
    Failure,
    TestName,
}

/// A piece of text with one style.
#[derive(Debug, PartialEq, Eq)]
pub struct Span {
    pub class: Option<Class>,
    pub content: String,
    pub url: Option<String>,
}

impl Clone for Span {
    fn clone(&self) -> (r: Self)
        ensures
            r == *self,
    {
        let url = match &self.url {
            Some(url) => Some(url.clone()),
            None => None,
        };
        Span { class: self.class, content: self.content.clone(), url }
    }
}

/// A line of text.
#[derive(Debug, PartialEq, Eq)]
pub struct Line {
    pub spans: Vec<Span>,
}

/// Represents a block of text, potentially with styling. Note this always
/// represents a block, you can't represent a string without a newline at the
/// end.
#[derive(Debug, PartialEq, Eq)]
pub struct Text {
    pub lines: Vec<Line>,
}

/// A span, with its strings as texts.
pub struct SpanView {
    pub class: Option<Class>,
    pub content: Seq<char>,
    pub url: Option<Seq<char>>,
}

impl View for Span {
    type V = SpanView;

    open spec fn view(&self) -> SpanView {
        SpanView {
            class: self.class,
            content: self.content@,
            url: match self.url {
                Some(url) => Some(url@),
                None => None,
            },
        }
    }
}

impl View for Line {
    type V = Seq<SpanView>;

    open spec fn view(&self) -> Seq<SpanView> {
        Seq::new(self.spans@.len(), |i: int| self.spans@[i]@)
    }
}

impl View for Text {
    type V = Seq<Seq<SpanView>>;

    open spec fn view(&self) -> Seq<Seq<SpanView>> {
        Seq::new(self.lines@.len(), |i: int| self.lines@[i]@)
    }
}

/// Pieces of text, one after the other.
pub open spec fn concatenated(s: Seq<Seq<char>>) -> Seq<char>
    decreases s.len(),
{
    if s.len() == 0 {
        Seq::empty()
    } else {
        concatenated(s.drop_last()) + s.last()
    }
}

/// Lines of text, each with a line feed at its end.
pub open spec fn ended_lines(s: Seq<Seq<char>>) -> Seq<char>
    decreases s.len(),
{
    if s.len() == 0 {
        Seq::empty()
    } else {
        ended_lines(s.drop_last()) + s.last() + seq!['\n']
    }
}

/// The extended grapheme clusters of a text, as Unicode defines them.
pub uninterp spec fn graphemes(s: Seq<char>) -> Seq<Seq<char>>;

/// `UnicodeSegmentation::graphemes` (with extended clusters): its result is a
/// function of the text. The clusters are pieces of the text, none of them
/// empty, which make up the whole text one after the other.
#[verifier::external_body]
fn split_graphemes(s: &str) -> (r: Vec<String>)
    ensures
        strings::texts(r@) == graphemes(s@),
        concatenated(strings::texts(r@)) == s@,
        forall|i: int| 0 <= i < r@.len() ==> (#[trigger] r@[i])@.len() > 0,
{
    s.graphemes(true).map(|cluster| cluster.to_string()).collect()
}

/// The escape sequence that ends all styles.
pub open spec fn reset_sequence() -> Seq<char> {
    seq!['\u{1b}', '[', '0', 'm']
}

/// The escape sequence that starts a style.
pub open spec fn style_sequence(codes: Seq<char>) -> Seq<char> {
    seq!['\u{1b}', '['] + codes + seq!['m']
}

/// `s`, with a style started anew wherever the text ends all styles.
pub open spec fn restyled(s: Seq<char>, style: Seq<char>) -> Seq<char>
    decreases s.len(),
{
    if s.len() == 0 {
        s
    } else if s.len() >= 4 && s.take(4) == reset_sequence() {
        s.take(4) + style + restyled(s.skip(4), style)
    } else {
        seq![s[0]] + restyled(s.skip(1), style)
    }
}

/// A text in a style, given by its codes.
pub open spec fn styled(codes: Seq<char>, s: Seq<char>) -> Seq<char> {
    style_sequence(codes) + restyled(s, style_sequence(codes)) + reset_sequence()
}

/// `Colorize::on_red`, written out: depending on the environment (whether the
/// output is a terminal, some variables, and what the program has set) the
/// text is left as it is or gets a red background. Which of the two comes is
/// not stated. The setting must not be changed during the call.
#[verifier::external_body]
fn on_red(s: &str) -> (r: String)
    ensures
        r@ == s@ || r@ == styled("41"@, s@),
{
    s.on_red().to_string()
}

/// `Colorize::on_green`, written out: depending on the environment the text is
/// left as it is or gets a green background. Which of the two comes is not
/// stated. The setting must not be changed during the call.
#[verifier::external_body]
fn on_green(s: &str) -> (r: String)
    ensures
        r@ == s@ || r@ == styled("42"@, s@),
{
    s.on_green().to_string()
}

/// `Colorize::on_bright_red`, written out: depending on the environment the
/// text is left as it is or gets a bright red background. Which of the two
/// comes is not stated. The setting must not be changed during the call.
#[verifier::external_body]
fn on_bright_red(s: &str) -> (r: String)
    ensures
        r@ == s@ || r@ == styled("101"@, s@),
{
    s.on_bright_red().to_string()
}

/// `Colorize::bold`, written out: depending on the environment the text is
/// left as it is or becomes bold. Which of the two comes is not stated. The
/// setting must not be changed during the call.
#[verifier::external_body]
fn bold(s: &str) -> (r: String)
    ensures
        r@ == s@ || r@ == styled("1"@, s@),
{
    s.bold().to_string()
}

/// `Colorize::bold` and `ColoredString::on_blue`, written out: depending on the
/// environment the text is left as it is or becomes bold on a blue background.
/// Which of the two comes is not stated. The setting must not be changed
/// during the call.
#[verifier::external_body]
pub(crate) fn bold_on_blue(s: &str) -> (r: String)
    ensures
        r@ == s@ || r@ == styled("1;44"@, s@),
{
    s.bold().on_blue().to_string()
}

/// How a piece of text looks in a terminal.
#[derive(Debug, Clone, Copy, PartialEq, Eq, Structural)]
pub enum Style {
    OnRed,
    OnGreen,
    OnBrightRed,
    Bold,
}

impl Style {
    /// The codes of the style.
    pub open spec fn codes(self) -> Seq<char> {
        match self {
            Style::OnRed => "41"@,
            Style::OnGreen => "42"@,
            Style::OnBrightRed => "101"@,
            Style::Bold => "1"@,
        }
    }

    /// A text in this style, if the environment allows styles.
    fn paint(self, s: &str) -> (r: String)
        ensures
            r@ == s@ || r@ == styled(self.codes(), s@),
    {
        match self {
            Style::OnRed => on_red(s),
            Style::OnGreen => on_green(s),
            Style::OnBrightRed => on_bright_red(s),
            Style::Bold => bold(s),
        }
    }
}

impl Class {
    /// The style that this class has in a terminal.
    pub open spec fn terminal_style(self) -> Style {
        match self {
            Class::Failure => Style::OnRed,
            Class::Success => Style::OnGreen,
            Class::Error => Style::OnBrightRed,
            Class::TestName => Style::Bold,
        }
    }

    /// The style that this class has in a terminal.
    pub fn style(self) -> (r: Style)
        ensures
            r == self.terminal_style(),
    {
        match self {
            Class::Failure => Style::OnRed,
            Class::Success => Style::OnGreen,
            Class::Error => Style::OnBrightRed,
            Class::TestName => Style::Bold,
        }
    }
}

/// The name of a class in HTML.
pub open spec fn class_name(class: Option<Class>) -> Seq<char> {
    match class {
        None => ""@,
        Some(Class::Error) => "error"@,
        Some(Class::Success) => "success"@,
        Some(Class::Failure) => "failure"@,
        Some(Class::TestName) => "test-name"@,
    }
}

/// `shown` is the content of a span as it may be shown in a terminal: in the
/// style of its class, if it has one, or without a style.
pub open spec fn may_show(span: SpanView, shown: Seq<char>) -> bool {
    ||| shown == span.content
    ||| span.class matches Some(class) && shown == styled(
        class.terminal_style().codes(),
        span.content,
    )
}

/// A span in a terminal, given its styled content. A link is written with
/// escape sequences around it.
pub open spec fn ansi_span(span: SpanView, shown: Seq<char>) -> Seq<char> {
    match span.url {
        Some(url) => "\u{1b}]8;;"@ + url + "\u{1b}\\"@ + shown + "\u{1b}]8;;\u{1b}\\"@,
        None => shown,
    }
}

/// A line in a terminal, given the styled contents of its spans.
pub open spec fn ansi_line(line: Seq<SpanView>, shown: Seq<Seq<char>>) -> Seq<char> {
    concatenated(Seq::new(line.len(), |i: int| ansi_span(line[i], shown[i])))
}

/// A text in a terminal, given the styled contents of its spans.
pub open spec fn ansi_text(text: Seq<Seq<SpanView>>, shown: Seq<Seq<Seq<char>>>) -> Seq<char> {
    ended_lines(Seq::new(text.len(), |i: int| ansi_line(text[i], shown[i])))
}

/// `shown` holds a content for every span of a line.
pub open spec fn fits_line(line: Seq<SpanView>, shown: Seq<Seq<char>>) -> bool {
    shown.len() == line.len()
}

/// `shown` holds a content for every span of a text.
pub open spec fn fits(text: Seq<Seq<SpanView>>, shown: Seq<Seq<Seq<char>>>) -> bool {
    &&& shown.len() == text.len()
    &&& forall|i: int| 0 <= i < text.len() ==> fits_line(#[trigger] text[i], shown[i])
}

/// Every span of a line may be shown so.
pub open spec fn may_show_line(line: Seq<SpanView>, shown: Seq<Seq<char>>) -> bool {
    &&& fits_line(line, shown)
    &&& forall|i: int| 0 <= i < line.len() ==> may_show(#[trigger] line[i], shown[i])
}

/// Every span of a text may be shown so.
pub open spec fn may_show_text(text: Seq<Seq<SpanView>>, shown: Seq<Seq<Seq<char>>>) -> bool {
    &&& shown.len() == text.len()
    &&& forall|i: int| 0 <= i < text.len() ==> may_show_line(#[trigger] text[i], shown[i])
}

/// A span in HTML.
pub open spec fn html_span(span: SpanView) -> Seq<char> {
    let inner = "<span class=\""@ + class_name(span.class) + "\">"@ + span.content + "</span>"@;
    match span.url {
        Some(url) => "<a href=\""@ + url + "\">"@ + inner + "</a>"@,
        None => inner,
    }
}

/// A line in HTML.
pub open spec fn html_line(line: Seq<SpanView>) -> Seq<char> {
    concatenated(Seq::new(line.len(), |i: int| html_span(line[i])))
}

/// A text in HTML.
pub open spec fn html_text(text: Seq<Seq<SpanView>>) -> Seq<char> {
    "<pre>\n"@ + ended_lines(Seq::new(text.len(), |i: int| html_line(text[i]))) + "</pre>\n"@
}

/// Lists of strings, as texts.
pub open spec fn text_lists(v: Seq<Vec<String>>) -> Seq<Seq<Seq<char>>> {
    Seq::new(v.len(), |i: int| strings::texts(v[i]@))
}

impl Span {
    pub fn new(content: String) -> (r: Self)
        ensures
            r@ == (SpanView { class: None, content: content@, url: None }),
    {
        Span { content, class: None, url: None }
    }

    pub fn with_class(self, class: Class) -> (r: Self)
        ensures
            r@ == (SpanView { class: Some(class), ..self@ }),
    {
        Span { class: Some(class), content: self.content, url: self.url }
    }

    pub fn with_url(self, url: String) -> (r: Self)
        ensures
            r@ == (SpanView { url: Some(url@), ..self@ }),
    {
        Span { class: self.class, content: self.content, url: Some(url) }
    }

    /// The content as it is shown in a terminal.
    fn shown(&self) -> (r: String)
        ensures
            may_show(self@, r@),
    {
        match self.class {
            None => self.content.clone(),
            Some(class) => class.style().paint(self.content.as_str()),
        }
    }

    /// Appends the span as it is written to a terminal, given its styled
    /// content.
    fn push_ansi(&self, shown: &str, out: &mut String)
        ensures
            final(out)@ == old(out)@ + ansi_span(self@, shown@),
    {
        match &self.url {
            Some(url) => {
                // Renders a hyperlink like in
                // https://gist.github.com/egmontkob/eb114294efbcd5adb1944c9f3cb5feda.
                out.append("\u{1b}]8;;");
                out.append(url.as_str());
                out.append("\u{1b}\\");
                out.append(shown);
                out.append("\u{1b}]8;;\u{1b}\\");
                assert(out@ =~= old(out)@ + ansi_span(self@, shown@));
            },
            None => {
                out.append(shown);
            },
        }
    }

    /// Appends the span as HTML.
    fn push_html(&self, out: &mut String)
        ensures
            final(out)@ == old(out)@ + html_span(self@),
    {
        if let Some(url) = &self.url {
            out.append("<a href=\"");
            out.append(url.as_str());
            out.append("\">");
        }
        out.append("<span class=\"");
        out.append(
            match self.class {
                None => "",
                Some(Class::Error) => "error",
                Some(Class::Success) => "success",
                Some(Class::Failure) => "failure",
                Some(Class::TestName) => "test-name",
            },
        );
        out.append("\">");
        out.append(self.content.as_str());
        out.append("</span>");
        if self.url.is_some() {
            out.append("</a>");
        }
        assert(out@ =~= old(out)@ + html_span(self@));
    }
}

impl Line {
    /// Appends the line as it is written to a terminal, given the styled
    /// contents of its spans.
    fn push_ansi(&self, shown: &Vec<String>, out: &mut String)
        requires
            shown@.len() == self@.len(),
        ensures
            final(out)@ == old(out)@ + ansi_line(self@, strings::texts(shown@)),
    {
        let ghost parts = Seq::new(
            self@.len(),
            |i: int| ansi_span(self@[i], strings::texts(shown@)[i]),
        );
        let mut i: usize = 0;
        assert(parts.take(0) =~= Seq::empty());
        assert(out@ + concatenated(Seq::empty()) =~= out@);
        while i < self.spans.len()
            invariant
                i <= self.spans@.len(),
                shown@.len() == self@.len(),
                parts == Seq::new(
                    self@.len(),
                    |i: int| ansi_span(self@[i], strings::texts(shown@)[i]),
                ),
                out@ == old(out)@ + concatenated(parts.take(i as int)),
            decreases self.spans@.len() - i,
        {
            assert(parts.take(i + 1).drop_last() =~= parts.take(i as int));
            assert(parts.take(i + 1).last() == parts[i as int]);
            self.spans[i].push_ansi(shown[i].as_str(), out);
            assert(out@ =~= old(out)@ + concatenated(parts.take(i + 1)));
            i += 1;
        }
        assert(parts.take(i as int) =~= parts);
    }

    /// Appends the line as HTML.
    fn push_html(&self, out: &mut String)
        ensures
            final(out)@ == old(out)@ + html_line(self@),
    {
        let ghost parts = Seq::new(self@.len(), |i: int| html_span(self@[i]));
        let mut i: usize = 0;
        assert(parts.take(0) =~= Seq::empty());
        assert(out@ + concatenated(Seq::empty()) =~= out@);
        while i < self.spans.len()
            invariant
                i <= self.spans@.len(),
                parts == Seq::new(self@.len(), |i: int| html_span(self@[i])),
                out@ == old(out)@ + concatenated(parts.take(i as int)),
            decreases self.spans@.len() - i,
        {
            assert(parts.take(i + 1).drop_last() =~= parts.take(i as int));
            assert(parts.take(i + 1).last() == parts[i as int]);
            self.spans[i].push_html(out);
            assert(out@ =~= old(out)@ + concatenated(parts.take(i + 1)));
            i += 1;
        }
        assert(parts.take(i as int) =~= parts);
    }

    /// The contents of the spans as they are shown in a terminal.
    fn shown(&self) -> (r: Vec<String>)
        ensures
            may_show_line(self@, strings::texts(r@)),
    {
        let mut out: Vec<String> = Vec::new();
        let mut i: usize = 0;
        while i < self.spans.len()
            invariant
                i <= self.spans@.len(),
                out@.len() == i,
                forall|k: int| 0 <= k < i ==> may_show(#[trigger] self@[k], out@[k]@),
            decreases self.spans@.len() - i,
        {
            out.push(self.spans[i].shown());
            i += 1;
        }
        out
    }

    /// A line with a single span.
    pub fn from_span(span: Span) -> (r: Self)
        ensures
            r@ == seq![span@],
    {
        let mut spans: Vec<Span> = Vec::new();
        spans.push(span);
        let line = Line { spans };
        assert(line@ =~= seq![span@]);
        line
    }
}

/// A text, being rendered with style applied using ANSI commands.
#[derive(Debug)]
pub struct RenderAnsi<'a> {
    text: &'a Text,
}

/// A text, being rendered to an HTML `<pre>` element.
#[derive(Debug)]
pub struct RenderHtmlPre<'a> {
    text: &'a Text,
}

impl Text {
    /// A text with a single line.
    pub fn from_line(line: Line) -> (r: Self)
        ensures
            r@ == seq![line@],
    {
        let mut lines: Vec<Line> = Vec::new();
        lines.push(line);
        let text = Text { lines };
        assert(text@ =~= seq![line@]);
        text
    }

    /// Render the text with style applied using ANSI commands. Use `to_string`
    /// on the returned value to write it out.
    pub fn ansi(&self) -> (r: RenderAnsi<'_>)
        ensures
            r.source() == self@,
    {
        RenderAnsi { text: self }
    }

    /// Render to an HTML `<pre>` element.
    pub fn html_pre(&self) -> (r: RenderHtmlPre<'_>)
        ensures
            r.source() == self@,
    {
        RenderHtmlPre { text: self }
    }

    pub fn into_lines(self) -> (r: Vec<Line>)
        ensures
            r@ == self.lines@,
    {
        self.lines
    }
}

impl<'a> RenderAnsi<'a> {
    /// The text to be rendered.
    pub closed spec fn source(&self) -> Seq<Seq<SpanView>> {
        self.text@
    }

    /// The text as it is written to a terminal, given the styled contents of
    /// its spans.
    pub fn with_contents(&self, shown: &Vec<Vec<String>>) -> (r: String)
        requires
            fits(self.source(), text_lists(shown@)),
        ensures
            r@ == ansi_text(self.source(), text_lists(shown@)),
    {
        let ghost text = self.source();
        let ghost all = text_lists(shown@);
        let ghost parts = Seq::new(text.len(), |i: int| ansi_line(text[i], all[i]));
        let mut out: String = String::new();
        let mut i: usize = 0;
        assert(parts.take(0) =~= Seq::empty());
        while i < self.text.lines.len()
            invariant
                i <= self.text.lines@.len(),
                text == self.text@,
                all == text_lists(shown@),
                fits(text, all),
                parts == Seq::new(text.len(), |i: int| ansi_line(text[i], all[i])),
                out@ == ended_lines(parts.take(i as int)),
            decreases self.text.lines@.len() - i,
        {
            assert(parts.take(i + 1).drop_last() =~= parts.take(i as int));
            assert(parts.take(i + 1).last() == parts[i as int]);
            assert(fits_line(text[i as int], all[i as int]));
            self.text.lines[i].push_ansi(&shown[i], &mut out);
            out.push('\n');
            assert(out@ =~= ended_lines(parts.take(i + 1)));
            i += 1;
        }
        assert(parts.take(i as int) =~= parts);
        out
    }

    /// The text as it is written to a terminal. Whether styles are applied
    /// depends on the environment.
    pub fn to_string(&self) -> (r: String)
        ensures
            exists|shown: Seq<Seq<Seq<char>>>|
                may_show_text(self.source(), shown) && r@ == #[trigger] ansi_text(
                    self.source(),
                    shown,
                ),
    {
        let ghost text = self.source();
        let mut shown: Vec<Vec<String>> = Vec::new();
        let mut i: usize = 0;
        while i < self.text.lines.len()
            invariant
                i <= self.text.lines@.len(),
                text == self.text@,
                shown@.len() == i,
                forall|k: int|
                    0 <= k < i ==> may_show_line(#[trigger] text[k], strings::texts(shown@[k]@)),
            decreases self.text.lines@.len() - i,
        {
            let line = self.text.lines[i].shown();
            assert(may_show_line(text[i as int], strings::texts(line@)));
            shown.push(line);
            i += 1;
        }
        assert(may_show_text(text, text_lists(shown@)));
        self.with_contents(&shown)
    }
}

impl<'a> RenderHtmlPre<'a> {
    /// The text to be rendered.
    pub closed spec fn source(&self) -> Seq<Seq<SpanView>> {
        self.text@
    }

    /// The text as HTML.
    pub fn to_string(&self) -> (r: String)
        ensures
            r@ == html_text(self.source()),
    {
        let ghost text = self.source();
        let ghost parts = Seq::new(text.len(), |i: int| html_line(text[i]));
        let mut out: String = String::from_str("<pre>\n");
        let mut i: usize = 0;
        assert(parts.take(0) =~= Seq::empty());
        assert(out@ =~= "<pre>\n"@ + ended_lines(parts.take(0)));
        while i < self.text.lines.len()
            invariant
                i <= self.text.lines@.len(),
                text == self.text@,
                parts == Seq::new(text.len(), |i: int| html_line(text[i])),
                out@ == "<pre>\n"@ + ended_lines(parts.take(i as int)),
            decreases self.text.lines@.len() - i,
        {
            assert(parts.take(i + 1).drop_last() =~= parts.take(i as int));
            assert(parts.take(i + 1).last() == parts[i as int]);
            self.text.lines[i].push_html(&mut out);
            out.push('\n');
            assert(out@ =~= "<pre>\n"@ + ended_lines(parts.take(i + 1)));
            i += 1;
        }
        assert(parts.take(i as int) =~= parts);
        out.append("</pre>\n");
        out
    }
}

/// A text cut after the given number of grapheme clusters.
pub open spec fn cut(s: Seq<char>, length: nat) -> Seq<char> {
    if graphemes(s).len() <= length {
        s
    } else {
        concatenated(graphemes(s).take(length as int))
    }
}

/// A line cut after the given number of grapheme clusters: what does not fit is
/// gone.
pub open spec fn cut_line(line: Seq<SpanView>, length: nat) -> Seq<SpanView>
    decreases line.len(),
{
    if line.len() == 0 {
        line
    } else {
        let first = line.first();
        let n = graphemes(first.content).len();
        if n >= length {
            seq![SpanView { content: cut(first.content, length), ..first }]
        } else {
            seq![first] + cut_line(line.drop_first(), (length - n) as nat)
        }
    }
}

/// The content of a line, disregarding styling.
pub open spec fn line_content(line: Seq<SpanView>) -> Seq<char> {
    concatenated(Seq::new(line.len(), |i: int| line[i].content))
}

/// The number of grapheme clusters in a line, counted span by span.
pub open spec fn line_graphemes(line: Seq<SpanView>) -> nat
    decreases line.len(),
{
    if line.len() == 0 {
        0
    } else {
        graphemes(line.first().content).len() + line_graphemes(line.drop_first())
    }
}

/// How many clusters of a line are kept when it is cut, counted span by span
/// in the line as it was.
pub open spec fn kept_graphemes(line: Seq<SpanView>, length: nat) -> nat
    decreases line.len(),
{
    if line.len() == 0 {
        0
    } else {
        let n = graphemes(line.first().content).len();
        if n >= length {
            length
        } else {
            n + kept_graphemes(line.drop_first(), (length - n) as nat)
        }
    }
}

/// A line keeps the given number of clusters, or all of them if it has no
/// more; then nothing about it changes.
pub proof fn lemma_cut_line_length(line: Seq<SpanView>, length: nat)
    ensures
        kept_graphemes(line, length) == (if line_graphemes(line) < length {
            line_graphemes(line)
        } else {
            length
        }),
        line_graphemes(line) < length ==> cut_line(line, length) == line,
    decreases line.len(),
{
    if line.len() > 0 {
        let n = graphemes(line.first().content).len();
        if n < length {
            lemma_cut_line_length(line.drop_first(), (length - n) as nat);
            assert(seq![line.first()] + line.drop_first() =~= line);
        }
    }
}

proof fn lemma_concatenated_front(s: Seq<Seq<char>>)
    requires
        s.len() > 0,
    ensures
        concatenated(s) == s.first() + concatenated(s.drop_first()),
    decreases s.len(),
{
    if s.len() == 1 {
        assert(s.drop_last() =~= Seq::empty());
        assert(s.drop_first() =~= Seq::empty());
        assert(concatenated(s) =~= s.first() + concatenated(s.drop_first()));
    } else {
        lemma_concatenated_front(s.drop_last());
        assert(s.drop_last().drop_first() =~= s.drop_first().drop_last());
        assert(concatenated(s) =~= s.first() + concatenated(s.drop_first()));
    }
}

proof fn lemma_concatenated_prefix(s: Seq<Seq<char>>, n: int)
    requires
        0 <= n <= s.len(),
    ensures
        concatenated(s.take(n)).is_prefix_of(concatenated(s)),
    decreases s.len(),
{
    if n < s.len() {
        lemma_concatenated_prefix(s.drop_last(), n);
        assert(s.drop_last().take(n) =~= s.take(n));
    } else {
        assert(s.take(n) =~= s);
    }
}

proof fn lemma_content_push(line: Seq<SpanView>, span: SpanView)
    ensures
        line_content(line.push(span)) == line_content(line) + span.content,
{
    let contents = Seq::new(line.len(), |i: int| line[i].content);
    let longer = Seq::new(line.len() + 1, |i: int| line.push(span)[i].content);
    assert(longer.drop_last() =~= contents);
    assert(longer.last() == span.content);
}

proof fn lemma_content_front(line: Seq<SpanView>)
    requires
        line.len() > 0,
    ensures
        line_content(line) == line.first().content + line_content(line.drop_first()),
{
    let contents = Seq::new(line.len(), |i: int| line[i].content);
    let rest = line.drop_first();
    lemma_concatenated_front(contents);
    assert(contents.drop_first() =~= Seq::new(rest.len(), |i: int| rest[i].content));
}

impl Span {
    /// The number of grapheme clusters.
    fn num_graphemes(&self) -> (r: usize)
        ensures
            r == graphemes(self@.content).len(),
    {
        let clusters = split_graphemes(self.content.as_str());
        clusters.len()
    }

    /// Keep at most the given number of grapheme clusters.
    fn truncate_graphemes(self, length: usize) -> (r: Self)
        ensures
            r@ == (SpanView { content: cut(self@.content, length as nat), ..self@ }),
            r@.content.is_prefix_of(self@.content),
    {
        let clusters = split_graphemes(self.content.as_str());
        if clusters.len() <= length {
            return self;
        }
        let ghost all = strings::texts(clusters@);
        let mut content: String = String::new();
        let mut i: usize = 0;
        assert(all.take(0) =~= Seq::empty());
        while i < length
            invariant
                i <= length < clusters@.len(),
                all == strings::texts(clusters@),
                content@ == concatenated(all.take(i as int)),
            decreases length - i,
        {
            assert(all.take(i + 1).drop_last() =~= all.take(i as int));
            content.append(clusters[i].as_str());
            i += 1;
        }
        proof {
            lemma_concatenated_prefix(all, length as int);
        }
        Span { class: self.class, content, url: self.url }
    }
}

impl Line {
    /// Truncate to the given number of unicode grapheme clusters, disregarding styling.
    pub fn truncate_graphemes(self, length: usize) -> (r: Self)
        ensures
            r@ == cut_line(self@, length as nat),
            line_content(r@).is_prefix_of(line_content(self@)),
    {
        let ghost line = self@;
        let mut spans = self.spans;
        let mut out: Vec<Span> = Vec::new();
        let mut remaining: usize = length;
        let ghost mut done: int = 0;
        assert(Seq::<SpanView>::empty() + cut_line(line.skip(0), length as nat) =~= cut_line(
            line,
            length as nat,
        )) by {
            assert(line.skip(0) =~= line);
        }
        assert(line_content((Line { spans: out })@) + line_content(line.skip(0)) =~= line_content(
            line,
        )) by {
            assert(line.skip(0) =~= line);
        }
        while spans.len() > 0
            invariant
                line == self@,
                0 <= done <= line.len(),
                line_content((Line { spans: out })@) + line_content(line.skip(done))
                    == line_content(line),
                (Line { spans })@ =~= line.skip(done),
                (Line { spans: out })@ + cut_line(line.skip(done), remaining as nat) == cut_line(
                    line,
                    length as nat,
                ),
            decreases spans@.len(),
        {
            let span = spans.remove(0);
            let ghost before = (Line { spans: out })@;
            let ghost rest = line.skip(done);
            assert(span@ == rest.first());
            assert(rest.drop_first() =~= line.skip(done + 1));
            proof {
                lemma_content_front(rest);
            }
            let n: usize = span.num_graphemes();
            if n >= remaining {
                let last = span.truncate_graphemes(remaining);
                out.push(last);
                assert((Line { spans: out })@ =~= before.push(last@));
                assert(before.push(last@) =~= before + cut_line(rest, remaining as nat));
                proof {
                    lemma_content_push(before, last@);
                }
                return Line { spans: out };
            }
            out.push(span);
            assert((Line { spans: out })@ =~= before.push(span@));
            remaining = remaining - n;
            proof {
                done = done + 1;
                lemma_content_push(before, span@);
                assert((line_content(before) + span@.content) + line_content(line.skip(done))
                    =~= line_content(before) + (span@.content + line_content(line.skip(done))));
                assert(before.push(span@) + cut_line(line.skip(done), remaining as nat) =~= before
                    + cut_line(rest, (remaining + n) as nat));
            }
        }
        assert((Line { spans: out })@ + cut_line(line.skip(done), remaining as nat) =~= (Line {
            spans: out,
        })@);
        assert(line_content(line.skip(done)) =~= Seq::empty());
        Line { spans: out }
    }
}

/// Styles for the classes of rendered HTML.
pub const CSS: &'static str =
    ".error {\n    background-color: orange;\n}\n\n.failure {\n    background-color: red;\n}\n\n.success {\n    background-color: green;\n}\n\n.test-name {\n    font-weight: bold;\n}\n";

/// Pieces of text are put one after the other, none of them left out.
pub proof fn lemma_concatenated(a: Seq<Seq<char>>, b: Seq<Seq<char>>, s: Seq<char>)
    ensures
        concatenated(a + b) == concatenated(a) + concatenated(b),
        concatenated(seq![s]) == s,
    decreases b.len(),
{
    reveal_with_fuel(concatenated, 2);
    assert(seq![s].drop_last() =~= Seq::empty());
    assert(concatenated(seq![s]) =~= s);
    if b.len() == 0 {
        assert(a + b =~= a);
        assert(concatenated(a) + concatenated(b) =~= concatenated(a));
    } else {
        assert((a + b).drop_last() =~= a + b.drop_last());
        lemma_concatenated(a, b.drop_last(), s);
        assert(concatenated(a + b) =~= concatenated(a) + concatenated(b));
    }
}

/// Each piece is a part of the text that they make.
pub proof fn lemma_has_piece(s: Seq<Seq<char>>, i: int)
    requires
        0 <= i < s.len(),
    ensures
        strings::has_part(concatenated(s), s[i]),
{
    let front = s.take(i);
    let rest = s.skip(i + 1);
    assert(s =~= front + (seq![s[i]] + rest));
    lemma_concatenated(front, seq![s[i]] + rest, s[i]);
    lemma_concatenated(seq![s[i]], rest, s[i]);
    let n = concatenated(front).len() as int;
    assert(concatenated(s).subrange(n, n + s[i].len()) =~= s[i]);
}

/// Each line is a part of the text that they make.
pub proof fn lemma_has_line(s: Seq<Seq<char>>, i: int)
    requires
        0 <= i < s.len(),
    ensures
        strings::has_part(ended_lines(s), s[i].push('\n')),
    decreases s.len(),
{
    let rest = s.drop_last();
    let all = ended_lines(s);
    let line = s[i].push('\n');
    let n = if i < rest.len() {
        lemma_has_line(rest, i);
        let part = ended_lines(rest);
        choose|k: int|
            0 <= k <= part.len() - line.len() && #[trigger] part.subrange(k, k + line.len()) == line
    } else {
        ended_lines(rest).len() as int
    };
    if i < rest.len() {
        assert(all.subrange(n, n + line.len()) =~= ended_lines(rest).subrange(n, n + line.len()));
    } else {
        assert(all.subrange(n, n + line.len()) =~= line);
    }
}

/// A cut keeps a text from its start on, and all of it if it is no longer than
/// it may be; otherwise just as many clusters as it may have.
pub proof fn lemma_cut(s: Seq<char>, length: nat)
    requires
        concatenated(graphemes(s)) == s,
    ensures
        cut(s, length).is_prefix_of(s),
        graphemes(s).len() <= length ==> cut(s, length) == s,
        graphemes(s).len() > length ==> cut(s, length) + concatenated(
            graphemes(s).skip(length as int),
        ) == s,
        length == 0 && graphemes(s).len() > 0 ==> cut(s, length).len() == 0,
{
    if graphemes(s).len() > length {
        let g = graphemes(s);
        lemma_concatenated(g.take(length as int), g.skip(length as int), s);
        assert(g.take(length as int) + g.skip(length as int) =~= g);
        if length == 0 {
            assert(g.take(0) =~= Seq::empty());
        }
    }
}

/// Of a line that is cut the first spans stay as they are. Only the last of
/// those that are left may be shorter than it was; it keeps its class and its
/// link.
pub proof fn lemma_cut_line_spans(line: Seq<SpanView>, length: nat)
    ensures
        ({
            let left = cut_line(line, length);
            &&& left.len() <= line.len()
            &&& line.len() > 0 ==> left.len() > 0
            &&& forall|i: int| 0 <= i < left.len() - 1 ==> #[trigger] left[i] == line[i]
            &&& left.len() > 0 ==> {
                let last: int = left.len() - 1;
                &&& left[last].class == line[last].class
                &&& left[last].url == line[last].url
                &&& line_graphemes(line.take(last)) <= length
                &&& left[last].content == cut(
                    line[last].content,
                    (length - line_graphemes(line.take(last))) as nat,
                )
            }
            &&& left.len() < line.len() ==> line_graphemes(line.take(left.len() as int)) >= length
        }),
    decreases line.len(),
{
    let left = cut_line(line, length);
    if line.len() > 0 {
        let first = line.first();
        let n = graphemes(first.content).len();
        if n >= length {
            assert(line.take(0) =~= Seq::empty());
            lemma_line_graphemes_front(line, 1);
            assert(line.drop_first().take(0) =~= Seq::empty());
        } else {
            let rest = line.drop_first();
            let more = (length - n) as nat;
            lemma_cut_line_spans(rest, more);
            let tail = cut_line(rest, more);
            if tail.len() == 0 {
                assert(rest.len() == 0);
                assert(line.take(0) =~= Seq::empty());
                assert(left[0] == first);
                assert(cut(first.content, length) == first.content);
            } else {
                let last: int = left.len() - 1;
                lemma_line_graphemes_front(line, last);
                lemma_line_graphemes_front(line, last + 1);
                assert(left[last] == tail[last - 1]);
                assert(line[last] == rest[last - 1]);
                assert forall|i: int| 0 <= i < left.len() - 1 implies #[trigger] left[i]
                    == line[i] by {
                    if i > 0 {
                        assert(left[i] == tail[i - 1]);
                        assert(line[i] == rest[i - 1]);
                    }
                }
            }
        }
    }
}

/// The clusters of the first spans of a line.
proof fn lemma_line_graphemes_front(line: Seq<SpanView>, k: int)
    requires
        0 < k <= line.len(),
    ensures
        line_graphemes(line.take(k)) == graphemes(line.first().content).len() + line_graphemes(
            line.drop_first().take(k - 1),
        ),
{
    assert(line.take(k).first() == line.first());
    assert(line.take(k).drop_first() =~= line.drop_first().take(k - 1));
}

/// Text in a style starts with the code of the style and ends with the code
/// that ends all styles. In between it stays as it is if it ends no styles
/// itself.
pub proof fn lemma_styled(codes: Seq<char>, s: Seq<char>)
    requires
        !strings::has_part(s, reset_sequence()),
    ensures
        styled(codes, s) == seq!['\u{1b}', '['] + codes + seq!['m'] + s + seq![
            '\u{1b}',
            '[',
            '0',
            'm',
        ],
{
    lemma_not_restyled(s, style_sequence(codes));
    assert(styled(codes, s) =~= seq!['\u{1b}', '['] + codes + seq!['m'] + s + seq![
        '\u{1b}',
        '[',
        '0',
        'm',
    ]);
}

/// Where nothing ends a style, none is started anew.
proof fn lemma_not_restyled(s: Seq<char>, style: Seq<char>)
    requires
        !strings::has_part(s, reset_sequence()),
    ensures
        restyled(s, style) == s,
    decreases s.len(),
{
    if s.len() > 0 {
        let reset = reset_sequence();
        if s.len() >= 4 && s.take(4) == reset {
            assert(s.subrange(0, 0int + reset.len()) =~= s.take(4));
        }
        let rest = s.skip(1);
        assert(!strings::has_part(rest, reset)) by {
            if strings::has_part(rest, reset) {
                let i = choose|i: int|
                    0 <= i <= rest.len() - reset.len() && #[trigger] rest.subrange(
                        i,
                        i + reset.len(),
                    ) == reset;
                assert(s.subrange(i + 1, i + 1 + reset.len()) =~= rest.subrange(
                    i,
                    i + reset.len(),
                ));
            }
        }
        lemma_not_restyled(rest, style);
        assert(restyled(s, style) =~= s);
    }
}

/// Where a text ends all styles, its own style is started anew, and there only.
pub proof fn lemma_restyled(front: Seq<char>, rest: Seq<char>, style: Seq<char>)
    requires
        !strings::has_part(front, reset_sequence()),
    ensures
        restyled(front + reset_sequence() + rest, style) == front + reset_sequence() + style
            + restyled(rest, style),
    decreases front.len(),
{
    let reset = reset_sequence();
    let s = front + reset + rest;
    if front.len() == 0 {
        assert(s.take(4) =~= reset);
        assert(s.skip(4) =~= rest);
        assert(restyled(s, style) =~= front + reset + style + restyled(rest, style));
    } else {
        if s.take(4) == reset {
            assert(s[front.len() as int] == '\u{1b}');
            if front.len() < 4 {
                assert(s.take(4)[front.len() as int] == reset[front.len() as int]);
            } else {
                assert(front.subrange(0, 0int + reset.len()) =~= s.take(4));
            }
        }
        let next = front.skip(1);
        assert(!strings::has_part(next, reset)) by {
            if strings::has_part(next, reset) {
                let i = choose|i: int|
                    0 <= i <= next.len() - reset.len() && #[trigger] next.subrange(
                        i,
                        i + reset.len(),
                    ) == reset;
                assert(front.subrange(i + 1, i + 1 + reset.len()) =~= next.subrange(
                    i,
                    i + reset.len(),
                ));
            }
        }
        lemma_restyled(next, rest, style);
        assert(s.skip(1) =~= next + reset + rest);
        assert(restyled(s, style) =~= front + reset + style + restyled(rest, style));
    }
}

/// No two classes look the same, neither in a terminal nor on the web page: a
/// success is green, a failure red, an error bright red and the name of a test
/// bold.
pub proof fn lemma_classes_look_different(a: Class, b: Class)
    requires
        a != b,
    ensures
        a.terminal_style().codes() != b.terminal_style().codes(),
        class_name(Some(a)) != class_name(Some(b)),
        class_name(Some(a)) != class_name(None),
        a is Success ==> a.terminal_style() == Style::OnGreen && a.terminal_style().codes() == "42"@
            && class_name(Some(a)) == "success"@,
        a is Failure ==> a.terminal_style() == Style::OnRed && a.terminal_style().codes() == "41"@
            && class_name(Some(a)) == "failure"@,
        a is Error ==> a.terminal_style() == Style::OnBrightRed && a.terminal_style().codes()
            == "101"@ && class_name(Some(a)) == "error"@,
        a is TestName ==> a.terminal_style() == Style::Bold && a.terminal_style().codes() == "1"@
            && class_name(Some(a)) == "test-name"@,
{
    reveal_strlit("41");
    reveal_strlit("42");
    reveal_strlit("101");
    reveal_strlit("1");
    reveal_strlit("");
    reveal_strlit("error");
    reveal_strlit("success");
    reveal_strlit("failure");
    reveal_strlit("test-name");
    let x = a.terminal_style().codes();
    let y = b.terminal_style().codes();
    if x == y {
        assert(x.len() == y.len() && x[0] == y[0] && x.last() == y.last());
    }
    let p = class_name(Some(a));
    let q = class_name(Some(b));
    if p == q {
        assert(p.len() == q.len() && p[0] == q[0]);
    }
    assert(class_name(None).len() == 0);
}

/// A span is shown in a terminal with its content, in a link to its address if
/// it has one.
pub proof fn lemma_terminal_shows_span(span: SpanView, shown: Seq<char>)
    ensures
        strings::has_part(ansi_span(span, shown), shown),
        span.url is None ==> ansi_span(span, shown) == shown,
        span.url matches Some(url) ==> crate::status::link(shown, url) == ansi_span(span, shown),
        may_show(span, shown) && span.class is None ==> shown == span.content,
        may_show(span, span.content),
{
    match span.url {
        Some(url) => {
            let front = "\u{1b}]8;;"@ + url + "\u{1b}\\"@;
            let all = ansi_span(span, shown);
            let n = front.len() as int;
            assert(all.subrange(n, n + shown.len()) =~= shown);
        },
        None => {
            assert(shown.subrange(0, 0int + shown.len()) =~= shown);
        },
    }
}

/// Every span of a line is shown in a terminal, and every line of a text.
pub proof fn lemma_terminal_shows_text(
    text: Seq<Seq<SpanView>>,
    shown: Seq<Seq<Seq<char>>>,
    i: int,
    j: int,
)
    requires
        0 <= i < text.len(),
        0 <= j < text[i].len(),
    ensures
        strings::has_part(ansi_text(text, shown), ansi_line(text[i], shown[i]).push('\n')),
        strings::has_part(ansi_line(text[i], shown[i]), ansi_span(text[i][j], shown[i][j])),
{
    let lines = Seq::new(text.len(), |k: int| ansi_line(text[k], shown[k]));
    lemma_has_line(lines, i);
    let line = text[i];
    let spans = Seq::new(line.len(), |k: int| ansi_span(line[k], shown[i][k]));
    assert(ansi_line(line, shown[i]) == concatenated(spans));
    lemma_has_piece(spans, j);
}

/// On the web page a span has its content, the name of its class, and a link to
/// its address if it has one.
pub proof fn lemma_page_shows_span(span: SpanView)
    ensures
        strings::has_part(
            html_span(span),
            "<span class=\""@ + class_name(span.class) + "\">"@ + span.content + "</span>"@,
        ),
        span.url matches Some(url) ==> ("<a href=\""@ + url + "\">"@).is_prefix_of(html_span(span)),
{
    let inner = "<span class=\""@ + class_name(span.class) + "\">"@ + span.content + "</span>"@;
    let all = html_span(span);
    match span.url {
        Some(url) => {
            let front = "<a href=\""@ + url + "\">"@;
            let n = front.len() as int;
            assert(all.subrange(n, n + inner.len()) =~= inner);
            assert(front =~= all.take(n));
        },
        None => {
            assert(all.subrange(0, 0int + inner.len()) =~= inner);
        },
    }
}

/// Every span of a line is on the web page, and every line of a text.
pub proof fn lemma_page_shows_text(text: Seq<Seq<SpanView>>, i: int, j: int)
    requires
        0 <= i < text.len(),
        0 <= j < text[i].len(),
    ensures
        strings::has_part(html_text(text), html_line(text[i]).push('\n')),
        strings::has_part(html_line(text[i]), html_span(text[i][j])),
{
    let lines = Seq::new(text.len(), |k: int| html_line(text[k]));
    lemma_has_line(lines, i);
    let body = ended_lines(lines);
    let part = html_line(text[i]).push('\n');
    let k = choose|k: int|
        0 <= k <= body.len() - part.len() && #[trigger] body.subrange(k, k + part.len()) == part;
    let n = "<pre>\n"@.len() as int;
    assert(html_text(text).subrange(n + k, n + k + part.len()) =~= body.subrange(
        k,
        k + part.len(),
    ));
    let line = text[i];
    let spans = Seq::new(line.len(), |m: int| html_span(line[m]));
    assert(html_line(line) == concatenated(spans));
    lemma_has_piece(spans, j);
}

/// What a text says is what its spans hold.
pub proof fn lemma_text_as_it_is(text: Text, i: int, j: int)
    requires
        0 <= i < text.lines@.len(),
        0 <= j < text.lines@[i].spans@.len(),
    ensures
        text@.len() == text.lines@.len(),
        text@[i].len() == text.lines@[i].spans@.len(),
        text@[i][j].content == text.lines@[i].spans@[j].content@,
        text@[i][j].class == text.lines@[i].spans@[j].class,
        text@[i][j].url is Some <==> text.lines@[i].spans@[j].url is Some,
        text.lines@[i].spans@[j].url matches Some(url) ==> text@[i][j].url == Some(url@),
{
}

/// A span is shown as it is or in the style of its own class: a success on
/// green, a failure on red, an error on bright red and the name of a test in
/// bold.
pub proof fn lemma_shown_in_own_style(span: SpanView, shown: Seq<char>)
    ensures
        may_show(span, shown) <==> shown == span.content || match span.class {
            None => false,
            Some(Class::Success) => shown == styled("42"@, span.content),
            Some(Class::Failure) => shown == styled("41"@, span.content),
            Some(Class::Error) => shown == styled("101"@, span.content),
            Some(Class::TestName) => shown == styled("1"@, span.content),
        },
{
}

} // verus!

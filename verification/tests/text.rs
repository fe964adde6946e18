use limmat::text::{Class, Line, Span, Style, Text, CSS};

fn span(content: &str) -> Span {
    Span::new(content.to_owned())
}

fn text(lines: Vec<Vec<Span>>) -> Text {
    Text {
        lines: lines.into_iter().map(|spans| Line { spans }).collect(),
    }
}

fn contents(line: &Line) -> Vec<&str> {
    line.spans.iter().map(|s| s.content.as_str()).collect()
}

fn sample() -> Text {
    text(vec![
        vec![
            span("plain "),
            span("bold").with_class(Class::TestName),
            span(" bad").with_class(Class::Failure),
        ],
        vec![
            span("good").with_class(Class::Success),
            span("oops")
                .with_class(Class::Error)
                .with_url("http://x".to_owned()),
        ],
    ])
}

// The setting for styles is that of the whole process, so all that depends on it
// is in one test.
#[test]
fn styles_become_escape_sequences_or_are_left_out() {
    colored::control::set_override(true);
    assert_eq!(
        sample().ansi().to_string(),
        "plain \u{1b}[1mbold\u{1b}[0m\u{1b}[41m bad\u{1b}[0m\n\
         \u{1b}[42mgood\u{1b}[0m\u{1b}]8;;http://x\u{1b}\\\u{1b}[101moops\u{1b}[0m\u{1b}]8;;\u{1b}\\\n"
    );
    // Styles inside styles are restored.
    let t = text(vec![vec![
        span("a\u{1b}[0mb").with_class(Class::Failure)
    ]]);
    assert_eq!(
        t.ansi().to_string(),
        "\u{1b}[41ma\u{1b}[0m\u{1b}[41mb\u{1b}[0m\n"
    );
    colored::control::set_override(false);
    assert_eq!(
        sample().ansi().to_string(),
        "plain bold bad\ngood\u{1b}]8;;http://x\u{1b}\\oops\u{1b}]8;;\u{1b}\\\n"
    );
}

#[test]
fn each_class_has_a_style() {
    assert_eq!(Class::Failure.style(), Style::OnRed);
    assert_eq!(Class::Success.style(), Style::OnGreen);
    assert_eq!(Class::Error.style(), Style::OnBrightRed);
    assert_eq!(Class::TestName.style(), Style::Bold);
}

#[test]
fn contents_can_be_given_as_they_are_shown() {
    let t = text(vec![vec![span("x").with_url("u".to_owned()), span("y")]]);
    assert_eq!(
        t.ansi()
            .with_contents(&vec![vec!["X".to_owned(), "Y".to_owned()]]),
        "\u{1b}]8;;u\u{1b}\\X\u{1b}]8;;\u{1b}\\Y\n"
    );
}

#[test]
fn classes_become_html() {
    assert_eq!(
        sample().html_pre().to_string(),
        "<pre>\n\
         <span class=\"\">plain </span><span class=\"test-name\">bold</span><span class=\"failure\"> bad</span>\n\
         <span class=\"success\">good</span><a href=\"http://x\"><span class=\"error\">oops</span></a>\n\
         </pre>\n"
    );
    for class in [".error {", ".failure {", ".success {", ".test-name {"] {
        assert!(CSS.contains(class));
    }
}

#[test]
fn lines_are_truncated_to_graphemes() {
    let line = || Line {
        spans: vec![span("abc"), span("de"), span("f")],
    };
    assert_eq!(contents(&line().truncate_graphemes(10)), ["abc", "de", "f"]);
    assert_eq!(contents(&line().truncate_graphemes(6)), ["abc", "de", "f"]);
    assert_eq!(contents(&line().truncate_graphemes(4)), ["abc", "d"]);
    assert_eq!(contents(&line().truncate_graphemes(3)), ["abc"]);
    assert_eq!(contents(&line().truncate_graphemes(2)), ["ab"]);
    assert_eq!(contents(&line().truncate_graphemes(0)), [""]);
}

#[test]
fn graphemes_are_not_torn_apart() {
    // An e with a combining accent, a flag, and a family.
    let line = || Line {
        spans: vec![span("e\u{301}\u{1f1e8}\u{1f1ed}"), span("👨\u{200d}👩\u{200d}👧x")],
    };
    assert_eq!(contents(&line().truncate_graphemes(1)), ["e\u{301}"]);
    assert_eq!(
        contents(&line().truncate_graphemes(2)),
        ["e\u{301}\u{1f1e8}\u{1f1ed}"]
    );
    assert_eq!(
        contents(&line().truncate_graphemes(3)),
        [
            "e\u{301}\u{1f1e8}\u{1f1ed}",
            "👨\u{200d}👩\u{200d}👧"
        ]
    );
}

#[test]
fn texts_are_made_of_lines() {
    let t = Text::from_line(Line::from_span(span("only").with_class(Class::Error)));
    let lines = t.into_lines();
    assert_eq!(lines.len(), 1);
    assert_eq!(lines[0].spans[0].class, Some(Class::Error));
    assert_eq!(lines[0].spans[0].clone(), lines[0].spans[0]);
}

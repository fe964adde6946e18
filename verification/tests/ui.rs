use std::sync::Arc;

use limmat::assoc::Assoc;
use limmat::database::DatabaseOutput;
use limmat::git::CommitHash;
use limmat::graph::{CommitInfoBuffer, GraphBuffer, GraphError};
use limmat::test::{
    CachePolicy, Notification, Test, TestCase, TestInconclusive, TestName, TestResult, TestStatus,
};
use limmat::ui::{screen, update_rendered_cases, OutputBuffer, RenderedCases, StatusViewer};
use limmat::util::Rect;

fn fake_test(name: &str, cache_policy: CachePolicy) -> Arc<Test> {
    Arc::new(Test {
        name: TestName::new(name.to_owned()),
        config_hash: "0".to_owned(),
        program: "".to_owned(),
        args: vec!["".to_owned()],
        needs_resources: Assoc::new(),
        shutdown_grace_period: 5,
        cache_policy,
        depends_on: vec![],
        error_exit_codes: vec![],
    })
}

fn fake_notif(commit_hash: &CommitHash, test: &Arc<Test>, status: TestStatus) -> Notification {
    Notification {
        test_case: TestCase {
            commit_hash: commit_hash.clone(),
            cache_hash: Some(commit_hash.to_hash()),
            test: test.clone(),
        },
        status,
    }
}

fn fake_completion(exit_code: i32) -> TestStatus {
    let output = DatabaseOutput::new("/fake".to_owned(), "0".to_owned());
    TestStatus::Finished(Ok(Arc::new(output.set_result(&TestResult { exit_code }).0)))
}

fn fake_error(msg: &str) -> TestStatus {
    TestStatus::Finished(Err(TestInconclusive::Error(msg.to_owned())))
}

// A full commit hash that starts with the given digits.
fn full(abbrev: &str) -> CommitHash {
    CommitHash::new(format!("{:0<40}", abbrev))
}

// What `git log` prints: the graph with hashes, and the information about the
// commits.
fn buffers(graph: &str, commits: &[(&str, &str)]) -> (GraphBuffer, CommitInfoBuffer) {
    let mut graph = graph.to_owned();
    let mut info = String::new();
    for (abbrev, subject) in commits {
        let hash = full(abbrev);
        graph = graph.replace(abbrev, hash.as_str());
        info.push_str(&format!("{} {} {}\0\n", hash.as_str(), abbrev, subject));
    }
    (
        GraphBuffer::new(graph.into_bytes()).unwrap(),
        CommitInfoBuffer::new(&info.into_bytes()),
    )
}

fn octopus() -> (GraphBuffer, CommitInfoBuffer) {
    buffers(
        "*-.   05d10f7\n|\\ \\  \n| | | \n| | * eea5ddf\n| |   \n| * 839dc2e\n| | \n| * 7de308a\n|   \n* 02ad53b\n  \n",
        &[
            ("05d10f7", "merge commit"),
            ("eea5ddf", "2"),
            ("839dc2e", "1"),
            ("7de308a", "join"),
            ("02ad53b", "3"),
        ],
    )
}

fn rendered(notifs: Vec<Notification>) -> RenderedCases {
    let mut cases = Assoc::new();
    for notif in notifs {
        update_rendered_cases(&mut cases, &notif, "myhost");
    }
    cases
}

fn stripped(ob: &OutputBuffer, cases: &RenderedCases) -> String {
    strip_ansi_escapes::strip_str(ob.render(cases).ansi().to_string())
}

#[test]
fn ui_output_buffer_smoke() {
    let (graph, info) = buffers(
        "* 08e80af\n| \n* b29043f\n  \n",
        &[("08e80af", "3"), ("b29043f", "2")],
    );
    let test1 = fake_test("my_test1", CachePolicy::ByCommit);
    let test2 = fake_test("my_test2", CachePolicy::ByCommit);
    let ob = OutputBuffer::new(&graph, &info).expect("failed to build OutputBuffer");
    let cases = rendered(vec![
        fake_notif(&full("08e80af"), &test1, TestStatus::Enqueued),
        fake_notif(&full("08e80af"), &test2, fake_completion(0)),
        fake_notif(&full("b29043f"), &test1, fake_error("oh no")),
        fake_notif(&full("b29043f"), &test2, TestStatus::Started),
    ]);
    assert_eq!(
        stripped(&ob, &cases),
        "* 08e80af 3\n\
         | my_test1: Enqueued my_test2: success \n\
         * b29043f 2\n\
         | my_test1: oh no my_test2: Started \n"
    );
}

#[test]
fn ui_output_buffer_octopus() {
    let (graph, info) = octopus();
    let test1 = fake_test("my_test1", CachePolicy::ByCommit);
    let test2 = fake_test("my_test2", CachePolicy::ByCommit);
    let ob = OutputBuffer::new(&graph, &info).expect("failed to build OutputBuffer");
    let cases = rendered(vec![
        fake_notif(&full("02ad53b"), &test1, TestStatus::Enqueued),
        fake_notif(&full("02ad53b"), &test2, fake_completion(0)),
        fake_notif(&full("eea5ddf"), &test1, fake_error("oh no")),
        fake_notif(&full("eea5ddf"), &test2, TestStatus::Started),
    ]);
    // Note this is a kinda weird log. We excluded the common ancestor of all the commits.
    // Also note it's a kinda weird input because we haven't provided any
    // statuses all of the commits (this does momentarily happen IRL).
    assert_eq!(
        stripped(&ob, &cases),
        "*-.   05d10f7 merge commit\n\
         |\\ \\  \n\
         | | | \n\
         | | * eea5ddf 2\n\
         | |   my_test1: oh no my_test2: Started \n\
         | * 839dc2e 1\n\
         | | \n\
         | * 7de308a join\n\
         |   \n\
         * 02ad53b 3\n\
         | my_test1: Enqueued my_test2: success \n"
    );
}

#[test]
fn ui_output_buffer_empty() {
    let (graph, info) = buffers("", &[]);
    let test1 = fake_test("my_test1", CachePolicy::ByCommit);
    let test2 = fake_test("my_test2", CachePolicy::ByCommit);
    let ob = OutputBuffer::new(&graph, &info).expect("failed to build OutputBuffer");
    let cases = rendered(vec![
        fake_notif(&full("02ad53b"), &test1, TestStatus::Enqueued),
        fake_notif(&full("02ad53b"), &test1, fake_completion(0)),
        fake_notif(&full("eea5ddf"), &test2, fake_error("oh no")),
        fake_notif(&full("eea5ddf"), &test2, TestStatus::Started),
    ]);
    assert_eq!(stripped(&ob, &cases), "[range empty]\n");
}

#[test]
fn statuses_are_shown_by_class_and_link() {
    let (graph, info) = buffers("* 08e80af\n", &[("08e80af", "3")]);
    let ob = OutputBuffer::new(&graph, &info).unwrap();
    let cases = rendered(vec![
        fake_notif(
            &full("08e80af"),
            &fake_test("b", CachePolicy::ByCommit),
            fake_completion(7),
        ),
        fake_notif(
            &full("08e80af"),
            &fake_test("a", CachePolicy::ByCommit),
            TestStatus::Finished(Err(TestInconclusive::Canceled)),
        ),
    ]);
    let hash = full("08e80af");
    assert_eq!(
        ob.render(&cases).html_pre().to_string(),
        format!(
            "<pre>\n\
             <span class=\"\">* 08e80af 3</span>\n\
             <span class=\"\">| </span>\
             <span class=\"test-name\">a</span><span class=\"\">: </span>\
             <a href=\"myhost/{0}/a/stdout.txt\"><span class=\"\">Canceled</span></a>\
             <span class=\"\"> </span>\
             <span class=\"test-name\">b</span><span class=\"\">: </span>\
             <a href=\"myhost/{0}/b/stdout.txt\"><span class=\"failure\">failed (status 7)</span></a>\
             <span class=\"\"> </span>\n\
             </pre>\n",
            hash.as_str()
        )
    );
}

#[test]
fn newer_notifications_replace_older_ones() {
    let (graph, info) = buffers("* 08e80af\n", &[("08e80af", "3")]);
    let ob = OutputBuffer::new(&graph, &info).unwrap();
    let test = fake_test("t", CachePolicy::ByCommit);
    let cases = rendered(vec![
        fake_notif(&full("08e80af"), &test, TestStatus::Enqueued),
        fake_notif(&full("08e80af"), &test, TestStatus::Started),
        fake_notif(&full("08e80af"), &test, fake_completion(0)),
    ]);
    assert_eq!(stripped(&ob, &cases), "* 08e80af 3\n| t: success \n");
}

#[test]
fn a_graph_without_information_is_refused() {
    let (graph, _) = buffers("* 08e80af\n", &[("08e80af", "3")]);
    let (_, info) = buffers("", &[("b29043f", "2")]);
    let err = OutputBuffer::new(&graph, &info).unwrap_err();
    assert_eq!(err, GraphError::MissingInfo(full("08e80af")));
    assert_eq!(
        err.to_string(),
        format!(
            "missing commit info for CommitHash(\"{}\")",
            full("08e80af").as_str()
        )
    );
}

#[test]
fn a_graph_with_two_hashes_in_a_line_is_refused() {
    let hash = full("08e80af");
    let line = format!("* {0} {0}", hash.as_str());
    let graph = GraphBuffer::new(line.clone().into_bytes()).unwrap();
    let (_, info) = buffers("", &[("08e80af", "3")]);
    let err = OutputBuffer::new(&graph, &info).unwrap_err();
    assert_eq!(
        err.to_string(),
        format!("matched 2 commit hashes in graph chunk:\n[{line:?}]")
    );
    assert_eq!(
        err,
        GraphError::BadChunk {
            matches: 2,
            chunk: vec![line]
        }
    );
}

#[test]
fn bad_information_is_refused_first() {
    let graph = GraphBuffer::new(b"* none".to_vec()).unwrap();
    let info = CommitInfoBuffer::from_text("nospace\0".to_owned());
    assert_eq!(
        OutputBuffer::new(&graph, &info).unwrap_err(),
        GraphError::BadInfo
    );
}

#[test]
fn the_screen_is_repainted_to_size() {
    colored::control::set_override(false);
    let mut viewer = StatusViewer::new("myhost".to_owned(), "http://home:1".to_owned());
    let all = Rect { cols: 80, rows: 24 };
    let start = "\u{1b}[?1049h\n\u{1b}[0;0H\u{1b}[0J";
    assert_eq!(
        viewer.repaint(&all).output,
        format!("{start}[range empty]\nWeb UI: http://home:1\n")
    );
    let (graph, info) = octopus();
    viewer.set_range(OutputBuffer::new(&graph, &info).unwrap());
    viewer.update(&fake_notif(
        &full("02ad53b"),
        &fake_test("t", CachePolicy::ByCommit),
        TestStatus::Started,
    ));
    let paint = viewer.repaint(&Rect { cols: 5, rows: 4 });
    assert_eq!(
        paint.output,
        format!("{start}*-.  \n|\\ \\ \n| | |\n| | *\nWeb UI: http://home:1\n")
    );
    // The page shows everything.
    assert_eq!(paint.log_html.lines().count(), 13);
    assert!(paint.log_html.contains("Started"));
    assert_eq!(StatusViewer::leave(), "\u{1b}[?1049l\n");
}

#[test]
fn the_screen_ends_with_the_address() {
    assert!(screen("body\n", "url").ends_with("body\nWeb UI: url\n"));
}

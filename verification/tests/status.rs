use std::sync::Arc;

use limmat::assoc::Assoc;
use limmat::database::DatabaseOutput;
use limmat::git::CommitHash;
use limmat::graph::{CommitInfoBuffer, GraphBuffer};
use limmat::status::{hyperlink, OutputBuffer, Tracker};
use limmat::test::{
    CachePolicy, Notification, Test, TestCase, TestInconclusive, TestName, TestResult, TestStatus,
};
use limmat::ui::{update_rendered_cases, RenderedCases};

fn fake_test(name: &str, cache_policy: CachePolicy) -> Arc<Test> {
    Arc::new(Test {
        name: TestName::new(name.to_owned()),
        cache_policy,
        // Don't care about any of the other fields in these tests
        config_hash: "0".to_owned(),
        program: "".to_owned(),
        args: vec![],
        needs_resources: Assoc::new(),
        shutdown_grace_period: 1,
        depends_on: vec![],
        error_exit_codes: vec![],
    })
}

fn fake_notif(commit_hash: &CommitHash, test: &Arc<Test>, status: TestStatus) -> Notification {
    Notification {
        test_case: TestCase {
            commit_hash: commit_hash.clone(),
            cache_hash: Some(commit_hash.to_hash()),
            test: test.clone(),
        },
        status,
    }
}

fn success() -> TestStatus {
    let output = DatabaseOutput::new("/fake".to_owned(), "0".to_owned());
    TestStatus::Finished(Ok(Arc::new(output.set_result(&TestResult { exit_code: 0 }).0)))
}

fn error(msg: &str) -> TestStatus {
    TestStatus::Finished(Err(TestInconclusive::Error(msg.to_owned())))
}

fn full(abbrev: &str) -> CommitHash {
    CommitHash::new(format!("{:0<40}", abbrev))
}

fn buffer(graph: &str, commits: &[(&str, &str)]) -> OutputBuffer {
    let mut graph = graph.to_owned();
    let mut info = String::new();
    for (abbrev, subject) in commits {
        let hash = full(abbrev);
        graph = graph.replace(abbrev, hash.as_str());
        info.push_str(&format!("{} {} {}\0\n", hash.as_str(), abbrev, subject));
    }
    OutputBuffer::new(
        &GraphBuffer::new(graph.into_bytes()).unwrap(),
        &CommitInfoBuffer::new(&info.into_bytes()),
    )
    .expect("failed to build OutputBuffer")
}

fn cases_of(notifs: Vec<Notification>) -> RenderedCases {
    let mut cases = Assoc::new();
    for notif in notifs {
        update_rendered_cases(&mut cases, &notif, "myhost");
    }
    cases
}

#[test]
fn status_output_buffer_smoke() {
    let ob = buffer(
        "* 08e80af\n| \n* b29043f\n  \n",
        &[("08e80af", "3"), ("b29043f", "2")],
    );
    let test1 = fake_test("my_test1", CachePolicy::ByCommit);
    let test2 = fake_test("my_test2", CachePolicy::ByCommit);
    let (text, lines) = ob.render(&cases_of(vec![
        fake_notif(&full("08e80af"), &test1, TestStatus::Enqueued),
        fake_notif(&full("08e80af"), &test2, success()),
        fake_notif(&full("b29043f"), &test1, error("oh no")),
        fake_notif(&full("b29043f"), &test2, TestStatus::Started),
    ]));
    assert_eq!(
        strip_ansi_escapes::strip_str(text),
        "* 08e80af 3\n\
         | my_test1: Enqueued my_test2: success \n\
         * b29043f 2\n\
         | my_test1: oh no my_test2: Started \n"
    );
    assert_eq!(lines, 4);
}

#[test]
fn status_output_buffer_octopus() {
    let ob = buffer(
        "*-.   05d10f7\n|\\ \\  \n| | | \n| | * eea5ddf\n| |   \n| * 839dc2e\n| | \n| * 7de308a\n|   \n* 02ad53b\n  \n",
        &[
            ("05d10f7", "merge commit"),
            ("eea5ddf", "2"),
            ("839dc2e", "1"),
            ("7de308a", "join"),
            ("02ad53b", "3"),
        ],
    );
    let test1 = fake_test("my_test1", CachePolicy::ByCommit);
    let test2 = fake_test("my_test2", CachePolicy::ByCommit);
    let (text, lines) = ob.render(&cases_of(vec![
        fake_notif(&full("02ad53b"), &test1, TestStatus::Enqueued),
        fake_notif(&full("02ad53b"), &test2, success()),
        fake_notif(&full("eea5ddf"), &test1, error("oh no")),
        fake_notif(&full("eea5ddf"), &test2, TestStatus::Started),
    ]));
    assert_eq!(
        strip_ansi_escapes::strip_str(text),
        "*-.   05d10f7 merge commit\n\
         |\\ \\  \n\
         | | | \n\
         | | * eea5ddf 2\n\
         | |   my_test1: oh no my_test2: Started \n\
         | * 839dc2e 1\n\
         | | \n\
         | * 7de308a join\n\
         |   \n\
         * 02ad53b 3\n\
         | my_test1: Enqueued my_test2: success \n"
    );
    assert_eq!(lines, 11);
}

#[test]
fn status_output_buffer_empty() {
    let ob = buffer("", &[]);
    let test1 = fake_test("my_test1", CachePolicy::ByCommit);
    let test2 = fake_test("my_test2", CachePolicy::ByCommit);
    let (text, lines) = ob.render(&cases_of(vec![
        fake_notif(&full("02ad53b"), &test1, TestStatus::Enqueued),
        fake_notif(&full("02ad53b"), &test1, success()),
        fake_notif(&full("eea5ddf"), &test2, error("oh no")),
        fake_notif(&full("eea5ddf"), &test2, TestStatus::Started),
    ]));
    assert_eq!(strip_ansi_escapes::strip_str(text), "[range empty]\n");
    assert_eq!(lines, 1);
}

#[test]
fn a_repaint_clears_what_was_painted() {
    colored::control::set_override(false);
    let mut tracker = Tracker::new("myhost".to_owned());
    assert_eq!(tracker.repaint(), "[range empty]\n");
    tracker.set_range(buffer(
        "* 08e80af\n| \n* b29043f\n",
        &[("08e80af", "3"), ("b29043f", "2")],
    ));
    assert_eq!(
        tracker.repaint(),
        "\u{1b}[1F\u{1b}[0J* 08e80af 3\n| \n* b29043f 2\n| \n"
    );
    tracker.update(&fake_notif(
        &full("b29043f"),
        &fake_test("t", CachePolicy::ByCommit),
        TestStatus::Started,
    ));
    assert_eq!(
        tracker.repaint(),
        format!(
            "\u{1b}[4F\u{1b}[0J* 08e80af 3\n| \n* b29043f 2\n| t: {} \n",
            hyperlink(
                "Started",
                &format!("myhost/{}/t/stdout.txt", full("b29043f").as_str())
            )
        )
    );
}

#[test]
fn links_are_escape_sequences() {
    assert_eq!(
        hyperlink("text", "url"),
        "\u{1b}]8;;url\u{1b}\\text\u{1b}]8;;\u{1b}\\"
    );
}

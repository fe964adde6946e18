use std::sync::Arc;

use limmat::assoc::Assoc;
use limmat::database::TestResultEntry;
use limmat::git::{Commit, CommitHash, ObjectHash, TreeHash};
use limmat::result::{Database, DirAction};
use limmat::test::{CachePolicy, Test, TestCase, TestName, TestResult};

fn hash() -> ObjectHash {
    ObjectHash::new("abc".to_owned())
}

fn name() -> TestName {
    TestName::new("t".to_owned())
}

#[test]
fn results_stand_in_plain_directories() {
    let db = Database::create_or_open("/db");
    assert_eq!(db.json_path(&hash(), &name()), "/db/abc/t/result.json");
    let test = Arc::new(Test {
        name: name(),
        config_hash: "0".to_owned(),
        program: "true".to_owned(),
        args: vec![],
        needs_resources: Assoc::new(),
        shutdown_grace_period: 1,
        cache_policy: CachePolicy::ByTree,
        depends_on: vec![],
        error_exit_codes: vec![],
    });
    let commit = Commit {
        hash: CommitHash::new("c".to_owned()),
        tree: TreeHash::new("7ee".to_owned()),
    };
    assert_eq!(
        Database::result_relpath(&TestCase::new(commit, test)),
        "7ee/t"
    );
}

#[test]
fn only_results_of_the_same_configuration_are_used() {
    let entry = TestResultEntry {
        config_hash: "1".to_owned(),
        result: TestResult { exit_code: 4 },
    };
    assert_eq!(
        Database::cached_result(Some(entry.clone()), &"1".to_owned()),
        Some(TestResult { exit_code: 4 })
    );
    assert_eq!(Database::cached_result(Some(entry), &"2".to_owned()), None);
    assert_eq!(Database::cached_result(None, &"1".to_owned()), None);
}

#[test]
fn the_directory_is_made_once() {
    let db = Database::create_or_open("/db");
    let mut output = db.create_output(&hash(), &name(), "1".to_owned());
    assert_eq!(
        output.stdout(true),
        (DirAction::Replace, "/db/abc/t/stdout.txt".to_owned())
    );
    assert_eq!(
        output.stderr(true),
        (DirAction::Nothing, "/db/abc/t/stderr.txt".to_owned())
    );
    let (action, path, entry) = output.set_result(&TestResult { exit_code: 2 }, true);
    assert_eq!(action, DirAction::Nothing);
    assert_eq!(path, "/db/abc/t/result.json");
    assert_eq!(
        entry,
        TestResultEntry {
            config_hash: "1".to_owned(),
            result: TestResult { exit_code: 2 }
        }
    );

    let mut output = db.create_output(&hash(), &name(), "1".to_owned());
    assert_eq!(output.stderr(false).0, DirAction::Create);
    assert_eq!(output.stdout(true).0, DirAction::Nothing);
}

#[test]
fn a_directory_that_was_not_made_is_made_later() {
    let db = Database::create_or_open("/db");
    let mut output = db.create_output(&hash(), &name(), "1".to_owned());
    assert_eq!(output.stdout(true).0, DirAction::Replace);
    output.dir_failed();
    assert_eq!(output.stderr(true).0, DirAction::Replace);
    output.dir_failed();
    let (action, _, _) = output.set_result(&TestResult { exit_code: 0 }, false);
    assert_eq!(action, DirAction::Create);
}

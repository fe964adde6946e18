use std::sync::Arc;

use limmat::assoc::Assoc;
use limmat::database::{
    gc, Content, Database, DatabaseEntry, DatabaseOutput, EntryUsage, LookupStep, OutputStream,
};
use limmat::git::{Commit, CommitHash, ObjectHash, TreeHash};
use limmat::test::{CachePolicy, Test, TestCase, TestName, TestResult};
use limmat::util::ByteSize;

fn test_with(name: &str, cache_policy: CachePolicy, config_hash: &str) -> Arc<Test> {
    Arc::new(Test {
        name: TestName::new(name.to_owned()),
        config_hash: config_hash.to_owned(),
        program: "bash".to_owned(),
        args: vec![],
        needs_resources: Assoc::new(),
        shutdown_grace_period: 5,
        cache_policy,
        depends_on: vec![],
        error_exit_codes: vec![],
    })
}

fn commit(hash: &str, tree: &str) -> Commit {
    Commit {
        hash: CommitHash::new(hash.to_owned()),
        tree: TreeHash::new(tree.to_owned()),
    }
}

fn case(cache_policy: CachePolicy) -> TestCase {
    TestCase::new(commit("c0ffee", "beef"), test_with("my_test", cache_policy, "0"))
}

// Looks up a case while the file keeps the given content.
fn look_up(db: &Database, case: &TestCase, content: fn(&str) -> Content, file: &str) -> LookupStep {
    let mut lookup = db.lookup(case);
    loop {
        match lookup.step(content(file)) {
            LookupStep::Upgrade | LookupStep::Retry => (),
            step => return step,
        }
    }
}

// How the file is read: empty, or as an exit code of the configuration "0".
fn read(file: &str) -> Content {
    if file.is_empty() {
        return Content::Empty;
    }
    match file.parse() {
        Ok(exit_code) => Content::Entry(limmat::database::TestResultEntry {
            config_hash: "0".to_owned(),
            result: TestResult { exit_code },
        }),
        Err(_) => Content::Invalid,
    }
}

fn file(path: &str) -> OutputStream {
    OutputStream::File(path.to_owned())
}

fn written(output: DatabaseOutput, exit_code: i32) -> (DatabaseEntry, String) {
    let (entry, path) = output.set_result(&TestResult { exit_code });
    assert!(path.is_some());
    let file = entry.exit_code().to_string();
    (entry, file)
}

#[test]
fn test_corrupted_result() {
    let db = Database::create_or_open("/db");

    // Setup: Create a corrupted database entry. This simulates Limmat
    // getting killed in the middle of writing.
    let test_case = case(CachePolicy::ByCommit);
    let mut output = match look_up(&db, &test_case, read, "") {
        LookupStep::YouRunIt(output) => output,
        step => panic!("Found result in empty database: {step:?}"),
    };
    assert_eq!(output.stderr(), file("/db/c0ffee/my_test/stderr.txt"));
    assert_eq!(output.stdout(), file("/db/c0ffee/my_test/stdout.txt"));
    let (entry, _) = written(output, 1);
    assert_eq!(entry.exit_code(), 1);
    let file = "I DON`T TIHKN THA'TS JASON BATMAN,,,\n".repeat(16);

    // Act: Now open the entry. It should just silently act as though nothing was there.
    let output = match look_up(&db, &test_case, read, &file) {
        LookupStep::YouRunIt(output) => output,
        step => panic!("successfully read corrupted JSON? {step:?}"),
    };
    let (_, file) = written(output, 2);

    // Now it should be valid again.
    match look_up(&db, &test_case, read, &file) {
        LookupStep::FoundResult(entry) => assert_eq!(entry.result().exit_code, 2),
        step => panic!("no JSON found after DB corruption: {step:?}"),
    }
}

#[test]
fn entries_stand_below_hash_and_name() {
    let db = Database::create_or_open("/db");
    assert_eq!(
        Database::result_relpath(&case(CachePolicy::ByCommit)),
        "c0ffee/my_test"
    );
    assert_eq!(
        Database::result_relpath(&case(CachePolicy::ByTree)),
        "beef/my_test"
    );
    // Results get stored even when caching is disabled.
    assert_eq!(
        Database::result_relpath(&case(CachePolicy::NoCaching)),
        "c0ffee/my_test"
    );
    assert_eq!(
        db.result_path(
            &ObjectHash::new("abc".to_owned()),
            &TestName::new("t".to_owned())
        ),
        "/db/abc/t"
    );
    let lookup = db.lookup(&case(CachePolicy::ByTree));
    assert_eq!(lookup.result_dir(), "/db/beef/my_test");
    assert_eq!(lookup.json_path(), "/db/beef/my_test/result.json");
}

#[test]
fn a_result_of_the_same_configuration_is_found() {
    let db = Database::create_or_open("/db");
    match look_up(&db, &case(CachePolicy::ByCommit), read, "3") {
        LookupStep::FoundResult(entry) => {
            assert_eq!(entry.exit_code(), 3);
            assert_eq!(entry.stored().config_hash, "0");
            assert_eq!(entry.stdout_path(), "/db/c0ffee/my_test/stdout.txt");
            assert_eq!(entry.stderr_path(), "/db/c0ffee/my_test/stderr.txt");
            assert_eq!(entry.artifacts_dir(), "/db/c0ffee/my_test/artifacts");
        }
        step => panic!("no result found: {step:?}"),
    }
}

#[test]
fn a_changed_configuration_invalidates_the_result() {
    let db = Database::create_or_open("/db");
    let changed = TestCase::new(
        commit("c0ffee", "beef"),
        test_with("my_test", CachePolicy::ByCommit, "1"),
    );
    assert!(matches!(
        look_up(&db, &changed, read, "0"),
        LookupStep::YouRunIt(_)
    ));
}

#[test]
fn without_caching_results_are_not_used() {
    let db = Database::create_or_open("/db");
    assert!(matches!(
        look_up(&db, &case(CachePolicy::NoCaching), read, "0"),
        LookupStep::YouRunIt(_)
    ));
}

#[test]
fn commits_with_one_tree_share_results() {
    let by_tree = test_with("my_test", CachePolicy::ByTree, "0");
    let by_commit = test_with("my_test", CachePolicy::ByCommit, "0");
    let a = commit("a1", "7ee");
    let b = commit("b2", "7ee");
    assert_eq!(
        Database::result_relpath(&TestCase::new(a.clone(), by_tree.clone())),
        Database::result_relpath(&TestCase::new(b.clone(), by_tree)),
    );
    assert_ne!(
        Database::result_relpath(&TestCase::new(a, by_commit.clone())),
        Database::result_relpath(&TestCase::new(b, by_commit)),
    );
}

#[test]
fn entries_are_kept_apart() {
    let paths = [("a", "b_c"), ("a_b", "c"), ("a", "c"), ("a_b", "b_c")].map(|(hash, name)| {
        Database::result_relpath(&TestCase::new(
            commit(hash, "7ee"),
            test_with(name, CachePolicy::ByCommit, "0"),
        ))
    });
    for i in 0..paths.len() {
        for j in 0..i {
            assert_ne!(paths[i], paths[j]);
        }
    }
}

#[test]
fn a_lookup_starts_over_when_someone_else_ran_the_test() {
    let db = Database::create_or_open("/db");
    let mut lookup = db.lookup(&case(CachePolicy::ByCommit));
    assert!(matches!(lookup.step(Content::Empty), LookupStep::Upgrade));
    assert!(matches!(lookup.step(read("0")), LookupStep::Retry));
    assert!(matches!(lookup.step(read("0")), LookupStep::FoundResult(_)));
}

#[test]
fn a_lookup_does_not_go_on_forever() {
    let db = Database::create_or_open("/db");
    let mut lookup = db.lookup(&case(CachePolicy::ByCommit));
    for attempt in 0..5 {
        assert!(matches!(lookup.step(Content::Empty), LookupStep::Upgrade));
        let step = lookup.step(read("0"));
        if attempt < 4 {
            assert!(matches!(step, LookupStep::Retry));
        } else {
            assert!(matches!(step, LookupStep::Contention));
        }
    }
}

#[test]
fn output_goes_below_the_directory() {
    let mut output = DatabaseOutput::new("/tmp/out".to_owned(), "h".to_owned());
    assert_eq!(output.stdout(), file("/tmp/out/stdout.txt"));
    assert_eq!(output.stderr(), file("/tmp/out/stderr.txt"));
    assert_eq!(output.artifacts_dir(), "/tmp/out/artifacts");
    let (entry, path) = output.set_result(&TestResult { exit_code: -7 });
    assert_eq!(path.as_deref(), Some("/tmp/out/result.json"));
    assert_eq!(entry.stored().config_hash, "h");
    assert_eq!(entry.exit_code(), -7);
    assert_eq!(entry.stdout_path(), "/tmp/out/stdout.txt");
}

#[test]
fn nothing_is_stored_of_ephemeral_output() {
    let mut output = DatabaseOutput::ephemeral("/tmp/out".to_owned(), "h".to_owned());
    assert_eq!(output.stdout(), OutputStream::Inherited);
    assert_eq!(output.stderr(), OutputStream::Inherited);
    assert_eq!(output.artifacts_dir(), "/tmp/out/artifacts");
    let (entry, path) = output.set_result(&TestResult { exit_code: 1 });
    assert_eq!(path, None);
    assert_eq!(entry.exit_code(), 1);
    assert_eq!(entry.artifacts_dir(), "/tmp/out/artifacts");
}

#[test]
fn old_entries_are_deleted_first() {
    let used = |list: &[(usize, u64)]| -> Vec<EntryUsage> {
        list.iter()
            .map(|(bytes, modified)| EntryUsage {
                size: ByteSize::from_bytes(*bytes),
                modified: *modified,
            })
            .collect()
    };
    let entries = used(&[(10, 3), (20, 1), (30, 2), (40, 4)]);
    let delete = |size| gc(&entries, ByteSize::from_bytes(size));
    assert!(delete(101).is_empty());
    assert_eq!(delete(100), [1]);
    assert_eq!(delete(81), [1]);
    assert_eq!(delete(80), [1, 2]);
    assert_eq!(delete(41), [1, 2, 0]);
    assert_eq!(delete(0), [1, 2, 0, 3]);
    assert!(gc(&vec![], ByteSize::from_bytes(0)).is_empty());
    // Sizes that do not fit together in a machine word.
    let huge = used(&[(usize::MAX, 1), (usize::MAX, 2)]);
    assert_eq!(gc(&huge, ByteSize::from_bytes(usize::MAX)), [0, 1]);
}

use std::sync::Arc;

use limmat::assoc::Assoc;
use limmat::dag::GraphNode;
use limmat::database::DatabaseOutput;
use limmat::git::{Commit, CommitHash, TreeHash};
use limmat::ident::Ident;
use limmat::resource::ResourceKey;
use limmat::test::{
    base_job_env, copy_names, copy_outcome, CachePolicy, Test, TestCase, TestCaseId,
    TestInconclusive, TestName, TestOutcome, TestResult, TestStatus,
};

fn name(s: &str) -> TestName {
    TestName::new(s.to_owned())
}

fn a_test(cache_policy: CachePolicy) -> Test {
    Test {
        name: name("my_test"),
        config_hash: "0".to_owned(),
        program: "bash".to_owned(),
        args: vec![],
        needs_resources: Assoc::new(),
        shutdown_grace_period: 5,
        cache_policy,
        depends_on: vec![name("a"), name("b")],
        error_exit_codes: vec![],
    }
}

fn commit() -> Commit {
    Commit {
        hash: CommitHash::new("c0ffee".to_owned()),
        tree: TreeHash::new("beef".to_owned()),
    }
}

#[test]
fn results_are_filed_by_policy() {
    let filed = |policy: CachePolicy| {
        policy
            .cache_hash(&commit())
            .map(|hash| hash.as_str().to_owned())
    };
    assert_eq!(filed(CachePolicy::NoCaching), None);
    assert_eq!(filed(CachePolicy::ByCommit), Some("c0ffee".to_owned()));
    assert_eq!(filed(CachePolicy::ByTree), Some("beef".to_owned()));
}

#[test]
fn cases_are_told_apart() {
    let case = TestCase::new(commit(), Arc::new(a_test(CachePolicy::ByTree)));
    assert_eq!(case.id().as_str(), "c0ffee:my_test");
    assert_eq!(case.storage_hash().as_str(), "beef");
    let children: Vec<String> = case
        .child_ids()
        .iter()
        .map(|id| id.as_str().to_owned())
        .collect();
    assert_eq!(children, ["c0ffee:a", "c0ffee:b"]);
    let id = |c: &str, t: &str| TestCaseId::new(&CommitHash::new(c.to_owned()), &name(t));
    // Even with colons in the names of tests.
    assert_ne!(id("a", "b:c"), id("b", "a:c"));
    assert_ne!(id("a", "b"), id("a", "b:b"));
    assert_eq!(id("a", "b").debug(), "TestCaseId(\"a:b\")");
    assert!(id("a", "b").same(&id("a", "b").duplicate()));
}

#[test]
fn tests_are_nodes_of_a_graph() {
    let test = Arc::new(a_test(CachePolicy::ByCommit));
    assert_eq!(test.id(), name("my_test"));
    assert_eq!(test.child_ids(), [name("a"), name("b")]);
    assert_eq!(copy_names(&test.depends_on), test.depends_on);
    assert_eq!((*test).to_string(), "<test: \"my_test\">");
}

#[test]
fn worktrees_are_needed_if_counted() {
    let mut test = a_test(CachePolicy::ByCommit);
    assert!(!test.needs_worktree());
    test.needs_resources.insert(ResourceKey::Worktree, 0);
    assert!(!test.needs_worktree());
    test.needs_resources.insert(ResourceKey::Worktree, 1);
    assert!(test.needs_worktree());
    assert_eq!(test.wants(false), [(ResourceKey::Worktree, 1)]);
    assert!(test.wants(true).is_empty());
}

#[test]
fn statuses_are_shown() {
    let entry = DatabaseOutput::new("/x".to_owned(), "0".to_owned())
        .set_result(&TestResult { exit_code: -2 })
        .0;
    let finished: TestOutcome = Ok(Arc::new(entry));
    assert_eq!(TestStatus::Enqueued.to_string(), "Enqueued");
    assert_eq!(TestStatus::Started.to_string(), "Started");
    assert_eq!(
        TestStatus::Finished(copy_outcome(&finished))
            .clone()
            .to_string(),
        "exit code -2"
    );
    let inconclusive = |why| TestStatus::Finished(Err(why)).to_string();
    assert_eq!(inconclusive(TestInconclusive::Canceled), "Canceled");
    assert_eq!(
        inconclusive(TestInconclusive::Error("a \"b\"".to_owned())),
        "Error while testing - \"a \\\"b\\\"\""
    );
    assert_eq!(TestResult { exit_code: 5 }.to_string(), "exit code 5");
}

#[test]
fn jobs_know_where_they_come_from() {
    assert_eq!(
        base_job_env("/repo"),
        [("LIMMAT_ORIGIN".to_owned(), "/repo".to_owned())]
    );
}

use std::sync::Arc;

use limmat::assoc::Assoc;
use limmat::database::{DatabaseEntry, DatabaseOutput, OutputStream};
use limmat::git::{Commit, CommitHash, TreeHash};
use limmat::job::{
    announces_start, DepDatabaseEntries, JobAction, JobCounter, JobEvent, TestJob, TestJobBuilder,
    TestStatusNotifier,
};
use limmat::process::ExitStatus;
use limmat::resource::{Pools, Resource, ResourceKey};
use limmat::test::{
    base_job_env, CachePolicy, Test, TestCase, TestInconclusive, TestName, TestOutcome, TestResult,
    TestStatus,
};

fn name(s: &str) -> TestName {
    TestName::new(s.to_owned())
}

fn case(error_exit_codes: Vec<i32>, worktrees: usize) -> TestCase {
    let mut needs_resources = Assoc::new();
    needs_resources.insert(ResourceKey::Worktree, worktrees);
    let test = Test {
        name: name("my_test"),
        config_hash: "0".to_owned(),
        program: "bash".to_owned(),
        args: vec![],
        needs_resources,
        shutdown_grace_period: 5,
        cache_policy: CachePolicy::ByCommit,
        depends_on: vec![],
        error_exit_codes,
    };
    let commit = Commit {
        hash: CommitHash::new("c0ffee".to_owned()),
        tree: TreeHash::new("beef".to_owned()),
    };
    TestCase::new(commit, Arc::new(test))
}

fn job(wait_for: &[&str]) -> TestJob {
    TestJobBuilder::new(
        case(vec![42], 1),
        base_job_env("/repo"),
        wait_for.iter().map(|s| name(s)).collect(),
    )
    .build()
}

fn output() -> DatabaseOutput {
    DatabaseOutput::new("/db/x".to_owned(), "0".to_owned())
}

fn you_run_it() -> JobEvent {
    JobEvent::YouRunIt(output())
}

fn entry(exit_code: i32) -> Arc<DatabaseEntry> {
    Arc::new(output().set_result(&TestResult { exit_code }).0)
}

// Takes a job to the point where its command runs.
fn running() -> TestJob {
    let mut job = job(&[]);
    assert!(matches!(job.first_action(), JobAction::Lookup));
    assert!(matches!(
        job.step(you_run_it()),
        JobAction::AwaitResources
    ));
    assert!(matches!(
        job.step(JobEvent::GotResources(true)),
        JobAction::Checkout
    ));
    assert!(matches!(
        job.step(JobEvent::CheckedOut),
        JobAction::Spawn(true)
    ));
    assert!(matches!(job.step(JobEvent::Spawned), JobAction::AwaitChild));
    job
}

fn exited(code: i32) -> JobEvent {
    JobEvent::ChildEnded(Ok(ExitStatus::Exited(code)))
}

fn error_of(action: JobAction) -> String {
    match action {
        JobAction::Finish(Err(TestInconclusive::Error(msg))) => msg,
        action => panic!("no error: {action:?}"),
    }
}

fn is_canceled(action: JobAction) -> bool {
    matches!(action, JobAction::Finish(Err(TestInconclusive::Canceled)))
}

#[test]
fn a_result_is_stored_and_reported() {
    for code in [0, 1, -3] {
        let mut job = running();
        let stored = match job.step(exited(code)) {
            JobAction::Store(entry, file) => {
                assert_eq!(entry.exit_code(), code);
                assert_eq!(entry.stored().config_hash, "0");
                assert_eq!(file.as_deref(), Some("/db/x/result.json"));
                entry
            }
            action => panic!("not stored: {action:?}"),
        };
        match job.step(JobEvent::Stored(stored)) {
            JobAction::Finish(Ok(entry)) => assert_eq!(entry.exit_code(), code),
            action => panic!("not reported: {action:?}"),
        }
    }
}

#[test]
fn a_found_result_is_reported_without_a_run() {
    let mut job = job(&[]);
    match job.step(JobEvent::FoundResult(entry(7))) {
        JobAction::Finish(Ok(entry)) => assert_eq!(entry.exit_code(), 7),
        action => panic!("not reported: {action:?}"),
    }
}

#[test]
fn error_exit_codes_are_not_stored() {
    assert_eq!(error_of(running().step(exited(42))), "exit code 42");
}

#[test]
fn signals_are_errors() {
    assert_eq!(
        error_of(running().step(JobEvent::ChildEnded(Ok(ExitStatus::Signaled(10))))),
        "terminated by signal 10"
    );
}

#[test]
fn failures_on_the_way_are_errors() {
    let msg = || "oops".to_owned();
    assert_eq!(
        error_of(job(&[]).step(JobEvent::LookupFailed(msg()))),
        "database lookup: oops"
    );
    let mut j = job(&[]);
    j.step(you_run_it());
    j.step(JobEvent::GotResources(true));
    assert_eq!(
        error_of(j.step(JobEvent::CheckoutFailed(msg()))),
        "failed to check out revision: oops"
    );
    let mut j = job(&[]);
    assert!(matches!(j.run_with(output()), JobAction::Spawn(false)));
    assert_eq!(
        error_of(j.step(JobEvent::SpawnFailed(msg()))),
        "spawning test command: oops"
    );
    let mut j = job(&[]);
    j.run_with(output());
    assert_eq!(
        error_of(j.step(JobEvent::OutputFailed(msg()))),
        "no stdout handle available: oops"
    );
    assert_eq!(
        error_of(running().step(JobEvent::ChildEnded(Err(msg())))),
        "awaiting child: oops"
    );
    let mut j = running();
    j.step(exited(0));
    assert_eq!(error_of(j.step(JobEvent::StoreFailed(msg()))), "oops");
}

#[test]
fn without_a_worktree_nothing_is_checked_out() {
    let mut job =
        TestJobBuilder::new(case(vec![], 0), base_job_env("/repo"), vec![]).build();
    job.step(you_run_it());
    assert!(matches!(
        job.step(JobEvent::GotResources(false)),
        JobAction::Spawn(false)
    ));
}

#[test]
fn the_output_goes_to_the_database() {
    let mut job = job(&[]);
    job.step(you_run_it());
    job.step(JobEvent::GotResources(true));
    job.step(JobEvent::CheckedOut);
    assert_eq!(job.artifacts_dir(), "/db/x/artifacts");
    assert_eq!(
        job.streams(),
        (
            OutputStream::File("/db/x/stdout.txt".to_owned()),
            OutputStream::File("/db/x/stderr.txt".to_owned())
        )
    );
}

#[test]
fn a_one_shot_run_stores_nothing() {
    let mut job = job(&[]);
    let output = DatabaseOutput::ephemeral("/tmp/out".to_owned(), "0".to_owned());
    assert!(matches!(job.run_with(output), JobAction::Spawn(false)));
    assert_eq!(job.artifacts_dir(), "/tmp/out/artifacts");
    assert_eq!(
        job.streams(),
        (OutputStream::Inherited, OutputStream::Inherited)
    );
    assert!(matches!(job.step(JobEvent::Spawned), JobAction::AwaitChild));
    match job.step(exited(3)) {
        JobAction::Store(entry, None) => assert_eq!(entry.exit_code(), 3),
        action => panic!("stored: {action:?}"),
    }
}

#[test]
fn the_artifacts_of_dependencies_are_known() {
    let mut job = job(&["a"]);
    job.step(JobEvent::DepFinished(name("a"), Some(Ok(entry(0)))));
    let env = job.set_env(
        &Pools::new(vec![]).get(&vec![]).unwrap(),
        "/a",
        job.dep_db_entries(),
    );
    assert!(env.contains(&(
        "LIMMAT_ARTIFACTS_a".to_owned(),
        "/db/x/artifacts".to_owned()
    )));
}

#[test]
fn a_canceled_job_does_not_start() {
    let mut job = job(&[]);
    job.step(you_run_it());
    assert!(is_canceled(job.step(JobEvent::Canceled)));
}

#[test]
fn a_canceled_command_is_asked_to_terminate_then_killed() {
    let mut job = running();
    assert!(matches!(job.step(JobEvent::Canceled), JobAction::Terminate));
    assert!(matches!(job.step(JobEvent::GraceOver), JobAction::Kill));
    assert!(is_canceled(
        job.step(JobEvent::ChildEnded(Ok(ExitStatus::Signaled(9))))
    ));

    // What a command that terminates in time exits with does not matter.
    let mut job = running();
    job.step(JobEvent::Canceled);
    assert!(is_canceled(job.step(exited(0))));
}

#[test]
fn a_job_waits_for_its_dependencies() {
    let mut job = job(&["a", "b"]);
    assert!(matches!(job.first_action(), JobAction::AwaitDeps));
    assert!(matches!(
        job.step(JobEvent::DepFinished(name("b"), Some(Ok(entry(0))))),
        JobAction::AwaitDeps
    ));
    assert!(matches!(
        job.step(JobEvent::DepFinished(name("a"), Some(Ok(entry(0))))),
        JobAction::Lookup
    ));
    assert_eq!(job.dep_db_entries().len(), 2);
    assert!(job.dep_db_entries().contains_key(&name("a")));
}

#[test]
fn a_failed_dependency_fails_the_job() {
    let outcomes: Vec<Option<TestOutcome>> = vec![
        Some(Ok(entry(1))),
        Some(Err(TestInconclusive::Canceled)),
        Some(Err(TestInconclusive::Error("x".to_owned()))),
        None,
    ];
    for outcome in outcomes {
        let mut job = job(&["a", "b"]);
        assert_eq!(
            error_of(job.step(JobEvent::DepFinished(name("a"), outcome))),
            "dependency job a failed"
        );
    }
}

fn tokens(name: &str, values: &[&str]) -> (ResourceKey, Vec<Resource>) {
    (
        ResourceKey::UserToken(name.to_owned()),
        values
            .iter()
            .map(|s| Resource::UserToken(s.to_string()))
            .collect(),
    )
}

// Takes a job whose output goes to the given directory to its end.
fn entry_of_a_run(dir: &str) -> Arc<DatabaseEntry> {
    let mut job = job(&[]);
    let output = DatabaseOutput::new(dir.to_owned(), "0".to_owned());
    job.step(JobEvent::YouRunIt(output));
    job.step(JobEvent::GotResources(true));
    job.step(JobEvent::CheckedOut);
    assert_eq!(job.artifacts_dir(), format!("{dir}/artifacts"));
    job.step(JobEvent::Spawned);
    let stored = match job.step(exited(0)) {
        JobAction::Store(entry, _) => entry,
        action => panic!("not stored: {action:?}"),
    };
    match job.step(JobEvent::Stored(stored)) {
        JobAction::Finish(Ok(entry)) => entry,
        action => panic!("not reported: {action:?}"),
    }
}

#[test]
fn a_dependant_is_told_where_the_artifacts_of_a_run_are() {
    let dep = entry_of_a_run("/db/c0ffee/dep");
    assert_eq!(dep.artifacts_dir(), "/db/c0ffee/dep/artifacts");
    let mut job = job(&["dep"]);
    assert!(matches!(
        job.step(JobEvent::DepFinished(name("dep"), Some(Ok(dep)))),
        JobAction::Lookup
    ));
    let env = job.set_env(
        &Pools::new(vec![]).get(&vec![]).unwrap(),
        "/db/c0ffee/my_test/artifacts",
        job.dep_db_entries(),
    );
    assert!(env.contains(&(
        "LIMMAT_ARTIFACTS_dep".to_owned(),
        "/db/c0ffee/dep/artifacts".to_owned()
    )));
}

#[test]
fn test_job_env() {
    let mut pools = Pools::new(vec![
        tokens("my_resource", &["thing1", "thing2", "thing3"]),
        tokens("other_resource", &["whing1", "whing2", "whing3"]),
    ]);
    let held = pools
        .get(&vec![(ResourceKey::UserToken("my_resource".to_owned()), 2)])
        .unwrap();
    let mut deps: DepDatabaseEntries = Assoc::new();
    deps.insert(name("dep"), entry_of_a_run("/db/c0ffee/dep"));
    let env = job(&[]).set_env(&held, "/db/c0ffee/my_test/artifacts", &deps);
    let get = |var: &str| {
        env.iter()
            .find(|(name, _)| name == var)
            .map(|(_, value)| value.as_str())
    };
    assert_eq!(get("LIMMAT_ORIGIN"), Some("/repo"));
    assert_eq!(get("LIMMAT_COMMIT"), Some("c0ffee"));
    let resource0 = get("LIMMAT_RESOURCE_my_resource_0").expect("didn't get resource0");
    assert!(
        resource0.starts_with("thing"),
        "bad resource 0: {resource0:?}'"
    );
    let resource1 = get("LIMMAT_RESOURCE_my_resource_1").expect("didn't get resource1");
    assert!(
        resource1.starts_with("thing"),
        "bad resource 2: {resource1:?}'"
    );
    assert_eq!(get("LIMMAT_RESOURCE_my_resource_2"), None);
    assert_eq!(get("LIMMAT_RESOURCE_other_resource_0"), None);
    assert_eq!(get("LIMMAT_ARTIFACTS"), Some("/db/c0ffee/my_test/artifacts"));
    assert_eq!(get("LIMMAT_ARTIFACTS_dep"), Some("/db/c0ffee/dep/artifacts"));
    assert_eq!(get("LIMMAT_ARTIFACTS_notdep"), None);
    assert_eq!(env.len(), 6);
}

#[test]
fn a_single_token_has_a_short_name_too() {
    let mut pools = Pools::new(vec![tokens("pokemon", &["moltres"])]);
    let held = pools
        .get(&vec![(ResourceKey::UserToken("pokemon".to_owned()), 1)])
        .unwrap();
    let env = job(&[]).set_env(&held, "/a", &Assoc::new());
    let moltres = "moltres".to_owned();
    assert!(env.contains(&("LIMMAT_RESOURCE_pokemon".to_owned(), moltres.clone())));
    assert!(env.contains(&("LIMMAT_RESOURCE_pokemon_0".to_owned(), moltres)));
}

#[test]
fn observers_learn_about_the_progress() {
    let notifier = TestStatusNotifier::new(case(vec![], 1));
    let notif = notifier.notify(&TestStatus::Started);
    assert_eq!(notif.test_case.commit_hash.as_str(), "c0ffee");
    assert_eq!(notif.status.to_string(), "Started");
    let (notif, outcome) = notifier.notify_completion(Ok(entry(3)));
    assert_eq!(notif.status.to_string(), "exit code 3");
    assert_eq!(outcome.unwrap().exit_code(), 3);
}

#[test]
fn a_job_is_announced_when_it_has_its_resources() {
    let events = vec![
        you_run_it(),
        JobEvent::GotResources(true),
        JobEvent::CheckedOut,
        JobEvent::Spawned,
        exited(4),
        JobEvent::Stored(entry(4)),
    ];
    let announced: Vec<bool> = events.iter().map(announces_start).collect();
    assert_eq!(announced, [false, true, false, false, false, false]);
    assert!(announces_start(&JobEvent::GotResources(false)));
}

#[test]
fn jobs_are_counted() {
    let mut counter = JobCounter::new();
    assert!(counter.zero());
    counter.get();
    counter.get();
    assert!(!counter.zero());
    counter.release();
    assert!(!counter.zero());
    counter.release();
    assert!(counter.zero());
}

#[test]
fn jobs_know_their_case() {
    let job = job(&[]);
    assert_eq!(job.test_name().as_str(), "my_test");
    assert_eq!(job.test_case().storage_hash().as_str(), "c0ffee");
}

use std::sync::Arc;

use limmat::assoc::Assoc;
use limmat::cli::{
    artifacts, dep_results, ensure_job_success, ensure_tests_run, find_config, get, head_commit, judge_lookup,
    lookup, needed_tests, page_title, plan_tests, range_spec, revision, run_once, watch_actions,
    worktrees_needed, CliError, GetOutput, LoopAction, LoopEvent, Lookup, Reply,
    NO_RESULT_FOUND_EXIT_CODE,
};
use limmat::dag::{Dag, GraphNode};
use limmat::database::{Database, DatabaseEntry, DatabaseOutput, LookupStep, OutputStream};
use limmat::git::{Commit, CommitHash, TreeHash};
use limmat::job::{JobAction, TestJob};
use limmat::resource::ResourceKey;
use limmat::test::{
    base_job_env, CachePolicy, Test, TestDag, TestInconclusive, TestName, TestResult,
};

fn name(s: &str) -> TestName {
    TestName::new(s.to_owned())
}

fn a_test(id: &str, depends_on: &[&str], worktree: bool) -> Arc<Test> {
    let mut needs_resources = Assoc::new();
    needs_resources.insert(ResourceKey::UserToken("pokemon".to_owned()), 2);
    if worktree {
        needs_resources.insert(ResourceKey::Worktree, 1);
    }
    Arc::new(Test {
        name: name(id),
        config_hash: "0".to_owned(),
        program: "bash".to_owned(),
        args: vec![],
        needs_resources,
        shutdown_grace_period: 5,
        cache_policy: CachePolicy::ByCommit,
        depends_on: depends_on.iter().map(|s| name(s)).collect(),
        error_exit_codes: vec![],
    })
}

// "top" needs "left" and "right", which both need "base"; "apart" needs nothing.
fn tests() -> TestDag {
    Dag::new(vec![
        a_test("base", &[], true),
        a_test("left", &["base"], true),
        a_test("right", &["base"], false),
        a_test("top", &["left", "right"], true),
        a_test("apart", &[], true),
    ])
    .unwrap()
}

fn commit() -> Commit {
    Commit {
        hash: CommitHash::new("c0ffee".to_owned()),
        tree: TreeHash::new("beef".to_owned()),
    }
}

fn entry(exit_code: i32) -> DatabaseEntry {
    let output = DatabaseOutput::new("/db/c0ffee/t".to_owned(), "0".to_owned());
    output.set_result(&TestResult { exit_code }).0
}

fn names(tests: &[Arc<Test>]) -> Vec<&str> {
    tests.iter().map(|t| t.name.as_str()).collect()
}

fn ids(jobs: &[TestJob]) -> Vec<String> {
    jobs.iter()
        .map(|job| job.test_case().id().as_str().to_owned())
        .collect()
}

#[test]
fn the_configuration_is_looked_for_in_order() {
    let find = |arg: Option<&str>, env: Option<&str>, plain, hidden| {
        find_config(
            arg.map(|s| s.to_owned()),
            env.map(|s| s.to_owned()),
            plain,
            hidden,
        )
        .map_err(|e| e.to_string())
    };
    assert_eq!(find(Some("x"), Some("y"), true, true).unwrap(), "x");
    assert_eq!(find(None, Some("y"), true, true).unwrap(), "y");
    assert_eq!(find(None, Some(""), true, true).unwrap(), "./limmat.toml");
    assert_eq!(find(None, None, true, true).unwrap(), "./limmat.toml");
    assert_eq!(find(None, None, false, true).unwrap(), "./.limmat.toml");
    assert_eq!(
        find(None, None, false, false).unwrap_err(),
        "Neither config nor $LIMMAT_CONFIG were set. No ./limmat.toml or ./.limmat.toml found"
    );
}

#[test]
fn outputs_titles_and_ranges_are_named() {
    assert_eq!(GetOutput::Stdout.to_string(), "stdout");
    assert_eq!(GetOutput::Stderr.to_string(), "stderr");
    assert_eq!(page_title(Some("repo".to_owned())), "Limmat | repo");
    assert_eq!(page_title(None), "Limmat | <unknown>");
    assert_eq!(range_spec("origin/master"), "origin/master..HEAD");
}

#[test]
fn commits_have_to_be_there() {
    assert_eq!(head_commit(Some(commit())).unwrap(), commit());
    assert_eq!(
        head_commit(None).unwrap_err().to_string(),
        "no HEAD commit - repo empty?"
    );
    assert_eq!(revision(Some(commit()), "t").unwrap(), commit());
    assert_eq!(
        revision(None, "t").unwrap_err().to_string(),
        "revision \"t\" not found"
    );
}

#[test]
fn a_test_needs_what_is_below_it() {
    let dag = tests();
    let with = needed_tests(&dag, &name("top"), true).unwrap();
    assert_eq!(with[0].name.as_str(), "top");
    let mut all = names(&with);
    all.sort();
    assert_eq!(all, ["base", "left", "right", "top"]);
    let without = needed_tests(&dag, &name("top"), false).unwrap();
    assert_eq!(names(&without), &names(&with)[1..]);
    assert!(needed_tests(&dag, &name("base"), false).unwrap().is_empty());
    assert_eq!(
        needed_tests(&dag, &name("gone"), true)
            .unwrap_err()
            .to_string(),
        "no such test \"gone\""
    );
}

#[test]
fn needed_tests_are_planned_in_order() {
    let dag = tests();
    for itself in [true, false] {
        let needed = needed_tests(&dag, &name("top"), itself).unwrap();
        let jobs = plan_tests(&needed, &commit(), &base_job_env("/repo"))
            .map_err(|e| e.to_string())
            .unwrap();
        let order = ids(&jobs);
        assert_eq!(order.len(), needed.len());
        assert_eq!(order[0], "c0ffee:base");
        if itself {
            assert_eq!(order[3], "c0ffee:top");
        }
    }
}

#[test]
fn tests_that_form_no_graph_are_refused() {
    let incomplete = vec![a_test("left", &["base"], true)];
    match ensure_tests_run(8, &incomplete, &commit(), "/repo") {
        Err(e) => assert_eq!(
            e.to_string(),
            "setting up dependency test graph: TestCaseId(\"c0ffee:left\") refers to \
             nonexistent TestCaseId(\"c0ffee:base\")"
        ),
        Ok(_) => panic!("accepted"),
    }
}

#[test]
fn worktrees_are_made_only_for_tests_that_need_them() {
    let list = vec![
        a_test("a", &[], true),
        a_test("b", &[], false),
        a_test("c", &[], true),
    ];
    assert_eq!(worktrees_needed(8, &list), 2);
    assert_eq!(worktrees_needed(1, &list), 1);
    assert_eq!(worktrees_needed(0, &list), 0);
    assert_eq!(worktrees_needed(8, &vec![]), 0);
}

#[test]
fn a_one_shot_run_is_planned() {
    let dag = tests();
    let plan = limmat::cli::test(&dag, 8, &name("top"), Some(commit()), "/repo")
        .map_err(|e| e.to_string())
        .unwrap();
    let deps = plan.deps.unwrap();
    assert_eq!(ids(&deps.jobs).len(), 3);
    assert_eq!(deps.num_worktrees, 2);
    assert_eq!(plan.job.test_name().as_str(), "top");
    // It doesn't wait for anything, and needs no worktree.
    assert!(matches!(plan.job.first_action(), JobAction::Lookup));
    assert_eq!(
        plan.wants,
        [(ResourceKey::UserToken("pokemon".to_owned()), 2)]
    );

    let plan = limmat::cli::test(&dag, 8, &name("apart"), Some(commit()), "/repo")
        .map_err(|e| e.to_string())
        .unwrap();
    assert!(plan.deps.is_none());

    let no_head = limmat::cli::test(&dag, 8, &name("top"), None, "/repo");
    assert!(matches!(no_head, Err(CliError::NoHead)));
    let no_test = limmat::cli::test(&dag, 8, &name("gone"), Some(commit()), "/repo");
    assert!(matches!(no_test, Err(CliError::NoSuchTest(_))));
}

#[test]
fn a_one_shot_run_is_started_in_the_repository() {
    let mut job = limmat::cli::test(&tests(), 8, &name("apart"), Some(commit()), "/repo")
        .map_err(|e| e.to_string())
        .unwrap()
        .job;
    let action = run_once(&mut job, "/tmp/out".to_owned());
    assert!(matches!(action, JobAction::Spawn(false)));
    assert_eq!(job.artifacts_dir(), "/tmp/out/artifacts");
    assert_eq!(
        job.streams(),
        (OutputStream::Inherited, OutputStream::Inherited)
    );
}

#[test]
fn a_lookup_is_planned() {
    let dag = tests();
    let plan = lookup(&dag, 1, &name("left"), Some(commit()), true, "/repo")
        .map_err(|e| e.to_string())
        .unwrap();
    let run = plan.run.unwrap();
    assert_eq!(ids(&run.jobs), ["c0ffee:base", "c0ffee:left"]);
    assert_eq!(run.num_worktrees, 1);
    assert_eq!(plan.test_case.id().as_str(), "c0ffee:left");

    let plan = lookup(&dag, 1, &name("left"), Some(commit()), false, "/repo")
        .map_err(|e| e.to_string())
        .unwrap();
    assert!(plan.run.is_none());

    for run in [true, false] {
        let no_rev = lookup(&dag, 1, &name("left"), None, run, "/repo");
        assert!(matches!(no_rev, Err(CliError::NoRevision(_))));
        let no_test = lookup(&dag, 1, &name("gone"), Some(commit()), run, "/repo");
        assert!(matches!(no_test, Err(CliError::NoSuchTest(_))));
    }
}

#[test]
fn dependency_jobs_have_to_succeed() {
    let found = ensure_job_success(&name("t"), Ok(Arc::new(entry(0)))).unwrap();
    assert_eq!(found.exit_code(), 0);
    let message = |outcome| {
        ensure_job_success(&name("t"), outcome)
            .unwrap_err()
            .to_string()
    };
    assert_eq!(
        message(Ok(Arc::new(entry(3)))),
        "dependency job t failed with exit code 3"
    );
    assert_eq!(
        message(Err(TestInconclusive::Canceled)),
        "running dependency job t: Canceled"
    );
    assert_eq!(
        message(Err(TestInconclusive::Error("oh no".to_owned()))),
        "running dependency job t: Error while testing - \"oh no\""
    );
}

#[test]
fn results_of_dependency_jobs_are_collected() {
    let success = |id: &str| (name(id), Ok(Arc::new(entry(0))));
    let results = dep_results(vec![success("a"), success("b")])
        .map_err(|e| e.to_string())
        .unwrap();
    assert_eq!(results.len(), 2);
    assert_eq!(results.get(&name("b")).unwrap().exit_code(), 0);
    let failure = (name("c"), Ok(Arc::new(entry(5))));
    let canceled = (name("d"), Err(TestInconclusive::Canceled));
    assert_eq!(
        dep_results(vec![success("a"), failure, canceled])
            .unwrap_err()
            .to_string(),
        "dependency job c failed with exit code 5"
    );
}

#[test]
fn lookups_are_judged() {
    let judge = |step, ran| {
        judge_lookup(
            step,
            ran,
            &name("t"),
            "HEAD^",
            &CommitHash::new("c0ffee".to_owned()),
        )
    };
    let output = || DatabaseOutput::new("/db".to_owned(), "0".to_owned());
    assert!(matches!(
        judge(LookupStep::FoundResult(entry(0)), true),
        Ok(Lookup::Found(_))
    ));
    assert!(matches!(
        judge(LookupStep::YouRunIt(output()), false),
        Ok(Lookup::Nothing)
    ));
    assert_eq!(
        judge(LookupStep::YouRunIt(output()), true)
            .unwrap_err()
            .to_string(),
        "no database entry for test \"t\" at revision \"HEAD^\" after running (c0ffee)"
    );
    assert!(matches!(judge(LookupStep::Upgrade, true), Ok(Lookup::GoOn)));
    assert!(matches!(judge(LookupStep::Retry, true), Ok(Lookup::GoOn)));
    assert_eq!(
        judge(LookupStep::Contention, false)
            .unwrap_err()
            .to_string(),
        "database lookup: too much database contention, something fishy going on"
    );
}

#[test]
fn paths_are_answered() {
    let reply = |line: &str| Reply {
        line: Some(line.to_owned()),
        exit_code: 0,
    };
    let nothing = Reply {
        line: None,
        exit_code: 50,
    };
    assert_eq!(NO_RESULT_FOUND_EXIT_CODE, 50);
    let entry = entry(1);
    assert_eq!(
        get(Some(&entry), GetOutput::Stdout),
        reply("/db/c0ffee/t/stdout.txt")
    );
    assert_eq!(
        get(Some(&entry), GetOutput::Stderr),
        reply("/db/c0ffee/t/stderr.txt")
    );
    assert_eq!(get(None, GetOutput::Stdout), nothing);
    assert_eq!(artifacts(Some(&entry)), reply("/db/c0ffee/t/artifacts"));
    assert_eq!(artifacts(None), nothing);
}

#[test]
fn the_main_loop_reacts() {
    assert_eq!(
        watch_actions(LoopEvent::Revisions),
        [
            LoopAction::SetRevisions,
            LoopAction::SetRange,
            LoopAction::Repaint
        ]
    );
    assert_eq!(
        watch_actions(LoopEvent::Notification),
        [LoopAction::UpdateView, LoopAction::Repaint]
    );
    assert_eq!(watch_actions(LoopEvent::Resize), [LoopAction::Repaint]);
    assert_eq!(
        watch_actions(LoopEvent::Shutdown),
        [
            LoopAction::CancelRunning,
            LoopAction::CloseView,
            LoopAction::Settle
        ]
    );
}

#[test]
fn what_was_run_is_found_where_it_was_stored() {
    let db = Database::create_or_open("/db");
    let plan = lookup(&tests(), 1, &name("left"), Some(commit()), false, "/repo")
        .map_err(|e| e.to_string())
        .unwrap();
    assert_eq!(db.lookup(&plan.test_case).result_dir(), "/db/c0ffee/left");
}

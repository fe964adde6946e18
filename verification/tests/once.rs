//! One-shot runs against a database that is kept in memory.
use std::collections::HashMap;
use std::sync::Arc;

use limmat::assoc::Assoc;
use limmat::cli::{dep_results, run_once};
use limmat::dag::Dag;
use limmat::database::{Content, Database, LookupStep, TestResultEntry};
use limmat::git::{Commit, CommitHash, TreeHash};
use limmat::job::{JobAction, JobEvent, TestJob};
use limmat::process::ExitStatus;
use limmat::resource::ResourceKey;
use limmat::test::{
    copy_outcome, CachePolicy, Test, TestCase, TestDag, TestName, TestOutcome,
};

fn name(s: &str) -> TestName {
    TestName::new(s.to_owned())
}

fn a_test(id: &str, depends_on: &[&str], cache_policy: CachePolicy) -> Arc<Test> {
    let mut needs_resources = Assoc::new();
    needs_resources.insert(ResourceKey::Worktree, 1);
    Arc::new(Test {
        name: name(id),
        config_hash: format!("hash of {id}"),
        program: "bash".to_owned(),
        args: vec![],
        needs_resources,
        shutdown_grace_period: 1,
        cache_policy,
        depends_on: depends_on.iter().map(|s| name(s)).collect(),
        error_exit_codes: vec![],
    })
}

fn tests(cache_policy: CachePolicy) -> TestDag {
    Dag::new(vec![
        a_test("nobody_cares", &[], cache_policy),
        a_test("my_dep", &[], cache_policy),
        a_test("my_transitive_dep", &[], cache_policy),
        a_test("my_other_dep", &["my_transitive_dep"], cache_policy),
        a_test("my_test", &["my_dep", "my_other_dep"], cache_policy),
    ])
    .unwrap()
}

// What the files with results hold, and what was run where.
struct World {
    files: HashMap<String, TestResultEntry>,
    ran: Vec<String>,
}

impl World {
    fn new() -> Self {
        World {
            files: HashMap::new(),
            ran: vec![],
        }
    }

    fn look_up(&self, test_case: &TestCase) -> JobEvent {
        let mut lookup = Database::create_or_open("/db").lookup(test_case);
        loop {
            let content = match self.files.get(&lookup.json_path()) {
                Some(entry) => Content::Entry(entry.clone()),
                None => Content::Empty,
            };
            match lookup.step(content) {
                LookupStep::Upgrade => (),
                LookupStep::FoundResult(entry) => return JobEvent::FoundResult(Arc::new(entry)),
                LookupStep::YouRunIt(output) => return JobEvent::YouRunIt(output),
                step => panic!("nobody else uses the database: {step:?}"),
            }
        }
    }

    // Takes a job to its end. Every command exits with 0.
    fn perform(
        &mut self,
        mut job: TestJob,
        mut action: JobAction,
        finished: &[(TestName, TestOutcome)],
    ) -> TestOutcome {
        let mut waiting = finished
            .iter()
            .filter(|(name, _)| job.test_case().test.depends_on.contains(name))
            .map(|(name, outcome)| (name.clone(), copy_outcome(outcome)))
            .collect::<Vec<_>>();
        loop {
            let event = match action {
                JobAction::AwaitDeps => {
                    let (name, outcome) = waiting.pop().unwrap();
                    JobEvent::DepFinished(name, Some(outcome))
                }
                JobAction::Lookup => self.look_up(job.test_case()),
                JobAction::AwaitResources => {
                    JobEvent::GotResources(job.test_case().test.needs_worktree())
                }
                JobAction::Checkout => JobEvent::CheckedOut,
                JobAction::Spawn(in_worktree) => {
                    let place = if in_worktree { "worktree" } else { "main" };
                    self.ran.push(format!("{} {place}", job.test_name().as_str()));
                    JobEvent::Spawned
                }
                JobAction::AwaitChild => JobEvent::ChildEnded(Ok(ExitStatus::Exited(0))),
                JobAction::Store(entry, file) => {
                    if let Some(file) = file {
                        self.files.insert(file, entry.stored().clone());
                    }
                    JobEvent::Stored(entry)
                }
                JobAction::Finish(outcome) => return outcome,
                action => panic!("nothing is canceled: {action:?}"),
            };
            action = job.step(event);
        }
    }

    fn test(&mut self, dag: &TestDag, id: &str) -> Vec<String> {
        self.ran.clear();
        let head = Commit {
            hash: CommitHash::new("c0ffee".to_owned()),
            tree: TreeHash::new("beef".to_owned()),
        };
        let mut plan = limmat::cli::test(dag, 1, &name(id), Some(head), "/repo")
            .map_err(|e| e.to_string())
            .unwrap();
        let mut finished: Vec<(TestName, TestOutcome)> = vec![];
        for job in plan.deps.map_or(vec![], |deps| deps.jobs) {
            let name = job.test_name().clone();
            let action = job.first_action();
            let outcome = self.perform(job, action, &finished);
            finished.push((name, outcome));
        }
        let deps = dep_results(finished).map_err(|e| e.to_string()).unwrap();
        assert_eq!(deps.get(&name(id)), None);
        let action = run_once(&mut plan.job, "/tmp/out".to_owned());
        let outcome = self.perform(plan.job, action, &[]);
        assert_eq!(outcome.unwrap().exit_code(), 0);
        let mut ran = self.ran.clone();
        ran.sort();
        ran
    }
}

#[test]
fn a_one_shot_run_uses_stored_results() {
    let dag = tests(CachePolicy::ByCommit);
    let mut world = World::new();
    assert_eq!(
        world.test(&dag, "my_other_dep"),
        ["my_other_dep main", "my_transitive_dep worktree"]
    );
    assert_eq!(
        world.files.keys().collect::<Vec<_>>(),
        ["/db/c0ffee/my_transitive_dep/result.json"]
    );
    // The result of the other dependency was not stored, so that one is run.
    assert_eq!(
        world.test(&dag, "my_test"),
        ["my_dep worktree", "my_other_dep worktree", "my_test main"]
    );
}

#[test]
fn a_second_one_shot_run_runs_only_its_test() {
    let dag = tests(CachePolicy::ByTree);
    let mut world = World::new();
    assert_eq!(
        world.test(&dag, "my_test"),
        [
            "my_dep worktree",
            "my_other_dep worktree",
            "my_test main",
            "my_transitive_dep worktree"
        ]
    );
    let after_first = world.files.clone();
    assert!(!after_first.contains_key("/db/beef/my_test/result.json"));
    assert_eq!(after_first.len(), 3);
    assert_eq!(world.test(&dag, "my_test"), ["my_test main"]);
    assert_eq!(world.files, after_first);
}

#[test]
fn names_may_lead_to_subdirectories() {
    let policy = CachePolicy::ByCommit;
    let dag = Dag::new(vec![
        a_test("lint", &[], policy),
        a_test("lint/clippy", &["lint"], policy),
        a_test("all", &["lint/clippy"], policy),
    ])
    .unwrap();
    let mut world = World::new();
    assert_eq!(
        world.test(&dag, "all"),
        ["all main", "lint worktree", "lint/clippy worktree"]
    );
    let mut files: Vec<&String> = world.files.keys().collect();
    files.sort();
    assert_eq!(
        files,
        [
            "/db/c0ffee/lint/clippy/result.json",
            "/db/c0ffee/lint/result.json"
        ]
    );
    assert_eq!(world.test(&dag, "all"), ["all main"]);
}

#[test]
fn without_caching_everything_is_run_again() {
    let dag = tests(CachePolicy::NoCaching);
    let mut world = World::new();
    let first = world.test(&dag, "my_other_dep");
    assert_eq!(first, ["my_other_dep main", "my_transitive_dep worktree"]);
    assert_eq!(world.test(&dag, "my_other_dep"), first);
}

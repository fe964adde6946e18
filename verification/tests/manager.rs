use std::sync::Arc;

use limmat::assoc::Assoc;
use limmat::dag::{Dag, DagError, GraphNode};
use limmat::git::{Commit, CommitHash, TreeHash};
use limmat::job::JobAction;
use limmat::manager::{jobs_in_order, Manager, Plan};
use limmat::test::{base_job_env, CachePolicy, Test, TestCase, TestDag, TestName};

fn name(s: &str) -> TestName {
    TestName::new(s.to_owned())
}

fn test(id: &str, depends_on: &[&str]) -> Arc<Test> {
    Arc::new(Test {
        name: name(id),
        config_hash: "0".to_owned(),
        program: "bash".to_owned(),
        args: vec![],
        needs_resources: Assoc::new(),
        shutdown_grace_period: 5,
        cache_policy: CachePolicy::ByCommit,
        depends_on: depends_on.iter().map(|s| name(s)).collect(),
        error_exit_codes: vec![],
    })
}

fn commit(hash: &str) -> Commit {
    Commit {
        hash: CommitHash::new(hash.to_owned()),
        tree: TreeHash::new(format!("7ee{hash}")),
    }
}

fn commits(hashes: &[&str]) -> Vec<Commit> {
    hashes.iter().map(|h| commit(h)).collect()
}

fn tests() -> TestDag {
    Dag::new(vec![
        test("last", &["middle", "first"]),
        test("first", &[]),
        test("middle", &["first"]),
    ])
    .unwrap()
}

fn started(plan: &Plan) -> Vec<String> {
    plan.start
        .iter()
        .map(|job| job.test_case().id().as_str().to_owned())
        .collect()
}

fn sorted(mut v: Vec<String>) -> Vec<String> {
    v.sort();
    v
}

fn canceled(plan: &Plan) -> Vec<String> {
    sorted(plan.cancel.iter().map(|id| id.as_str().to_owned()).collect())
}

#[test]
fn every_test_is_run_at_every_commit() {
    let mut manager = Manager::new("/repo", tests());
    let plan = manager.set_commits(&commits(&["a", "b"]));
    assert!(plan.cancel.is_empty());
    assert_eq!(
        sorted(started(&plan)),
        ["a:first", "a:last", "a:middle", "b:first", "b:last", "b:middle"]
    );
}

#[test]
fn jobs_come_after_those_that_they_depend_on() {
    let mut manager = Manager::new("/repo", tests());
    let plan = manager.set_commits(&commits(&["a", "b"]));
    let order = started(&plan);
    let position = |id: &str| order.iter().position(|x| x == id).unwrap();
    for c in ["a", "b"] {
        assert!(position(&format!("{c}:first")) < position(&format!("{c}:middle")));
        assert!(position(&format!("{c}:middle")) < position(&format!("{c}:last")));
    }
    for job in &plan.start {
        match (job.test_name().as_str(), job.first_action()) {
            ("first", JobAction::Lookup) => (),
            ("middle" | "last", JobAction::AwaitDeps) => (),
            (name, action) => panic!("{name}: {action:?}"),
        }
    }
}

#[test]
fn every_job_is_announced_once() {
    let mut manager = Manager::new("/repo", tests());
    let plan = manager.set_commits(&commits(&["a", "b"]));
    let news = plan.announcements();
    let announced: Vec<String> = news
        .iter()
        .map(|notif| {
            assert_eq!(notif.status.to_string(), "Enqueued");
            notif.test_case.id().as_str().to_owned()
        })
        .collect();
    assert_eq!(announced, started(&plan));
    assert!(manager
        .set_commits(&commits(&["a", "b"]))
        .announcements()
        .is_empty());
}

#[test]
fn jobs_for_other_commits_are_canceled() {
    let mut manager = Manager::new("/repo", Dag::new(vec![test("t", &[])]).unwrap());
    manager.set_commits(&commits(&["a", "b"]));
    let plan = manager.set_commits(&commits(&["b", "c"]));
    assert_eq!(canceled(&plan), ["a:t"]);
    assert_eq!(started(&plan), ["c:t"]);
    // What was canceled is started again when it is wanted again.
    let plan = manager.set_commits(&commits(&["a"]));
    assert_eq!(canceled(&plan), ["b:t", "c:t"]);
    assert_eq!(started(&plan), ["a:t"]);
}

#[test]
fn the_same_commits_change_nothing() {
    let mut manager = Manager::new("/repo", tests());
    manager.set_commits(&commits(&["a", "b"]));
    let plan = manager.set_commits(&commits(&["b", "a"]));
    assert!(plan.cancel.is_empty());
    assert!(plan.start.is_empty());
}

#[test]
fn a_commit_that_is_listed_twice_is_tested_once() {
    let mut manager = Manager::new("/repo", Dag::new(vec![test("t", &[])]).unwrap());
    let plan = manager.set_commits(&commits(&["a", "a"]));
    assert_eq!(started(&plan), ["a:t"]);
}

#[test]
fn everything_can_be_canceled() {
    let mut manager = Manager::new("/repo", tests());
    manager.set_commits(&commits(&["a"]));
    let ids = manager.cancel_running();
    assert_eq!(
        sorted(ids.iter().map(|id| id.as_str().to_owned()).collect()),
        ["a:first", "a:last", "a:middle"]
    );
    assert!(manager.cancel_running().is_empty());
    assert_eq!(manager.set_commits(&commits(&["a"])).start.len(), 3);
}

#[test]
fn many_commits_can_be_handled() {
    let mut manager = Manager::new("/repo", tests());
    let hashes: Vec<String> = (0..50).map(|i| format!("c{i}")).collect();
    let hashes: Vec<&str> = hashes.iter().map(|s| s.as_str()).collect();
    assert_eq!(manager.set_commits(&commits(&hashes)).start.len(), 150);
    let plan = manager.set_commits(&commits(&hashes[25..]));
    assert_eq!(plan.cancel.len(), 75);
    assert!(plan.start.is_empty());
}

#[test]
fn jobs_share_the_environment() {
    let mut manager = Manager::new("/repo", Dag::new(vec![test("t", &[])]).unwrap());
    let plan = manager.set_commits(&commits(&["a"]));
    let held = limmat::resource::Pools::new(vec![]).get(&vec![]).unwrap();
    let env = plan.start[0].set_env(&held, "/artifacts", &Assoc::new());
    assert_eq!(env.len(), 3);
    assert!(env.contains(&("LIMMAT_ORIGIN".to_owned(), "/repo".to_owned())));
}

#[test]
fn revisions_have_to_be_there() {
    let mut manager = Manager::new("/repo", Dag::new(vec![test("t", &[])]).unwrap());
    let hash = |s: &str| CommitHash::new(s.to_owned());
    let plan = manager
        .set_revisions(vec![
            (hash("a"), Some(commit("a"))),
            (hash("b"), Some(commit("b"))),
        ])
        .unwrap_or_else(|e| panic!("{e:?}"));
    assert_eq!(sorted(started(&plan)), ["a:t", "b:t"]);
    match manager.set_revisions(vec![(hash("c"), Some(commit("c"))), (hash("d"), None)]) {
        Err(e) => assert_eq!(e.to_string(), "no such revision CommitHash(\"d\")"),
        Ok(_) => panic!("accepted"),
    }
    // Nothing was changed.
    let plan = manager.set_commits(&commits(&["a", "b"]));
    assert!(plan.cancel.is_empty() && plan.start.is_empty());
}

#[test]
fn cases_that_form_no_graph_are_refused() {
    let cases = vec![TestCase::new(commit("a"), test("t", &["gone"]))];
    match jobs_in_order(cases, &base_job_env("/repo")) {
        Err(DagError::NoSuchChild { parent, child }) => {
            assert_eq!(parent.as_str(), "a:t");
            assert_eq!(child.as_str(), "a:gone");
        }
        _ => panic!("accepted"),
    }
}

//! Which jobs run: for the current set of commits, those of every test.
use std::sync::Arc;

use crate::dag;
use crate::dag::{Dag, DagError, GraphNode};
use crate::database::DatabaseEntry;
use crate::git::{Commit, CommitHash};
use crate::ident;
use crate::ident::Ident;
use crate::job::{Phase, TestJob, TestJobBuilder};
use crate::test::{JobEnv, Notification, Test, TestCase, TestCaseId, TestDag, TestStatus};
use vstd::prelude::*;

verus! {

/// The identifiers of commits.
pub open spec fn hashes(commits: Seq<Commit>) -> Seq<Seq<char>> {
    Seq::new(commits.len(), |i: int| commits[i].hash@)
}

/// `id` identifies the case of one of the tests at one of the commits.
pub open spec fn is_case(commits: Seq<Seq<char>>, names: Seq<Seq<char>>, id: Seq<char>) -> bool {
    exists|i: int, j: int|
        0 <= i < commits.len() && 0 <= j < names.len() && id == #[trigger] crate::test::case_id(
            commits[i],
            names[j],
        )
}

/// `case` is one of the tests, applied to one of the commits.
pub open spec fn case_of(commits: Seq<Commit>, tests: Seq<Arc<Test>>, case: TestCase) -> bool {
    exists|i: int, j: int|
        0 <= i < commits.len() && 0 <= j < tests.len() && applies(
            #[trigger] commits[i],
            #[trigger] tests[j],
            case,
        )
}

/// `case` is the test, applied to the commit.
pub open spec fn applies(commit: Commit, test: Arc<Test>, case: TestCase) -> bool {
    &&& case.commit_hash == commit.hash
    &&& case.test == test
    &&& crate::test::hash_view(case.cache_hash) == test.cache_policy.filed_under(commit)
}

/// The identifiers of the cases that jobs are for.
pub open spec fn job_ids(jobs: Seq<TestJob>) -> Seq<Seq<char>> {
    Seq::new(jobs.len(), |i: int| jobs[i].case().node_id())
}

/// Whether every job comes after those for the tests that its test depends on.
pub open spec fn dependencies_first(jobs: Seq<TestJob>) -> bool {
    forall|k: int, d: int|
        #![trigger jobs[k].case().node_children()[d]]
        0 <= k < jobs.len() && 0 <= d < jobs[k].case().node_children().len() ==> job_ids(
            jobs,
        ).take(k).contains(jobs[k].case().node_children()[d])
}

/// `ids` are the identifiers of the cases of all tests at all commits, each
/// once.
pub open spec fn exactly_cases(
    ids: Seq<Seq<char>>,
    commits: Seq<Seq<char>>,
    names: Seq<Seq<char>>,
) -> bool {
    &&& ids.no_duplicates()
    &&& forall|id: Seq<char>| #[trigger] ids.contains(id) <==> is_case(commits, names, id)
}

/// The right thing to do about the jobs `running` when `commits` are to be
/// tested: cancel those that are not for one of the commits, and start those
/// that are missing, each once.
pub open spec fn right_plan(
    running: Seq<Seq<char>>,
    commits: Seq<Seq<char>>,
    names: Seq<Seq<char>>,
    cancel: Seq<Seq<char>>,
    start: Seq<Seq<char>>,
) -> bool {
    &&& cancel.no_duplicates()
    &&& forall|id: Seq<char>| #[trigger]
        cancel.contains(id) <==> running.contains(id) && !is_case(commits, names, id)
    &&& start.no_duplicates()
    &&& forall|id: Seq<char>| #[trigger]
        start.contains(id) <==> is_case(commits, names, id) && !running.contains(id)
}

/// A job that is wanted before and after is left alone; the jobs afterwards
/// are those that were not canceled together with those that were started.
pub proof fn lemma_plan_balances(
    running: Seq<Seq<char>>,
    commits: Seq<Seq<char>>,
    names: Seq<Seq<char>>,
    cancel: Seq<Seq<char>>,
    start: Seq<Seq<char>>,
    after: Seq<Seq<char>>,
    id: Seq<char>,
)
    requires
        right_plan(running, commits, names, cancel, start),
        exactly_cases(after, commits, names),
    ensures
        after.contains(id) <==> (running.contains(id) && !cancel.contains(id)) || start.contains(id),
        running.contains(id) && after.contains(id) ==> !cancel.contains(id) && !start.contains(id),
{
    assert(after.contains(id) <==> is_case(commits, names, id));
    assert(cancel.contains(id) <==> running.contains(id) && !is_case(commits, names, id));
    assert(start.contains(id) <==> is_case(commits, names, id) && !running.contains(id));
}

/// To ask for the same commits again changes nothing.
pub proof fn lemma_same_commits_change_nothing(
    running: Seq<Seq<char>>,
    commits: Seq<Seq<char>>,
    names: Seq<Seq<char>>,
    cancel: Seq<Seq<char>>,
    start: Seq<Seq<char>>,
)
    requires
        exactly_cases(running, commits, names),
        right_plan(running, commits, names, cancel, start),
    ensures
        cancel.len() == 0,
        start.len() == 0,
{
    if cancel.len() > 0 {
        assert(cancel.contains(cancel[0]));
        assert(running.contains(cancel[0]));
    }
    if start.len() > 0 {
        assert(start.contains(start[0]));
        assert(running.contains(start[0]) <==> is_case(commits, names, start[0]));
    }
}

/// What to do when the set of commits changes.
pub struct Plan {
    /// The jobs that are no longer wanted.
    pub cancel: Vec<TestCaseId>,
    /// The jobs to start, each after those that it waits for.
    pub start: Vec<TestJob>,
}

impl Plan {
    /// The news that the jobs to start wait for their turn, one for each of
    /// them.
    pub fn announcements(&self) -> (r: Vec<Notification>)
        ensures
            r@.len() == self.start@.len(),
            forall|k: int|
                0 <= k < r@.len() ==> (#[trigger] r@[k]).test_case == self.start@[k].case()
                    && r@[k].status == TestStatus::Enqueued,
    {
        let mut out: Vec<Notification> = Vec::new();
        let mut i: usize = 0;
        while i < self.start.len()
            invariant
                i <= self.start@.len(),
                out@.len() == i,
                forall|k: int|
                    0 <= k < i ==> (#[trigger] out@[k]).test_case == self.start@[k].case()
                        && out@[k].status == TestStatus::Enqueued,
            decreases self.start@.len() - i,
        {
            let test_case = self.start[i].test_case().clone();
            out.push(Notification { test_case, status: TestStatus::Enqueued });
            i += 1;
        }
        out
    }
}

/// Decides which jobs run for the current set of revisions.
pub struct Manager {
    tests: TestDag,
    job_env: JobEnv,
    job_ids: Vec<TestCaseId>,
    commits: Ghost<Seq<Seq<char>>>,
}

/// Every case is one of the tests, at a usable commit, and the cases of all
/// the tests at that commit are there.
spec fn complete_cases(cases: Seq<TestCase>, tests: Seq<Arc<Test>>) -> bool {
    &&& forall|k: int|
        0 <= k < cases.len() ==> crate::test::plain_hash((#[trigger] cases[k]).commit_hash@)
            && tests.contains(cases[k].test)
    &&& forall|k: int, m: int|
        0 <= k < cases.len() && 0 <= m < tests.len() ==> #[trigger] has_case(
            cases,
            cases[k].commit_hash@,
            tests[m].node_id(),
        )
}

/// The case of a test at a commit is there.
spec fn has_case(cases: Seq<TestCase>, commit: Seq<char>, name: Seq<char>) -> bool {
    dag::ids(cases).contains(crate::test::case_id(commit, name))
}

/// The tests that a test depends on have cases at its commit.
proof fn lemma_case_children_present(cases: Seq<TestCase>, tests: Seq<Arc<Test>>)
    requires
        dag::children_present(tests),
        complete_cases(cases, tests),
    ensures
        dag::children_present(cases),
{
    let names = dag::ids(tests);
    let ids = dag::ids(cases);
    assert forall|k: int| 0 <= k < cases.len() implies dag::all_present(
        ids,
        (#[trigger] cases[k]).node_children(),
    ) by {
        let test = cases[k].test;
        let t = tests.index_of(test);
        assert(tests[t] == test);
        assert(dag::all_present(names, tests[t].node_children()));
        assert forall|j: int| 0 <= j < cases[k].node_children().len() implies ids.contains(
            #[trigger] cases[k].node_children()[j],
        ) by {
            let d = test.node_children()[j];
            assert(names.contains(d));
            let m = names.index_of(d);
            assert(tests[m].node_id() == d);
            assert(has_case(cases, cases[k].commit_hash@, tests[m].node_id()));
        }
    }
}

/// Where the test of a case stands among the tests.
spec fn test_position(tests: Seq<Arc<Test>>, case: TestCase) -> usize {
    ident::last_position(dag::ids(tests), case.test.name@) as usize
}

/// An edge between cases lies over one between their tests.
proof fn lemma_case_edge(cases: Seq<TestCase>, tests: Seq<Arc<Test>>, a: usize, b: usize)
    requires
        cases.len() <= usize::MAX,
        tests.len() <= usize::MAX,
        dag::ids(tests).no_duplicates(),
        dag::children_present(tests),
        dag::children_present(cases),
        complete_cases(cases, tests),
        dag::has_edge(dag::adjacency(cases), a, b),
    ensures
        dag::has_edge(
            dag::adjacency(tests),
            test_position(tests, cases[a as int]),
            test_position(tests, cases[b as int]),
        ),
{
    let names = dag::ids(tests);
    let ids = dag::ids(cases);
    let g = dag::adjacency(cases);
    let h = dag::adjacency(tests);
    let j = g[a as int].index_of(b);
    let test = cases[a as int].test;
    let child = cases[a as int].node_children()[j];
    assert(g[a as int][j] == b);
    assert(dag::all_present(ids, cases[a as int].node_children()));
    assert(ids.contains(child));
    ident::lemma_last_position(ids, child);
    assert(ids[b as int] == child);
    let d = test.depends_on@[j]@;
    assert(crate::test::plain_hash(cases[a as int].commit_hash@));
    assert(crate::test::plain_hash(cases[b as int].commit_hash@));
    crate::test::lemma_case_id_injective(
        cases[a as int].commit_hash@,
        d,
        cases[b as int].commit_hash@,
        cases[b as int].test.name@,
    );
    let t = tests.index_of(test);
    assert(tests[t] == test);
    assert(names[t] == test.name@);
    assert forall|i: int| t < i < names.len() implies names[i] != test.name@ by {}
    ident::lemma_last_position_is(names, test.name@, t);
    assert(test.node_children()[j] == d);
    assert(h[t] == dag::positions(names, tests[t].node_children()));
    assert(h[t][j] == test_position(tests, cases[b as int]));
}

/// The cases of all the tests at some commits can be put in order: the tests
/// that a test depends on are there, and there is no cycle among them.
proof fn lemma_cases_form_dag(cases: Seq<TestCase>, tests: Seq<Arc<Test>>)
    requires
        cases.len() <= usize::MAX,
        tests.len() <= usize::MAX,
        dag::ids(cases).no_duplicates(),
        dag::ids(tests).no_duplicates(),
        dag::children_present(tests),
        dag::in_bounds(dag::adjacency(tests)),
        dag::acyclic(dag::adjacency(tests)),
        complete_cases(cases, tests),
    ensures
        dag::children_present(cases),
        dag::in_bounds(dag::adjacency(cases)),
        dag::acyclic(dag::adjacency(cases)),
{
    lemma_case_children_present(cases, tests);
    dag::lemma_adjacency_in_bounds(cases);
    let g = dag::adjacency(cases);
    let h = dag::adjacency(tests);
    let image = |v: usize| test_position(tests, cases[v as int]);
    assert forall|a: usize, b: usize| #[trigger] dag::has_edge(g, a, b) implies dag::has_edge(
        h,
        image(a),
        image(b),
    ) by {
        lemma_case_edge(cases, tests, a, b);
    }
    dag::lemma_acyclic_below(g, h, image);
}

/// Whether one of the identifiers is the given one.
fn has_id(ids: &Vec<TestCaseId>, id: &TestCaseId) -> (r: bool)
    ensures
        r == ident::views(ids@).contains(id@),
{
    let mut i: usize = 0;
    while i < ids.len()
        invariant
            i <= ids@.len(),
            forall|k: int| 0 <= k < i ==> (#[trigger] ids@[k])@ != id@,
        decreases ids@.len() - i,
    {
        if ids[i].same(id) {
            assert(ident::views(ids@)[i as int] == id@);
            return true;
        }
        i += 1;
    }
    assert forall|k: int| 0 <= k < ids@.len() implies ident::views(ids@)[k] != id@ by {
        assert(ident::views(ids@)[k] == ids@[k]@);
    }
    false
}

/// Where the case with the given identifier stands.
fn find_case(cases: &Vec<TestCase>, id: &TestCaseId) -> (r: Option<usize>)
    ensures
        r is Some <==> dag::ids(cases@).contains(id@),
        r matches Some(i) ==> i < cases@.len() && cases@[i as int].node_id() == id@,
{
    let mut i: usize = 0;
    while i < cases.len()
        invariant
            i <= cases@.len(),
            forall|k: int| 0 <= k < i ==> dag::ids(cases@)[k] != id@,
        decreases cases@.len() - i,
    {
        if cases[i].id().same(id) {
            assert(dag::ids(cases@)[i as int] == id@);
            return Some(i);
        }
        i += 1;
    }
    None
}

/// The environment, once more.
fn copy_env(env: &JobEnv) -> (r: JobEnv)
    ensures
        r@ == env@,
{
    let mut out: JobEnv = Vec::new();
    let mut i: usize = 0;
    while i < env.len()
        invariant
            i <= env@.len(),
            out@ =~= env@.take(i as int),
        decreases env@.len() - i,
    {
        out.push((env[i].0.clone(), env[i].1.clone()));
        i += 1;
    }
    assert(env@.take(i as int) =~= env@);
    out
}

/// The cases of the tests at the commits, each once.
fn all_cases(commits: &Vec<Commit>, tests: &Vec<Arc<Test>>) -> (r: Vec<TestCase>)
    ensures
        dag::ids(r@).no_duplicates(),
        forall|id: Seq<char>| #[trigger]
            dag::ids(r@).contains(id) <==> is_case(hashes(commits@), dag::ids(tests@), id),
        forall|k: int| 0 <= k < r@.len() ==> case_of(commits@, tests@, #[trigger] r@[k]),
{
    let ghost hs = hashes(commits@);
    let ghost names = dag::ids(tests@);
    let mut cases: Vec<TestCase> = Vec::new();
    let mut i: usize = 0;
    while i < commits.len()
        invariant
            i <= commits@.len(),
            hs == hashes(commits@),
            names == dag::ids(tests@),
            dag::ids(cases@).no_duplicates(),
            forall|id: Seq<char>| #[trigger]
                dag::ids(cases@).contains(id) <==> is_case(hs.take(i as int), names, id),
            forall|k: int|
                0 <= k < cases@.len() ==> case_of(commits@, tests@, #[trigger] cases@[k]),
        decreases commits@.len() - i,
    {
        let mut j: usize = 0;
        while j < tests.len()
            invariant
                i < commits@.len(),
                j <= tests@.len(),
                hs == hashes(commits@),
                names == dag::ids(tests@),
                dag::ids(cases@).no_duplicates(),
                forall|id: Seq<char>| #[trigger]
                    dag::ids(cases@).contains(id) <==> is_case(hs.take(i as int), names, id)
                        || is_case(seq![hs[i as int]], names.take(j as int), id),
                forall|k: int|
                    0 <= k < cases@.len() ==> case_of(commits@, tests@, #[trigger] cases@[k]),
            decreases tests@.len() - j,
        {
            let case = TestCase::new(commits[i].clone(), crate::test::share(&tests[j]));
            let id = case.id();
            let ghost before = cases@;
            let ghost old_ids = dag::ids(cases@);
            proof {
                assert(applies(commits@[i as int], tests@[j as int], case));
                assert(id@ == crate::test::case_id(hs[i as int], names[j as int]));
                assert forall|x: Seq<char>| #[trigger]
                    is_case(seq![hs[i as int]], names.take(j + 1), x) <==> is_case(
                        seq![hs[i as int]],
                        names.take(j as int),
                        x,
                    ) || x == id@ by {
                    if is_case(seq![hs[i as int]], names.take(j + 1), x) {
                        let (a, b) = choose|a: int, b: int|
                            0 <= a < 1 && 0 <= b < j + 1 && x == #[trigger] crate::test::case_id(
                                seq![hs[i as int]][a],
                                names.take(j + 1)[b],
                            );
                        if b < j {
                            assert(x == crate::test::case_id(
                                seq![hs[i as int]][a],
                                names.take(j as int)[b],
                            ));
                        }
                    }
                    if is_case(seq![hs[i as int]], names.take(j as int), x) {
                        let (a, b) = choose|a: int, b: int|
                            0 <= a < 1 && 0 <= b < j && x == #[trigger] crate::test::case_id(
                                seq![hs[i as int]][a],
                                names.take(j as int)[b],
                            );
                        assert(x == crate::test::case_id(
                            seq![hs[i as int]][a],
                            names.take(j + 1)[b],
                        ));
                    }
                    if x == id@ {
                        assert(x == crate::test::case_id(
                            seq![hs[i as int]][0],
                            names.take(j + 1)[j as int],
                        ));
                    }
                }
            }
            match find_case(&cases, &id) {
                Some(k) => {
                    cases.set(k, case);
                    assert(dag::ids(cases@) =~= old_ids);
                },
                None => {
                    cases.push(case);
                    proof {
                        let ids = dag::ids(cases@);
                        assert(ids =~= old_ids.push(id@));
                        assert forall|x: Seq<char>| #[trigger] ids.contains(x) <==> old_ids.contains(
                            x,
                        ) || x == id@ by {
                            if old_ids.contains(x) {
                                assert(ids[old_ids.index_of(x)] == x);
                            }
                            if x == id@ {
                                assert(ids[old_ids.len() as int] == x);
                            }
                        }
                        assert forall|a: int, b: int|
                            0 <= a < ids.len() && 0 <= b < ids.len() && a != b implies ids[a]
                            != ids[b] by {
                            if a < old_ids.len() {
                                assert(old_ids.contains(old_ids[a]));
                            }
                            if b < old_ids.len() {
                                assert(old_ids.contains(old_ids[b]));
                            }
                        }
                    }
                },
            }
            j += 1;
        }
        proof {
            assert(names.take(j as int) =~= names);
            assert forall|x: Seq<char>| #[trigger] is_case(hs.take(i + 1), names, x) <==> is_case(
                hs.take(i as int),
                names,
                x,
            ) || is_case(seq![hs[i as int]], names, x) by {
                if is_case(hs.take(i + 1), names, x) {
                    let (a, b) = choose|a: int, b: int|
                        0 <= a < i + 1 && 0 <= b < names.len() && x
                            == #[trigger] crate::test::case_id(hs.take(i + 1)[a], names[b]);
                    if a < i {
                        assert(x == crate::test::case_id(hs.take(i as int)[a], names[b]));
                    } else {
                        assert(x == crate::test::case_id(seq![hs[i as int]][0], names[b]));
                    }
                }
                if is_case(hs.take(i as int), names, x) {
                    let (a, b) = choose|a: int, b: int|
                        0 <= a < i && 0 <= b < names.len() && x == #[trigger] crate::test::case_id(
                            hs.take(i as int)[a],
                            names[b],
                        );
                    assert(x == crate::test::case_id(hs.take(i + 1)[a], names[b]));
                }
                if is_case(seq![hs[i as int]], names, x) {
                    let (a, b) = choose|a: int, b: int|
                        0 <= a < 1 && 0 <= b < names.len() && x == #[trigger] crate::test::case_id(
                            seq![hs[i as int]][a],
                            names[b],
                        );
                    assert(x == crate::test::case_id(hs.take(i + 1)[i as int], names[b]));
                }
            }
        }
        i += 1;
    }
    assert(hs.take(i as int) =~= hs);
    cases
}

/// A job that has not begun yet: it waits for the tests that its test depends
/// on.
pub open spec fn fresh_job(job: TestJob, env: Seq<(String, String)>) -> bool {
    &&& job.wf()
    &&& job.awaited() == ident::views(job.case().test.depends_on@)
    &&& job.waiting() == job.awaited()
    &&& job.base_env() == env
    &&& job.deps() == Map::<Seq<char>, Arc<DatabaseEntry>>::empty()
    &&& job.target() is None
    &&& job.phase() == (if job.awaited().len() == 0 {
        Phase::LookingUp
    } else {
        Phase::AwaitingDeps
    })
}

/// Builds the jobs for some cases. This is done bottom-up so that depending
/// jobs come after those that they wait for.
pub fn jobs_in_order(cases: Vec<TestCase>, env: &JobEnv) -> (r: Result<
    Vec<TestJob>,
    DagError<TestCaseId>,
>)
    ensures
        r is Ok <==> dag::ids(cases@).no_duplicates() && dag::children_present(cases@)
            && dag::acyclic(dag::adjacency(cases@)),
        match r {
            Ok(jobs) => {
                &&& job_ids(jobs@).no_duplicates()
                &&& forall|id: Seq<char>| #[trigger]
                    job_ids(jobs@).contains(id) <==> dag::ids(cases@).contains(id)
                &&& dependencies_first(jobs@)
                &&& forall|k: int|
                    0 <= k < jobs@.len() ==> fresh_job(#[trigger] jobs@[k], env@)
                        && cases@.contains(jobs@[k].case())
            },
            Err(e) => dag::is_reason(cases@, e),
        },
{
    let ghost all = cases@;
    let test_cases = match Dag::new(cases) {
        Ok(dag) => dag,
        Err(e) => {
            return Err(e);
        },
    };
    let ghost g = test_cases.graph();
    let ghost order = dag::search(g, dag::all_nodes(all.len())).order;
    proof {
        dag::lemma_search_everything(g);
        assert forall|k: int| 0 <= k < dag::all_nodes(all.len()).len() implies (
        #[trigger] dag::all_nodes(all.len())[k]) < g.len() by {}
        dag::lemma_search(g, dag::all_nodes(all.len()));
    }
    let sorted = test_cases.bottom_up().into_nodes();
    assert(order.skip(0) =~= order);
    let mut jobs: Vec<TestJob> = Vec::new();
    let mut i: usize = 0;
    while i < sorted.len()
        invariant
            i <= sorted@.len(),
            dag::nodes_at(sorted@, all, order),
            jobs@.len() == i,
            forall|k: int|
                0 <= k < i ==> fresh_job(#[trigger] jobs@[k], env@) && jobs@[k].case()
                    == all[order[k] as int],
        decreases sorted@.len() - i,
    {
        let test_case: &TestCase = sorted[i];
        let wait_for = crate::test::copy_names(&test_case.test.depends_on);
        let job = TestJobBuilder::new(test_case.clone(), copy_env(env), wait_for).build();
        jobs.push(job);
        i += 1;
    }
    proof {
        lemma_sorted_jobs(all, order, jobs@);
        assert forall|k: int| 0 <= k < jobs@.len() implies all.contains(
            (#[trigger] jobs@[k]).case(),
        ) by {
            assert(order[k] < g.len());
            assert(all[order[k] as int] == jobs@[k].case());
        }
    }
    Ok(jobs)
}

/// There is no commit for this revision.
#[derive(Debug, PartialEq, Eq)]
pub struct NoSuchRevision(pub CommitHash);

impl NoSuchRevision {
    /// The message for this error.
    pub fn to_string(&self) -> (r: String)
        ensures
            r@ == "no such revision "@ + CommitHash::debug_form(self.0@),
    {
        let mut out: String = String::from_str("no such revision ");
        out.append(self.0.debug().as_str());
        out
    }
}

/// There is a commit for every revision.
pub open spec fn all_found(revs: Seq<(CommitHash, Option<Commit>)>) -> bool {
    forall|i: int| 0 <= i < revs.len() ==> (#[trigger] revs[i]).1 is Some
}

/// The commits of some revisions.
pub open spec fn found_commits(revs: Seq<(CommitHash, Option<Commit>)>) -> Seq<Commit> {
    Seq::new(revs.len(), |i: int| revs[i].1->0)
}

impl Manager {
    /// The tests.
    pub closed spec fn tests(&self) -> Seq<Arc<Test>> {
        self.tests.node_seq()
    }

    /// The environment that all jobs share.
    pub closed spec fn env(&self) -> Seq<(String, String)> {
        self.job_env@
    }

    /// The identifiers of the jobs that were started and not canceled.
    pub closed spec fn running(&self) -> Seq<Seq<char>> {
        ident::views(self.job_ids@)
    }

    /// The jobs are those of every test at every one of some commits.
    pub closed spec fn wf(&self) -> bool {
        &&& self.tests.valid()
        &&& self.running().no_duplicates()
        &&& forall|i: int|
            0 <= i < self.commits@.len() ==> crate::test::plain_hash(#[trigger] self.commits@[i])
        &&& forall|id: Seq<char>| #[trigger]
            self.running().contains(id) <==> is_case(self.commits@, dag::ids(self.tests()), id)
    }

    /// A manager for the given tests, which has no jobs yet.
    pub fn new(repo_path: &str, tests: TestDag) -> (r: Self)
        requires
            tests.valid(),
        ensures
            r.wf(),
            r.tests() == tests.node_seq(),
            r.running().len() == 0,
            crate::test::env_texts(r.env()) == seq![("LIMMAT_ORIGIN"@, repo_path@)],
    {
        Manager {
            tests,
            job_env: crate::test::base_job_env(repo_path),
            job_ids: Vec::new(),
            commits: Ghost(Seq::empty()),
        }
    }

    /// Interrupt any jobs for commits that are not in `commits`, start testing
    /// all of `commits` that are not already tested or being tested.
    pub fn set_commits(&mut self, commits: &Vec<Commit>) -> (r: Plan)
        requires
            old(self).wf(),
            forall|i: int|
                0 <= i < commits@.len() ==> crate::test::plain_hash((#[trigger] commits@[i]).hash@),
        ensures
            final(self).wf(),
            final(self).tests() == old(self).tests(),
            final(self).env() == old(self).env(),
            exactly_cases(final(self).running(), hashes(commits@), dag::ids(old(self).tests())),
            right_plan(
                old(self).running(),
                hashes(commits@),
                dag::ids(old(self).tests()),
                ident::views(r.cancel@),
                job_ids(r.start@),
            ),
            dependencies_first(r.start@),
            forall|k: int|
                0 <= k < r.start@.len() ==> fresh_job(#[trigger] r.start@[k], old(self).env())
                    && case_of(commits@, old(self).tests(), r.start@[k].case()),
    {
        let ghost tests = self.tests();
        let ghost names = dag::ids(tests);
        let ghost hs = hashes(commits@);
        let ghost was = self.running();
        let cases = all_cases(commits, self.tests.nodes());
        // Cancel jobs for test cases that we don't care about any more.
        let mut kept: Vec<TestCaseId> = Vec::new();
        let mut cancel: Vec<TestCaseId> = Vec::new();
        let mut i: usize = 0;
        while i < self.job_ids.len()
            invariant
                i <= self.job_ids@.len(),
                *self == *old(self),
                was == ident::views(self.job_ids@),
                was.no_duplicates(),
                ident::views(kept@).no_duplicates(),
                ident::views(cancel@).no_duplicates(),
                forall|id: Seq<char>| #[trigger]
                    ident::views(kept@).contains(id) <==> was.take(i as int).contains(id)
                        && dag::ids(cases@).contains(id),
                forall|id: Seq<char>| #[trigger]
                    ident::views(cancel@).contains(id) <==> was.take(i as int).contains(id)
                        && !dag::ids(cases@).contains(id),
            decreases self.job_ids@.len() - i,
        {
            let id = self.job_ids[i].clone();
            let ghost x = id@;
            proof {
                assert(x == was[i as int]);
                lemma_take_contains(was, i as int);
                if was.take(i as int).contains(x) {
                    let k = was.take(i as int).index_of(x);
                    assert(was[k] == was[i as int]);
                }
            }
            match find_case(&cases, &id) {
                Some(_) => {
                    proof {
                        lemma_push_view(kept@, id);
                    }
                    kept.push(id);
                },
                None => {
                    proof {
                        lemma_push_view(cancel@, id);
                    }
                    cancel.push(id);
                },
            }
            i += 1;
        }
        assert(was.take(i as int) =~= was);
        // Don't start new jobs for test cases that are already running.
        let mut fresh: Vec<TestCase> = Vec::new();
        let mut i: usize = 0;
        while i < cases.len()
            invariant
                i <= cases@.len(),
                *self == *old(self),
                was == ident::views(self.job_ids@),
                dag::ids(cases@).no_duplicates(),
                dag::ids(fresh@).no_duplicates(),
                forall|id: Seq<char>| #[trigger]
                    ident::views(kept@).contains(id) <==> was.contains(id)
                        && dag::ids(cases@).contains(id),
                forall|id: Seq<char>| #[trigger]
                    dag::ids(fresh@).contains(id) <==> dag::ids(cases@).take(i as int).contains(id)
                        && !was.contains(id),
                forall|k: int|
                    0 <= k < cases@.len() ==> case_of(commits@, tests, #[trigger] cases@[k]),
                forall|k: int|
                    0 <= k < fresh@.len() ==> case_of(commits@, tests, #[trigger] fresh@[k]),
            decreases cases@.len() - i,
        {
            let id = cases[i].id();
            let ghost ids = dag::ids(cases@);
            proof {
                lemma_take_contains(ids, i as int);
                assert(ids[i as int] == id@);
                if ids.take(i as int).contains(id@) {
                    let k = ids.take(i as int).index_of(id@);
                    assert(ids[k] == ids[i as int]);
                }
            }
            if !has_id(&kept, &id) {
                proof {
                    lemma_push_case(fresh@, cases@[i as int]);
                }
                fresh.push(cases[i].clone());
            }
            i += 1;
        }
        assert(dag::ids(cases@).take(i as int) =~= dag::ids(cases@));
        let ghost all = fresh@;
        let count: usize = fresh.len();
        proof {
            assert(all.len() == count);
            assert forall|k: int| 0 <= k < all.len() implies crate::test::plain_hash(
                (#[trigger] all[k]).commit_hash@,
            ) && tests.contains(all[k].test) by {
                assert(case_of(commits@, tests, all[k]));
            }
            assert forall|k: int, m: int|
                0 <= k < all.len() && 0 <= m < tests.len() implies #[trigger] has_case(
                all,
                all[k].commit_hash@,
                tests[m].node_id(),
            ) by {
                assert(dag::ids(all)[k] == all[k].node_id());
                assert(dag::ids(all).contains(all[k].node_id()));
                assert(was.contains(all[k].node_id()) == is_case(
                    self.commits@,
                    names,
                    all[k].node_id(),
                ));
                lemma_commit_as_a_whole(self.commits@, commits@, tests, all[k], m);
                let id = crate::test::case_id(all[k].commit_hash@, tests[m].node_id());
                assert(dag::ids(cases@).contains(id) == is_case(hs, names, id));
                assert(was.contains(id) == is_case(self.commits@, names, id));
            }
            lemma_cases_form_dag(all, tests);
        }
        let start = match jobs_in_order(fresh, &self.job_env) {
            Ok(start) => start,
            Err(_) => vstd::pervasive::unreached(),
        };
        let mut i: usize = 0;
        let ghost held = ident::views(kept@);
        let ghost begun = job_ids(start@);
        assert(begun.take(0) =~= Seq::empty());
        assert(held + begun.take(0) =~= held);
        while i < start.len()
            invariant
                i <= start@.len(),
                begun == job_ids(start@),
                ident::views(kept@) == held + begun.take(i as int),
            decreases start@.len() - i,
        {
            let id = start[i].test_case().id();
            proof {
                lemma_push_view(kept@, id);
                assert(id@ == begun[i as int]);
            }
            kept.push(id);
            assert(ident::views(kept@) =~= held + begun.take(i + 1));
            i += 1;
        }
        proof {
            assert(begun.take(i as int) =~= begun);
            let now = ident::views(kept@);
            assert(now == held + begun);
            assert forall|id: Seq<char>| #[trigger] now.contains(id) <==> is_case(hs, names, id) by {
                assert(dag::ids(cases@).contains(id) == is_case(hs, names, id));
                if held.contains(id) {
                    assert(now[held.index_of(id)] == id);
                }
                if begun.contains(id) {
                    assert(now[held.len() + begun.index_of(id)] == id);
                }
                if now.contains(id) {
                    let k = now.index_of(id);
                    if k < held.len() {
                        assert(held[k] == id);
                    } else {
                        assert(begun[k - held.len()] == id);
                    }
                }
                if is_case(hs, names, id) {
                    assert(held.contains(id) || begun.contains(id));
                }
            }
            assert(now.no_duplicates()) by {
                assert forall|a: int, b: int|
                    0 <= a < now.len() && 0 <= b < now.len() && a != b implies now[a] != now[b] by {
                    if a < held.len() && b >= held.len() {
                        assert(held.contains(held[a]));
                        assert(begun.contains(begun[b - held.len()]));
                    } else if b < held.len() && a >= held.len() {
                        assert(held.contains(held[b]));
                        assert(begun.contains(begun[a - held.len()]));
                    } else if a < held.len() {
                        assert(held[a] != held[b]);
                    } else {
                        assert(begun[a - held.len()] != begun[b - held.len()]);
                    }
                }
            }
        }
        self.job_ids = kept;
        self.commits = Ghost(hs);
        Plan { cancel, start }
    }

    /// Tests the commits that some revisions stand for, as `set_commits` does.
    /// Where there is no commit for a revision, nothing is changed and that
    /// revision is given back.
    pub fn set_revisions(&mut self, revs: Vec<(CommitHash, Option<Commit>)>) -> (r: Result<
        Plan,
        NoSuchRevision,
    >)
        requires
            old(self).wf(),
            forall|i: int|
                0 <= i < revs@.len() && (#[trigger] revs@[i]).1 is Some ==> crate::test::plain_hash(
                    revs@[i].1->0.hash@,
                ),
        ensures
            final(self).wf(),
            final(self).tests() == old(self).tests(),
            final(self).env() == old(self).env(),
            r is Ok <==> all_found(revs@),
            match r {
                Ok(plan) => {
                    &&& exactly_cases(
                        final(self).running(),
                        hashes(found_commits(revs@)),
                        dag::ids(old(self).tests()),
                    )
                    &&& right_plan(
                        old(self).running(),
                        hashes(found_commits(revs@)),
                        dag::ids(old(self).tests()),
                        ident::views(plan.cancel@),
                        job_ids(plan.start@),
                    )
                    &&& dependencies_first(plan.start@)
                    &&& forall|k: int|
                        0 <= k < plan.start@.len() ==> fresh_job(
                            #[trigger] plan.start@[k],
                            old(self).env(),
                        ) && case_of(
                            found_commits(revs@),
                            old(self).tests(),
                            plan.start@[k].case(),
                        )
                },
                Err(missing) => {
                    &&& *final(self) == *old(self)
                    &&& exists|k: int|
                        0 <= k < revs@.len() && (#[trigger] revs@[k]).1 is None && missing.0@
                            == revs@[k].0@ && all_found(revs@.take(k))
                },
            },
    {
        let mut commits: Vec<Commit> = Vec::new();
        let mut i: usize = 0;
        while i < revs.len()
            invariant
                i <= revs@.len(),
                *self == *old(self),
                self.wf(),
                all_found(revs@.take(i as int)),
                commits@ =~= found_commits(revs@.take(i as int)),
            decreases revs@.len() - i,
        {
            match &revs[i].1 {
                Some(commit) => {
                    commits.push(commit.clone());
                },
                None => {
                    assert(revs@[i as int].1 is None);
                    return Err(NoSuchRevision(revs[i].0.clone()));
                },
            }
            i += 1;
        }
        assert(revs@.take(i as int) =~= revs@);
        assert forall|k: int| 0 <= k < commits@.len() implies crate::test::plain_hash(
            (#[trigger] commits@[k]).hash@,
        ) by {
            assert(revs@[k].1 is Some);
        }
        Ok(self.set_commits(&commits))
    }

    /// Stops all jobs.
    pub fn cancel_running(&mut self) -> (r: Vec<TestCaseId>)
        requires
            old(self).wf(),
        ensures
            final(self).wf(),
            final(self).tests() == old(self).tests(),
            final(self).env() == old(self).env(),
            final(self).running().len() == 0,
            ident::views(r@).no_duplicates(),
            forall|id: Seq<char>| #[trigger]
                ident::views(r@).contains(id) <==> old(self).running().contains(id),
    {
        let none: Vec<Commit> = Vec::new();
        let ghost names = dag::ids(self.tests());
        assert forall|id: Seq<char>| !#[trigger] is_case(hashes(none@), names, id) by {}
        let plan = self.set_commits(&none);
        proof {
            if self.running().len() > 0 {
                assert(self.running().contains(self.running()[0]));
            }
        }
        plan.cancel
    }
}

/// Taking one entry more.
proof fn lemma_take_contains<A>(s: Seq<A>, i: int)
    requires
        0 <= i < s.len(),
    ensures
        forall|x: A| #[trigger]
            s.take(i + 1).contains(x) <==> s.take(i).contains(x) || x == s[i],
{
    assert forall|x: A| #[trigger]
        s.take(i + 1).contains(x) <==> s.take(i).contains(x) || x == s[i] by {
        if s.take(i + 1).contains(x) {
            let k = s.take(i + 1).index_of(x);
            if k < i {
                assert(s.take(i)[k] == x);
            }
        }
        if s.take(i).contains(x) {
            let k = s.take(i).index_of(x);
            assert(s.take(i + 1)[k] == x);
        }
        if x == s[i] {
            assert(s.take(i + 1)[i] == x);
        }
    }
}

/// Adding an entry that is not there.
proof fn lemma_push_contains<A>(s: Seq<A>, x: A)
    ensures
        forall|y: A| #[trigger] s.push(x).contains(y) <==> s.contains(y) || y == x,
        s.no_duplicates() && !s.contains(x) ==> s.push(x).no_duplicates(),
{
    let t = s.push(x);
    assert forall|y: A| #[trigger] t.contains(y) <==> s.contains(y) || y == x by {
        if s.contains(y) {
            assert(t[s.index_of(y)] == y);
        }
        if y == x {
            assert(t[s.len() as int] == y);
        }
    }
    if s.no_duplicates() && !s.contains(x) {
        assert forall|a: int, b: int|
            0 <= a < t.len() && 0 <= b < t.len() && a != b implies t[a] != t[b] by {
            if a < s.len() {
                assert(s.contains(s[a]));
            }
            if b < s.len() {
                assert(s.contains(s[b]));
            }
        }
    }
}

proof fn lemma_push_view(ids: Seq<TestCaseId>, id: TestCaseId)
    ensures
        ident::views(ids.push(id)) == ident::views(ids).push(id@),
        forall|y: Seq<char>| #[trigger]
            ident::views(ids.push(id)).contains(y) <==> ident::views(ids).contains(y) || y == id@,
        ident::views(ids).no_duplicates() && !ident::views(ids).contains(id@) ==> ident::views(
            ids.push(id),
        ).no_duplicates(),
{
    assert(ident::views(ids.push(id)) =~= ident::views(ids).push(id@));
    lemma_push_contains(ident::views(ids), id@);
}

proof fn lemma_push_case(cases: Seq<TestCase>, case: TestCase)
    ensures
        dag::ids(cases.push(case)) == dag::ids(cases).push(case.node_id()),
        forall|y: Seq<char>| #[trigger]
            dag::ids(cases.push(case)).contains(y) <==> dag::ids(cases).contains(y) || y
                == case.node_id(),
        dag::ids(cases).no_duplicates() && !dag::ids(cases).contains(case.node_id()) ==> dag::ids(
            cases.push(case),
        ).no_duplicates(),
{
    assert(dag::ids(cases.push(case)) =~= dag::ids(cases).push(case.node_id()));
    lemma_push_contains(dag::ids(cases), case.node_id());
}

/// The jobs of a commit are started all together: if one test has no job at a
/// commit, none has.
proof fn lemma_commit_as_a_whole(
    old_commits: Seq<Seq<char>>,
    commits: Seq<Commit>,
    tests: Seq<Arc<Test>>,
    case: TestCase,
    m: int,
)
    requires
        0 <= m < tests.len(),
        case_of(commits, tests, case),
        forall|i: int| 0 <= i < commits.len() ==> crate::test::plain_hash(
            (#[trigger] commits[i]).hash@,
        ),
        forall|i: int|
            0 <= i < old_commits.len() ==> crate::test::plain_hash(#[trigger] old_commits[i]),
        !is_case(old_commits, dag::ids(tests), case.node_id()),
    ensures
        is_case(
            hashes(commits),
            dag::ids(tests),
            crate::test::case_id(case.commit_hash@, tests[m].node_id()),
        ),
        !is_case(
            old_commits,
            dag::ids(tests),
            crate::test::case_id(case.commit_hash@, tests[m].node_id()),
        ),
{
    let names = dag::ids(tests);
    let (i, j) = choose|i: int, j: int|
        0 <= i < commits.len() && 0 <= j < tests.len() && applies(
            #[trigger] commits[i],
            #[trigger] tests[j],
            case,
        );
    let id = crate::test::case_id(case.commit_hash@, tests[m].node_id());
    assert(id == crate::test::case_id(hashes(commits)[i], names[m]));
    if is_case(old_commits, names, id) {
        let (a, b) = choose|a: int, b: int|
            0 <= a < old_commits.len() && 0 <= b < names.len() && id
                == #[trigger] crate::test::case_id(old_commits[a], names[b]);
        crate::test::lemma_case_id_injective(
            case.commit_hash@,
            tests[m].node_id(),
            old_commits[a],
            names[b],
        );
        assert(case.node_id() == crate::test::case_id(old_commits[a], names[j]));
    }
}

/// Jobs made in the order of a search hold each case once, after those that it
/// depends on.
proof fn lemma_sorted_jobs(cases: Seq<TestCase>, order: Seq<usize>, jobs: Seq<TestJob>)
    requires
        dag::ids(cases).no_duplicates(),
        dag::children_present(cases),
        dag::children_first(dag::adjacency(cases), order),
        forall|v: usize| v < cases.len() ==> #[trigger] order.contains(v),
        cases.len() <= usize::MAX,
        jobs.len() == order.len(),
        forall|k: int| 0 <= k < jobs.len() ==> (#[trigger] jobs[k]).case() == cases[order[k] as int],
    ensures
        job_ids(jobs).no_duplicates(),
        forall|id: Seq<char>| #[trigger]
            job_ids(jobs).contains(id) <==> dag::ids(cases).contains(id),
        dependencies_first(jobs),
{
    let ids = job_ids(jobs);
    let all = dag::ids(cases);
    let g = dag::adjacency(cases);
    assert forall|k: int| 0 <= k < jobs.len() implies #[trigger] ids[k] == all[order[k] as int]
        && order[k] < cases.len() by {
        assert(jobs[k].case() == cases[order[k] as int]);
        assert(order[k] < g.len());
    }
    assert forall|a: int, b: int|
        0 <= a < ids.len() && 0 <= b < ids.len() && a != b implies ids[a] != ids[b] by {
        assert(ids[a] == all[order[a] as int]);
        assert(ids[b] == all[order[b] as int]);
        assert(order[a] != order[b]);
    }
    assert forall|id: Seq<char>| #[trigger] ids.contains(id) <==> all.contains(id) by {
        if ids.contains(id) {
            let k = ids.index_of(id);
            assert(all[order[k] as int] == id);
        }
        if all.contains(id) {
            let v = all.index_of(id) as usize;
            assert(order.contains(v));
            let k = order.index_of(v);
            assert(ids[k] == id);
        }
    }
    assert forall|k: int, d: int|
        #![trigger jobs[k].case().node_children()[d]]
        0 <= k < jobs.len() && 0 <= d < jobs[k].case().node_children().len() implies ids.take(
        k,
    ).contains(jobs[k].case().node_children()[d]) by {
        let v = order[k];
        assert(jobs[k].case() == cases[v as int]);
        let child = cases[v as int].node_children()[d];
        assert(dag::all_present(all, cases[v as int].node_children()));
        assert(all.contains(child));
        ident::lemma_last_position(all, child);
        let b = ident::last_position(all, child) as usize;
        assert(g[v as int][d] == b);
        assert(dag::has_edge(g, order[k], b));
        assert(order.take(k).contains(b));
        let p = order.take(k).index_of(b);
        assert(ids[p] == all[order[p] as int]);
        assert(ids.take(k)[p] == child);
    }
}

/// The identifiers are those of every test at every commit, and, of commits with
/// usable hashes, of no other commit and no other test.
pub proof fn lemma_every_test_at_every_commit(
    commits: Seq<Seq<char>>,
    names: Seq<Seq<char>>,
    commit: Seq<char>,
    name: Seq<char>,
)
    requires
        crate::test::plain_hash(commit),
        forall|i: int| 0 <= i < commits.len() ==> crate::test::plain_hash(#[trigger] commits[i]),
    ensures
        is_case(commits, names, crate::test::case_id(commit, name)) <==> commits.contains(commit)
            && names.contains(name),
{
    let id = crate::test::case_id(commit, name);
    if is_case(commits, names, id) {
        let (i, j) = choose|i: int, j: int|
            0 <= i < commits.len() && 0 <= j < names.len() && id == #[trigger] crate::test::case_id(
                commits[i],
                names[j],
            );
        assert(crate::test::plain_hash(commits[i]));
        crate::test::lemma_case_id_injective(commit, name, commits[i], names[j]);
    }
    if commits.contains(commit) && names.contains(name) {
        let i = commits.index_of(commit);
        let j = names.index_of(name);
        assert(id == crate::test::case_id(commits[i], names[j]));
    }
}

/// A job for a commit that is no longer wanted is canceled, one for a commit
/// that is wanted goes on, and one is started for each test at each commit that
/// has none.
pub proof fn lemma_right_plan(
    running: Seq<Seq<char>>,
    commits: Seq<Seq<char>>,
    names: Seq<Seq<char>>,
    cancel: Seq<Seq<char>>,
    start: Seq<Seq<char>>,
    commit: Seq<char>,
    name: Seq<char>,
)
    requires
        right_plan(running, commits, names, cancel, start),
        crate::test::plain_hash(commit),
        forall|i: int| 0 <= i < commits.len() ==> crate::test::plain_hash(#[trigger] commits[i]),
        names.contains(name),
    ensures
        ({
            let id = crate::test::case_id(commit, name);
            &&& cancel.contains(id) <==> running.contains(id) && !commits.contains(commit)
            &&& start.contains(id) <==> !running.contains(id) && commits.contains(commit)
        }),
{
    lemma_every_test_at_every_commit(commits, names, commit, name);
    let id = crate::test::case_id(commit, name);
    assert(cancel.contains(id) <==> running.contains(id) && !is_case(commits, names, id));
    assert(start.contains(id) <==> is_case(commits, names, id) && !running.contains(id));
}

/// A job comes after the jobs at its commit for all the tests that its test
/// depends on.
pub proof fn lemma_job_after_dependencies(jobs: Seq<TestJob>, k: int, d: int) -> (j: int)
    requires
        dependencies_first(jobs),
        0 <= k < jobs.len(),
        0 <= d < jobs[k].case().test.depends_on@.len(),
    ensures
        0 <= j < k,
        jobs[j].case().node_id() == crate::test::case_id(
            jobs[k].case().commit_hash@,
            jobs[k].case().test.depends_on@[d]@,
        ),
{
    let wanted = jobs[k].case().node_children()[d];
    assert(wanted == crate::test::case_id(
        jobs[k].case().commit_hash@,
        jobs[k].case().test.depends_on@[d]@,
    ));
    let before = job_ids(jobs).take(k);
    assert(before.contains(wanted));
    let j = before.index_of(wanted);
    assert(before[j] == wanted);
    j
}

/// A test that is applied to a commit is stored under what its policy says.
pub proof fn lemma_applied_test(commit: Commit, test: Arc<Test>, case: TestCase)
    requires
        applies(commit, test, case),
    ensures
        case.test == test,
        case.commit_hash@ == commit.hash@,
        test.cache_policy is ByTree ==> case.storage() == commit.tree@,
        !(test.cache_policy is ByTree) ==> case.storage() == commit.hash@,
        case.cache_hash is None <==> test.cache_policy is NoCaching,
{
}

/// A job that has not begun waits for all that its test depends on, and for
/// nothing else.
pub proof fn lemma_fresh_job_waits(job: TestJob, env: Seq<(String, String)>, i: int)
    requires
        fresh_job(job, env),
    ensures
        job.waiting().len() == job.case().test.depends_on@.len(),
        0 <= i < job.waiting().len() ==> job.waiting()[i] == job.case().test.depends_on@[i]@,
        job.phase() is LookingUp <==> job.case().test.depends_on@.len() == 0,
        job.phase() is AwaitingDeps <==> job.case().test.depends_on@.len() > 0,
{
}

/// The commits that were found are those of the revisions, in their order.
pub proof fn lemma_found_commits(revs: Seq<(CommitHash, Option<Commit>)>, i: int)
    requires
        0 <= i < revs.len(),
        all_found(revs),
    ensures
        found_commits(revs).len() == revs.len(),
        revs[i].1 == Some(found_commits(revs)[i]),
        hashes(found_commits(revs))[i] == found_commits(revs)[i].hash@,
{
    assert(revs[i].1 is Some);
}

} // verus!

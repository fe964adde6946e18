//! One-shot runs of a test: what they run, and what they leave in the database.
use std::sync::Arc;

use crate::cli;
use crate::cli::TestPlan;
use crate::dag;
use crate::database;
use crate::database::Results;
use crate::git::Commit;
use crate::history;
use crate::history::{Move, Runner};
use crate::ident;
use crate::job;
use crate::job::{ActionView, DepDatabaseEntries, OutcomeView};
use crate::manager;
use crate::strings;
use crate::test::{CachePolicy, Test, TestCase, TestDag, TestName, TestOutcome};
use vstd::prelude::*;

verus! {

/// The jobs for the tests that are run before.
pub open spec fn dep_runners(plan: TestPlan) -> Seq<Runner> {
    match plan.deps {
        Some(deps) => Seq::new(
            deps.jobs@.len(),
            |k: int| Runner { case: deps.jobs@[k].case(), start: None },
        ),
        None => Seq::empty(),
    }
}

/// All the jobs of a one-shot run. The one for the test itself comes last, and
/// starts with its command.
pub open spec fn runners(plan: TestPlan, output_dir: Seq<char>) -> Seq<Runner> {
    dep_runners(plan).push(
        Runner {
            case: plan.job.case(),
            start: Some(cli::once_target(plan.job.case(), output_dir)),
        },
    )
}

/// The names of the tests lead to different places below a directory, and so do
/// the hashes that their results are filed under.
pub open spec fn plain_names(tests: TestDag, head: Commit) -> bool {
    &&& database::plain_component(head.hash@)
    &&& database::plain_component(head.tree@)
    &&& forall|k: int|
        0 <= k < tests.node_seq().len() ==> database::plain_path(
            (#[trigger] tests.node_seq()[k]).name@,
        )
}

/// Every test that is run before accepts cached results.
pub open spec fn deps_cached(tests: TestDag, name: Seq<char>) -> bool {
    forall|k: int|
        0 <= k < cli::needed(tests, name, false).len() ==> (#[trigger] cli::needed(
            tests,
            name,
            false,
        )[k]).cache_policy != CachePolicy::NoCaching
}

/// Which of the tests to be run before a job is for.
spec fn dep_of(tests: TestDag, name: Seq<char>, head: Commit, case: TestCase, k: int) -> bool {
    let deps = cli::needed(tests, name, false);
    0 <= k < deps.len() && manager::applies(head, deps[k], case)
}

/// The tests to be run before have names of their own, which are not that of
/// the test itself.
proof fn lemma_dep_names(tests: TestDag, name: Seq<char>)
    requires
        tests.valid(),
        dag::ids(tests.node_seq()).contains(name),
    ensures
        cli::named(tests, name).name@ == name,
        forall|k: int|
            0 <= k < cli::needed(tests, name, false).len() ==> (#[trigger] cli::needed(
                tests,
                name,
                false,
            )[k]).name@ != name && tests.node_seq().contains(cli::needed(tests, name, false)[k]),
        tests.node_seq().contains(cli::named(tests, name)),
{
    let all = cli::needed(tests, name, true);
    let deps = cli::needed(tests, name, false);
    cli::lemma_first_is_named(tests, name);
    cli::lemma_needed_form_dag(tests, name, true);
    ident::lemma_last_position(dag::ids(tests.node_seq()), name);
    let order = cli::below(tests, name);
    let start = ident::last_position(dag::ids(tests.node_seq()), name);
    dag::lemma_search(tests.graph(), seq![start as usize]);
    let found = dag::search(tests.graph(), seq![start as usize]).order;
    assert(all[0] == tests.node_seq()[start]);
    assert(tests.node_seq().contains(tests.node_seq()[start]));
    assert(dag::ids(tests.node_seq())[start] == name);
    assert forall|k: int| 0 <= k < deps.len() implies (#[trigger] deps[k]).name@ != name
        && tests.node_seq().contains(deps[k]) by {
        assert(order[k + 1] == found[found.len() - 2 - k]);
        assert(deps[k] == tests.node_seq()[order[k + 1] as int]);
        assert(deps[k] == all[k + 1]);
        assert(dag::ids(all)[k + 1] != dag::ids(all)[0]);
    }
}

/// Each job for a test to be run before is for one of those tests.
proof fn lemma_dep_cases(
    plan: TestPlan,
    tests: TestDag,
    name: Seq<char>,
    head: Commit,
    repo_path: Seq<char>,
    num_worktrees: usize,
    j: int,
) -> (k: int)
    requires
        cli::planned(plan, tests, name, head, repo_path, num_worktrees),
        0 <= j < dep_runners(plan).len(),
    ensures
        dep_of(tests, name, head, dep_runners(plan)[j].case, k),
{
    let deps = cli::needed(tests, name, false);
    let job = plan.deps->0.jobs@[j];
    assert(cli::run_at(job, repo_path));
    let (a, b) = choose|a: int, b: int|
        0 <= a < seq![head].len() && 0 <= b < deps.len() && manager::applies(
            #[trigger] seq![head][a],
            #[trigger] deps[b],
            job.case(),
        );
    b
}

/// Where the result of a case of one of the tests stands is told by the name
/// of the test.
proof fn lemma_same_file(
    tests: TestDag,
    head: Commit,
    base_dir: Seq<char>,
    test1: Arc<Test>,
    case1: TestCase,
    test2: Arc<Test>,
    case2: TestCase,
)
    requires
        tests.valid(),
        plain_names(tests, head),
        tests.node_seq().contains(test1),
        tests.node_seq().contains(test2),
        manager::applies(head, test1, case1),
        manager::applies(head, test2, case2),
        database::result_file(base_dir, case1) == database::result_file(base_dir, case2),
    ensures
        test1 == test2,
{
    let nodes = tests.node_seq();
    let i = nodes.index_of(test1);
    let j = nodes.index_of(test2);
    assert(nodes[i] == test1 && nodes[j] == test2);
    database::lemma_files_kept_apart(base_dir, case1, case2);
    assert(dag::ids(nodes)[i] == dag::ids(nodes)[j]);
}

/// The jobs of a one-shot run agree on the cases of the tests.
proof fn lemma_agree(
    plan: TestPlan,
    tests: TestDag,
    name: Seq<char>,
    head: Commit,
    repo_path: Seq<char>,
    num_worktrees: usize,
    base_dir: Seq<char>,
    output_dir: Seq<char>,
    test: Arc<Test>,
    case: TestCase,
)
    requires
        tests.valid(),
        dag::ids(tests.node_seq()).contains(name),
        plain_names(tests, head),
        cli::planned(plan, tests, name, head, repo_path, num_worktrees),
        tests.node_seq().contains(test),
        manager::applies(head, test, case),
    ensures
        history::agree(base_dir, runners(plan, output_dir), case),
{
    let jobs = runners(plan, output_dir);
    let deps = cli::needed(tests, name, false);
    lemma_dep_names(tests, name);
    assert forall|j: int| 0 <= j < jobs.len() implies match (#[trigger] jobs[j]).start {
        Some(target) => !target.kept,
        None => database::result_file(base_dir, jobs[j].case) == database::result_file(
            base_dir,
            case,
        ) ==> jobs[j].case.test.config_hash@ == case.test.config_hash@,
    } by {
        if j < dep_runners(plan).len() {
            let k = lemma_dep_cases(plan, tests, name, head, repo_path, num_worktrees, j);
            assert(jobs[j] == dep_runners(plan)[j]);
            if database::result_file(base_dir, jobs[j].case) == database::result_file(
                base_dir,
                case,
            ) {
                lemma_same_file(tests, head, base_dir, deps[k], jobs[j].case, test, case);
            }
        }
    }
}

/// A one-shot run leaves the stored result of its test as it was, if there was
/// any, and runs no command but that of its test and those of the tests that
/// it needs.
pub proof fn lemma_leaves_no_result(
    plan: TestPlan,
    tests: TestDag,
    name: Seq<char>,
    head: Commit,
    repo_path: Seq<char>,
    num_worktrees: usize,
    base_dir: Seq<char>,
    output_dir: Seq<char>,
    before: Results,
    moves: Seq<Move>,
)
    requires
        tests.valid(),
        dag::ids(tests.node_seq()).contains(name),
        plain_names(tests, head),
        cli::planned(plan, tests, name, head, repo_path, num_worktrees),
        history::is_history(base_dir, before, runners(plan, output_dir), moves),
    ensures
        ({
            let file = database::result_file(base_dir, plan.job.case());
            let after = history::results_after(before, moves);
            &&& after.dom().contains(file) <==> before.dom().contains(file)
            &&& before.dom().contains(file) ==> after[file] == before[file]
        }),
        forall|i: int|
            0 <= i < moves.len() && (#[trigger] moves[i]).step.action is Spawn
                ==> cli::needed(tests, name, false).contains(
                runners(plan, output_dir)[moves[i].job].case.test,
            ),
{
    let jobs = runners(plan, output_dir);
    let deps = cli::needed(tests, name, false);
    let file = database::result_file(base_dir, plan.job.case());
    lemma_dep_names(tests, name);
    assert forall|j: int| 0 <= j < jobs.len() implies match (#[trigger] jobs[j]).start {
        Some(target) => !target.kept,
        None => database::result_file(base_dir, jobs[j].case) != file,
    } by {
        if j < dep_runners(plan).len() {
            let k = lemma_dep_cases(plan, tests, name, head, repo_path, num_worktrees, j);
            assert(jobs[j] == dep_runners(plan)[j]);
            if database::result_file(base_dir, jobs[j].case) == file {
                lemma_same_file(
                    tests,
                    head,
                    base_dir,
                    deps[k],
                    jobs[j].case,
                    cli::named(tests, name),
                    plan.job.case(),
                );
            }
        }
    }
    history::lemma_other_files_untouched(base_dir, before, jobs, moves, file);
    assert forall|i: int|
        0 <= i < moves.len() && (#[trigger] moves[i]).step.action is Spawn implies deps.contains(
        jobs[moves[i].job].case.test,
    ) by {
        let j = moves[i].job;
        if j < dep_runners(plan).len() {
            let k = lemma_dep_cases(plan, tests, name, head, repo_path, num_worktrees, j);
            assert(jobs[j] == dep_runners(plan)[j]);
            assert(deps[k] == jobs[j].case.test);
        } else {
            history::lemma_one_shot_starts_nothing(base_dir, before, jobs, moves, i);
        }
    }
}

/// A test that is run in one shot is told where the tests that it depends on
/// left their artifacts: below the directory of the case of each of them. The
/// results are those that were collected from the jobs for these tests.
pub proof fn lemma_finds_artifacts(
    plan: TestPlan,
    base_dir: Seq<char>,
    output_dir: Seq<char>,
    before: Results,
    moves: Seq<Move>,
    i: int,
    finished: Seq<(TestName, TestOutcome)>,
    k: int,
    results: DepDatabaseEntries,
)
    requires
        history::is_history(base_dir, before, runners(plan, output_dir), moves),
        0 <= i < moves.len(),
        0 <= moves[i].job < dep_runners(plan).len(),
        0 <= k < finished.len(),
        finished[k].0@ == dep_runners(plan)[moves[i].job].case.test.name@,
        finished[k].1 matches Ok(entry) && moves[i].step.action == ActionView::Finish(
            OutcomeView::Success(entry),
        ),
        forall|j: int| k < j < finished.len() ==> (#[trigger] finished[j]).0@ != finished[k].0@,
        results.wf(),
        results@ == cli::results_of(finished),
    ensures
        job::artifact_vars(results.list()).contains(
            (
                "LIMMAT_ARTIFACTS_"@ + finished[k].0@,
                strings::path_joined(
                    database::entry_dir(base_dir, dep_runners(plan)[moves[i].job].case),
                    "artifacts"@,
                ),
            ),
        ),
{
    let jobs = runners(plan, output_dir);
    assert(jobs[moves[i].job] == dep_runners(plan)[moves[i].job]);
    history::lemma_entry_of_case(base_dir, before, jobs, moves, i);
    cli::lemma_results_of(finished, k);
    job::lemma_artifact_var(results, finished[k].0@);
}

/// When a test is run in one shot twice, at the same commit and with the same
/// configuration, the second run starts no command but that of the test itself:
/// if the tests that it needs accept cached results and came to one in the
/// first run, those results are used. They are still there after the second
/// run, and neither run has stored a result for the test itself.
pub proof fn lemma_second_run_reuses_results(
    plan1: TestPlan,
    plan2: TestPlan,
    tests: TestDag,
    name: Seq<char>,
    head: Commit,
    repo_path: Seq<char>,
    num_worktrees: usize,
    base_dir: Seq<char>,
    output_dir1: Seq<char>,
    output_dir2: Seq<char>,
    before: Results,
    moves1: Seq<Move>,
    moves2: Seq<Move>,
)
    requires
        tests.valid(),
        dag::ids(tests.node_seq()).contains(name),
        plain_names(tests, head),
        deps_cached(tests, name),
        cli::planned(plan1, tests, name, head, repo_path, num_worktrees),
        cli::planned(plan2, tests, name, head, repo_path, num_worktrees),
        history::is_history(base_dir, before, runners(plan1, output_dir1), moves1),
        forall|j: int|
            0 <= j < dep_runners(plan1).len() ==> history::has_finished(
                #[trigger] history::steps_of(moves1, j),
            ),
        history::is_history(
            base_dir,
            history::results_after(before, moves1),
            runners(plan2, output_dir2),
            moves2,
        ),
    ensures
        ({
            let file = database::result_file(base_dir, plan1.job.case());
            let between = history::results_after(before, moves1);
            let after = history::results_after(between, moves2);
            &&& forall|i: int|
                0 <= i < moves2.len() ==> !((#[trigger] moves2[i]).step.action is Spawn)
            &&& forall|j: int|
                0 <= j < dep_runners(plan2).len() ==> database::has_usable(
                    after,
                    base_dir,
                    (#[trigger] dep_runners(plan2)[j]).case,
                )
            &&& after.dom().contains(file) <==> before.dom().contains(file)
            &&& before.dom().contains(file) ==> after[file] == before[file]
        }),
{
    let jobs1 = runners(plan1, output_dir1);
    let jobs2 = runners(plan2, output_dir2);
    let between = history::results_after(before, moves1);
    let after = history::results_after(between, moves2);
    let deps = cli::needed(tests, name, false);
    lemma_dep_names(tests, name);
    lemma_leaves_no_result(
        plan1,
        tests,
        name,
        head,
        repo_path,
        num_worktrees,
        base_dir,
        output_dir1,
        before,
        moves1,
    );
    lemma_leaves_no_result(
        plan2,
        tests,
        name,
        head,
        repo_path,
        num_worktrees,
        base_dir,
        output_dir2,
        between,
        moves2,
    );
    assert(database::result_file(base_dir, plan1.job.case()) == database::result_file(
        base_dir,
        plan2.job.case(),
    ));
    assert forall|j: int| 0 <= j < dep_runners(plan2).len() implies database::has_usable(
        between,
        base_dir,
        (#[trigger] dep_runners(plan2)[j]).case,
    ) && history::agree(base_dir, jobs2, dep_runners(plan2)[j].case) by {
        let case = dep_runners(plan2)[j].case;
        let k = lemma_dep_cases(plan2, tests, name, head, repo_path, num_worktrees, j);
        let twin = lemma_twin(plan1, tests, name, head, repo_path, num_worktrees, k);
        let first = dep_runners(plan1)[twin].case;
        assert(jobs1[twin] == dep_runners(plan1)[twin]);
        lemma_agree(
            plan1,
            tests,
            name,
            head,
            repo_path,
            num_worktrees,
            base_dir,
            output_dir1,
            deps[k],
            first,
        );
        lemma_agree(
            plan2,
            tests,
            name,
            head,
            repo_path,
            num_worktrees,
            base_dir,
            output_dir2,
            deps[k],
            case,
        );
        assert(deps[k].cache_policy != CachePolicy::NoCaching);
        assert(history::has_finished(history::steps_of(moves1, twin)));
        history::lemma_finished_leaves_result(base_dir, before, jobs1, moves1, twin);
    }
    assert forall|j: int| 0 <= j < dep_runners(plan2).len() implies database::has_usable(
        after,
        base_dir,
        (#[trigger] dep_runners(plan2)[j]).case,
    ) by {
        history::lemma_results_stay(base_dir, between, jobs2, moves2, dep_runners(plan2)[j].case);
    }
    assert forall|i: int| 0 <= i < moves2.len() implies !((
    #[trigger] moves2[i]).step.action is Spawn) by {
        let j = moves2[i].job;
        if j < dep_runners(plan2).len() {
            assert(jobs2[j] == dep_runners(plan2)[j]);
            history::lemma_not_run_again(base_dir, between, jobs2, moves2, j, i);
        } else {
            history::lemma_one_shot_starts_nothing(base_dir, between, jobs2, moves2, i);
        }
    }
}

/// Every test to be run before has a job.
proof fn lemma_twin(
    plan: TestPlan,
    tests: TestDag,
    name: Seq<char>,
    head: Commit,
    repo_path: Seq<char>,
    num_worktrees: usize,
    k: int,
) -> (j: int)
    requires
        tests.valid(),
        dag::ids(tests.node_seq()).contains(name),
        cli::planned(plan, tests, name, head, repo_path, num_worktrees),
        0 <= k < cli::needed(tests, name, false).len(),
    ensures
        0 <= j < dep_runners(plan).len(),
        manager::applies(
            head,
            cli::needed(tests, name, false)[k],
            dep_runners(plan)[j].case,
        ),
{
    let deps = cli::needed(tests, name, false);
    let jobs = plan.deps->0.jobs@;
    let hashes = seq![head.hash@];
    let id = crate::test::case_id(head.hash@, deps[k].name@);
    assert(id == crate::test::case_id(hashes[0], dag::ids(deps)[k]));
    assert(manager::is_case(hashes, dag::ids(deps), id));
    assert(manager::job_ids(jobs).contains(id));
    let j = manager::job_ids(jobs).index_of(id);
    assert(manager::job_ids(jobs)[j] == id);
    let b = lemma_dep_cases(plan, tests, name, head, repo_path, num_worktrees, j);
    cli::lemma_needed_form_dag(tests, name, false);
    assert(deps[b].name@ == deps[k].name@) by {
        let x = crate::test::case_id(head.hash@, deps[b].name@);
        assert(x == id);
        assert(deps[b].name@ =~= x.skip(head.hash@.len() as int + 1));
        assert(deps[k].name@ =~= id.skip(head.hash@.len() as int + 1));
    }
    assert(dag::ids(deps)[b] == dag::ids(deps)[k]);
    j
}

} // verus!

//! What jobs do to the results in a database in the course of time, whatever
//! the order in which they take their steps.
use crate::database;
use crate::database::{Content, Results, Target};
use crate::job;
use crate::job::{ActionView, JobEvent, JobStep, OutcomeView, Phase, TestJob};
use crate::strings;
use crate::test::{Test, TestCase};
use vstd::prelude::*;

verus! {

/// A job that takes part in a history.
pub struct Runner {
    /// The case that it is for.
    pub case: TestCase,
    /// Where its output goes, if it starts with its command.
    pub start: Option<Target>,
}

/// A step that one of the jobs takes.
pub struct Move {
    /// Which job.
    pub job: int,
    pub step: JobStep,
}

/// The results after an action.
pub open spec fn results_then(results: Results, action: ActionView) -> Results {
    match action {
        ActionView::Store { write: Some(write), .. } => results.insert(write.file, write.entry),
        _ => results,
    }
}

/// The results after some moves.
pub open spec fn results_after(before: Results, moves: Seq<Move>) -> Results
    decreases moves.len(),
{
    if moves.len() == 0 {
        before
    } else {
        results_then(results_after(before, moves.drop_last()), moves.last().step.action)
    }
}

/// The steps that one of the jobs takes.
pub open spec fn steps_of(moves: Seq<Move>, job: int) -> Seq<JobStep>
    decreases moves.len(),
{
    if moves.len() == 0 {
        Seq::empty()
    } else {
        let before = steps_of(moves.drop_last(), job);
        if moves.last().job == job {
            before.push(moves.last().step)
        } else {
            before
        }
    }
}

/// A job that looks for a result is told what the database holds: a result that
/// may be used, or where to put one if there is none.
pub open spec fn answered(
    base_dir: Seq<char>,
    results: Results,
    case: TestCase,
    event: JobEvent,
) -> bool {
    match event {
        JobEvent::FoundResult(entry) => {
            &&& database::has_usable(results, base_dir, case)
            &&& entry.entry()@ == results[database::result_file(base_dir, case)]
            &&& entry.base() == database::entry_dir(base_dir, case)
        },
        JobEvent::YouRunIt(output) => {
            &&& !database::has_usable(results, base_dir, case)
            &&& output.target() == database::case_target(base_dir, case)
        },
        _ => true,
    }
}

/// What a lookup hands out, of what it reads, is an answer to a job that looks
/// for a result.
pub proof fn lemma_lookup_answers(
    base_dir: Seq<char>,
    results: Results,
    case: TestCase,
    content: Content,
    event: JobEvent,
)
    requires
        database::reads(results, database::result_file(base_dir, case), content),
        match event {
            JobEvent::FoundResult(entry) => database::usable(content, case) == Some(entry.entry())
                && entry.base() == database::entry_dir(base_dir, case),
            JobEvent::YouRunIt(output) => database::usable(content, case) is None
                && output.target() == database::case_target(base_dir, case),
            _ => false,
        },
    ensures
        answered(base_dir, results, case, event),
{
    database::lemma_read_what_is_there(results, base_dir, case, content);
}

/// The steps are those of the given job.
pub open spec fn taken_by(runner: Runner, steps: Seq<JobStep>) -> bool {
    &&& job::is_course(*runner.case.test, steps)
    &&& steps.len() > 0 ==> match runner.start {
        Some(target) => job::starts_with_command(steps[0]) && steps[0].target == Some(target),
        None => job::starts_fresh(steps[0]),
    }
}

/// Jobs can make these moves, in this order, on a database in the given
/// directory that holds the results `before`. What is to be written to the
/// database is written.
pub open spec fn is_history(
    base_dir: Seq<char>,
    before: Results,
    jobs: Seq<Runner>,
    moves: Seq<Move>,
) -> bool {
    &&& forall|i: int| 0 <= i < moves.len() ==> 0 <= (#[trigger] moves[i]).job < jobs.len()
    &&& forall|j: int| 0 <= j < jobs.len() ==> taken_by(jobs[j], #[trigger] steps_of(moves, j))
    &&& forall|i: int|
        0 <= i < moves.len() ==> answered(
            base_dir,
            results_after(before, moves.take(i)),
            jobs[(#[trigger] moves[i]).job].case,
            moves[i].step.event,
        )
    &&& forall|i: int|
        0 <= i < moves.len() && (#[trigger] moves[i]).step.event is StoreFailed
            ==> (moves[i].step.target matches Some(target) && !target.kept)
}

/// Where a job is after some steps.
spec fn phase_now(steps: Seq<JobStep>) -> Option<Phase> {
    if steps.len() > 0 {
        Some(steps.last().after)
    } else {
        None
    }
}

/// Where the output of a job goes after some steps.
spec fn target_now(runner: Runner, steps: Seq<JobStep>) -> Option<Target> {
    if steps.len() > 0 {
        job::next_target(steps.last().target, steps.last().event)
    } else {
        runner.start
    }
}

/// What the rules say about a step, as far as it matters for the database.
spec fn step_facts(step: JobStep) -> bool {
    &&& step.action is Store ==> step.before == Phase::Running && step.after == Phase::Storing
        && step.action == job::stores(step.target->0, step.action->entry.result)
        && step.event !is YouRunIt
    &&& step.event matches JobEvent::Stored(entry) ==> step.made == Some(entry) && step.action
        == ActionView::Finish(OutcomeView::Success(entry))
    &&& step.event matches JobEvent::FoundResult(entry) ==> step.action == ActionView::Finish(
        OutcomeView::Success(entry),
    )
    &&& step.action is Spawn ==> step.before == Phase::AwaitingResources || step.before
        == Phase::CheckingOut
    &&& step.action is Lookup ==> step.before == Phase::AwaitingDeps
    &&& step.action matches ActionView::Finish(OutcomeView::Success(_)) ==> step.event
        is FoundResult || step.event is Stored
    &&& step.event is FoundResult || step.event is YouRunIt ==> step.before == Phase::LookingUp
    &&& step.event is Stored ==> step.before == Phase::Storing && !(step.action is Store)
    &&& step.after == Phase::Storing ==> step.action is Store
    &&& step.after == Phase::AwaitingDeps || step.after == Phase::LookingUp ==> step.before
        == Phase::AwaitingDeps
    &&& step.after == Phase::AwaitingResources ==> step.event is YouRunIt
    &&& step.after == Phase::CheckingOut ==> step.before == Phase::AwaitingResources
    &&& step.after == Phase::Spawning ==> step.before == Phase::AwaitingResources || step.before
        == Phase::CheckingOut
    &&& step.after == Phase::Running ==> step.before == Phase::Spawning
    &&& step.before == Phase::AwaitingDeps ==> step.after == Phase::AwaitingDeps || step.after
        == Phase::LookingUp || step.after == Phase::Done
    &&& step.before == Phase::LookingUp ==> step.after == Phase::Done || step.event is YouRunIt
    &&& step.before != Phase::Done
}

proof fn lemma_step_facts(test: Test, step: JobStep)
    requires
        job::follows_rules(test, step),
    ensures
        step_facts(step),
{
}

/// A course without its last step is a course, and the last step goes on where
/// it has led.
proof fn lemma_last_step(runner: Runner, fewer: Seq<JobStep>, step: JobStep)
    requires
        taken_by(runner, fewer.push(step)),
    ensures
        taken_by(runner, fewer),
        step_facts(step),
        follows_on(runner, fewer, step),
        fewer.len() > 0 ==> step_facts(fewer.last()),
{
    let steps = fewer.push(step);
    let test = *runner.case.test;
    assert(steps[fewer.len() as int] == step);
    assert(job::follows_rules(test, steps[fewer.len() as int]));
    lemma_step_facts(test, step);
    assert forall|i: int| 0 <= i < fewer.len() implies job::follows_rules(
        test,
        #[trigger] fewer[i],
    ) by {
        assert(fewer[i] == steps[i]);
    }
    assert forall|i: int, j: int| 0 <= i && j == i + 1 && j < fewer.len() implies job::goes_on(
        #[trigger] fewer[i],
        #[trigger] fewer[j],
    ) by {
        assert(job::goes_on(steps[i], steps[j]));
    }
    if fewer.len() > 0 {
        assert(steps[0] == fewer[0]);
        assert(steps[fewer.len() - 1] == fewer.last());
        assert(job::goes_on(steps[fewer.len() - 1], steps[fewer.len() as int]));
        lemma_step_facts(test, fewer[fewer.len() - 1]);
    }
}

/// A step goes on where the steps before have led.
spec fn follows_on(runner: Runner, fewer: Seq<JobStep>, step: JobStep) -> bool {
    &&& step.target == target_now(runner, fewer)
    &&& fewer.len() > 0 ==> job::goes_on(fewer.last(), step)
    &&& match phase_now(fewer) {
        Some(phase) => step.before == phase,
        None => match runner.start {
            Some(_) => step.before == Phase::Spawning,
            None => step.before == Phase::AwaitingDeps || step.before == Phase::LookingUp,
        },
    }
}

/// A history without its last move is a history, and what holds of that move.
proof fn lemma_last_move(base_dir: Seq<char>, before: Results, jobs: Seq<Runner>, moves: Seq<Move>)
    requires
        is_history(base_dir, before, jobs, moves),
        moves.len() > 0,
    ensures
        is_history(base_dir, before, jobs, moves.drop_last()),
        0 <= moves.last().job < jobs.len(),
        answered(
            base_dir,
            results_after(before, moves.drop_last()),
            jobs[moves.last().job].case,
            moves.last().step.event,
        ),
        step_facts(moves.last().step),
        follows_on(
            jobs[moves.last().job],
            steps_of(moves.drop_last(), moves.last().job),
            moves.last().step,
        ),
        ({
            let fewer = steps_of(moves.drop_last(), moves.last().job);
            fewer.len() > 0 ==> step_facts(fewer.last())
        }),
{
    let less = moves.drop_last();
    let n = moves.len() - 1;
    let at = moves[n].job;
    assert(moves.take(n) =~= less);
    assert(taken_by(jobs[at], steps_of(moves, at)));
    lemma_last_step(jobs[at], steps_of(less, at), moves.last().step);
    assert forall|j: int| 0 <= j < jobs.len() implies taken_by(
        jobs[j],
        #[trigger] steps_of(less, j),
    ) by {
        assert(taken_by(jobs[j], steps_of(moves, j)));
    }
    assert forall|i: int| 0 <= i < less.len() implies answered(
        base_dir,
        results_after(before, less.take(i)),
        jobs[(#[trigger] less[i]).job].case,
        less[i].step.event,
    ) by {
        assert(less[i] == moves[i]);
        assert(less.take(i) =~= moves.take(i));
    }
    assert forall|i: int| 0 <= i < less.len() implies 0 <= (#[trigger] less[i]).job
        < jobs.len() by {
        assert(less[i] == moves[i]);
    }
}

/// Where the output of a job goes: one that starts with its command keeps the
/// place that it was given, and the others get the place for their case.
proof fn lemma_targets(
    base_dir: Seq<char>,
    before: Results,
    jobs: Seq<Runner>,
    moves: Seq<Move>,
    j: int,
)
    requires
        is_history(base_dir, before, jobs, moves),
        0 <= j < jobs.len(),
    ensures
        ({
            let target = target_now(jobs[j], steps_of(moves, j));
            let phase = phase_now(steps_of(moves, j));
            &&& jobs[j].start is Some ==> target == jobs[j].start
            &&& jobs[j].start is Some ==> phase != Some(Phase::AwaitingDeps) && phase != Some(
                Phase::LookingUp,
            ) && phase != Some(Phase::AwaitingResources) && phase != Some(Phase::CheckingOut)
            &&& jobs[j].start is None ==> target is None || target == Some(
                database::case_target(base_dir, jobs[j].case),
            )
            &&& jobs[j].start is None && (phase == Some(Phase::AwaitingResources) || phase == Some(
                Phase::CheckingOut,
            ) || phase == Some(Phase::Spawning) || phase == Some(Phase::Running) || phase == Some(
                Phase::Storing,
            )) ==> target is Some
        }),
    decreases moves.len(),
{
    if moves.len() > 0 {
        lemma_last_move(base_dir, before, jobs, moves);
        lemma_targets(base_dir, before, jobs, moves.drop_last(), j);
    }
}

/// What the last move writes to the database: a job that starts with its
/// command stores its result where it was told to, and the others store theirs
/// as that of their case.
proof fn lemma_last_write(
    base_dir: Seq<char>,
    before: Results,
    jobs: Seq<Runner>,
    moves: Seq<Move>,
)
    requires
        is_history(base_dir, before, jobs, moves),
        moves.len() > 0,
    ensures
        moves.last().step.action is Store ==> moves.last().step.action == job::stores(
            match jobs[moves.last().job].start {
                Some(target) => target,
                None => database::case_target(base_dir, jobs[moves.last().job].case),
            },
            moves.last().step.action->entry.result,
        ),
{
    lemma_last_move(base_dir, before, jobs, moves);
    lemma_targets(base_dir, before, jobs, moves.drop_last(), moves.last().job);
}

/// Jobs agree on a case if those that store their results in the file of that
/// case do so for the same configuration, and none stores anything of its own
/// choice.
pub open spec fn agree(base_dir: Seq<char>, jobs: Seq<Runner>, case: TestCase) -> bool {
    forall|j: int|
        0 <= j < jobs.len() ==> match (#[trigger] jobs[j]).start {
            Some(target) => !target.kept,
            None => database::result_file(base_dir, jobs[j].case) == database::result_file(
                base_dir,
                case,
            ) ==> jobs[j].case.test.config_hash@ == case.test.config_hash@,
        }
}

/// A result that may be used for a test case stays usable whatever the jobs do,
/// as long as they agree on the case.
pub proof fn lemma_results_stay(
    base_dir: Seq<char>,
    before: Results,
    jobs: Seq<Runner>,
    moves: Seq<Move>,
    case: TestCase,
)
    requires
        is_history(base_dir, before, jobs, moves),
        agree(base_dir, jobs, case),
        database::has_usable(before, base_dir, case),
    ensures
        database::has_usable(results_after(before, moves), base_dir, case),
    decreases moves.len(),
{
    if moves.len() > 0 {
        lemma_last_move(base_dir, before, jobs, moves);
        lemma_last_write(base_dir, before, jobs, moves);
        lemma_results_stay(base_dir, before, jobs, moves.drop_last(), case);
    }
}

/// A job has reported a result.
pub open spec fn has_finished(steps: Seq<JobStep>) -> bool {
    steps.len() > 0 && steps.last().action matches ActionView::Finish(OutcomeView::Success(_))
}

/// Once a job that stores its result has finished with a result, the database
/// holds one that may be used for its case, if the test accepts cached results.
pub proof fn lemma_finished_leaves_result(
    base_dir: Seq<char>,
    before: Results,
    jobs: Seq<Runner>,
    moves: Seq<Move>,
    j: int,
)
    requires
        is_history(base_dir, before, jobs, moves),
        0 <= j < jobs.len(),
        jobs[j].start is None,
        jobs[j].case.cache_hash is Some,
        agree(base_dir, jobs, jobs[j].case),
        has_finished(steps_of(moves, j)),
    ensures
        database::has_usable(results_after(before, moves), base_dir, jobs[j].case),
{
    lemma_stored_then_usable(base_dir, before, jobs, moves, j);
}

proof fn lemma_stored_then_usable(
    base_dir: Seq<char>,
    before: Results,
    jobs: Seq<Runner>,
    moves: Seq<Move>,
    j: int,
)
    requires
        is_history(base_dir, before, jobs, moves),
        0 <= j < jobs.len(),
        jobs[j].start is None,
        jobs[j].case.cache_hash is Some,
        agree(base_dir, jobs, jobs[j].case),
        has_finished(steps_of(moves, j)) || phase_now(steps_of(moves, j)) == Some(
            Phase::Storing,
        ),
    ensures
        database::has_usable(results_after(before, moves), base_dir, jobs[j].case),
    decreases moves.len(),
{
    let less = moves.drop_last();
    lemma_last_move(base_dir, before, jobs, moves);
    lemma_last_write(base_dir, before, jobs, moves);
    if moves.last().job != j {
        lemma_stored_then_usable(base_dir, before, jobs, less, j);
    } else if moves.last().step.event is Stored {
        lemma_stored_then_usable(base_dir, before, jobs, less, j);
    }
}

/// What a job that stores its result reports, whether it has run its command or
/// found a result, is an entry in the directory of its case. If it has run its
/// command, that is where the output and the artifacts of the command went.
pub proof fn lemma_entry_of_case(
    base_dir: Seq<char>,
    before: Results,
    jobs: Seq<Runner>,
    moves: Seq<Move>,
    i: int,
)
    requires
        is_history(base_dir, before, jobs, moves),
        0 <= i < moves.len(),
        jobs[moves[i].job].start is None,
    ensures
        moves[i].step.action matches ActionView::Finish(OutcomeView::Success(entry))
            ==> entry.base() == database::entry_dir(base_dir, jobs[moves[i].job].case),
        moves[i].step.action is Spawn ==> moves[i].step.target == Some(
            database::case_target(base_dir, jobs[moves[i].job].case),
        ),
    decreases moves.len(),
{
    lemma_last_move(base_dir, before, jobs, moves);
    if i < moves.len() - 1 {
        lemma_entry_of_case(base_dir, before, jobs, moves.drop_last(), i);
    } else {
        lemma_targets(base_dir, before, jobs, moves.drop_last(), moves[i].job);
    }
}

/// A job is told where the jobs that it depends on left their artifacts: below
/// the directory of the case of each of them, whether that job has run its
/// command or found a result.
pub proof fn lemma_dependant_finds_artifacts(
    base_dir: Seq<char>,
    before: Results,
    jobs: Seq<Runner>,
    moves: Seq<Move>,
    i: int,
    dependant: TestJob,
    k: int,
)
    requires
        is_history(base_dir, before, jobs, moves),
        0 <= i < moves.len(),
        jobs[moves[i].job].start is None,
        dependant.wf(),
        dependant.phase() != Phase::AwaitingDeps,
        dependant.phase() != Phase::Done,
        0 <= k < dependant.awaited().len(),
        dependant.awaited()[k] == jobs[moves[i].job].case.test.name@,
        moves[i].step.action == ActionView::Finish(
            OutcomeView::Success(dependant.deps()[dependant.awaited()[k]]),
        ),
    ensures
        job::artifact_vars(dependant.dep_list()).contains(
            (
                "LIMMAT_ARTIFACTS_"@ + jobs[moves[i].job].case.test.name@,
                strings::path_joined(
                    database::entry_dir(base_dir, jobs[moves[i].job].case),
                    "artifacts"@,
                ),
            ),
        ),
{
    lemma_entry_of_case(base_dir, before, jobs, moves, i);
    dependant.lemma_artifacts_known(k);
}

/// A test is not run again while the database holds a result that may be used:
/// a job that looks for a result then starts no command.
pub proof fn lemma_not_run_again(
    base_dir: Seq<char>,
    before: Results,
    jobs: Seq<Runner>,
    moves: Seq<Move>,
    j: int,
    i: int,
)
    requires
        is_history(base_dir, before, jobs, moves),
        0 <= j < jobs.len(),
        jobs[j].start is None,
        agree(base_dir, jobs, jobs[j].case),
        database::has_usable(before, base_dir, jobs[j].case),
        0 <= i < moves.len(),
        moves[i].job == j,
    ensures
        !(moves[i].step.action is Spawn),
        !(moves[i].step.action is Store),
    decreases moves.len(),
{
    lemma_last_move(base_dir, before, jobs, moves);
    if i < moves.len() - 1 {
        lemma_not_run_again(base_dir, before, jobs, moves.drop_last(), j, i);
    } else {
        lemma_waits_or_is_done(base_dir, before, jobs, moves.drop_last(), j);
    }
}

/// A job for which there is a result does not get past looking for it.
proof fn lemma_waits_or_is_done(
    base_dir: Seq<char>,
    before: Results,
    jobs: Seq<Runner>,
    moves: Seq<Move>,
    j: int,
)
    requires
        is_history(base_dir, before, jobs, moves),
        0 <= j < jobs.len(),
        jobs[j].start is None,
        agree(base_dir, jobs, jobs[j].case),
        database::has_usable(before, base_dir, jobs[j].case),
    ensures
        match phase_now(steps_of(moves, j)) {
            Some(phase) => phase == Phase::AwaitingDeps || phase == Phase::LookingUp || phase
                == Phase::Done,
            None => true,
        },
    decreases moves.len(),
{
    if moves.len() > 0 {
        lemma_last_move(base_dir, before, jobs, moves);
        lemma_waits_or_is_done(base_dir, before, jobs, moves.drop_last(), j);
        lemma_results_stay(base_dir, before, jobs, moves.drop_last(), jobs[j].case);
    }
}

/// A job that starts with its command starts no other.
pub proof fn lemma_one_shot_starts_nothing(
    base_dir: Seq<char>,
    before: Results,
    jobs: Seq<Runner>,
    moves: Seq<Move>,
    i: int,
)
    requires
        is_history(base_dir, before, jobs, moves),
        0 <= i < moves.len(),
        jobs[moves[i].job].start is Some,
    ensures
        !(moves[i].step.action is Spawn),
        !(moves[i].step.action is Lookup),
    decreases moves.len(),
{
    lemma_last_move(base_dir, before, jobs, moves);
    if i < moves.len() - 1 {
        lemma_one_shot_starts_nothing(base_dir, before, jobs, moves.drop_last(), i);
    } else {
        lemma_targets(base_dir, before, jobs, moves.drop_last(), moves[i].job);
    }
}

/// Only the files of the cases whose jobs store their results are written.
pub proof fn lemma_other_files_untouched(
    base_dir: Seq<char>,
    before: Results,
    jobs: Seq<Runner>,
    moves: Seq<Move>,
    file: Seq<char>,
)
    requires
        is_history(base_dir, before, jobs, moves),
        forall|j: int|
            0 <= j < jobs.len() ==> match (#[trigger] jobs[j]).start {
                Some(target) => !target.kept,
                None => database::result_file(base_dir, jobs[j].case) != file,
            },
    ensures
        results_after(before, moves).dom().contains(file) <==> before.dom().contains(file),
        before.dom().contains(file) ==> results_after(before, moves)[file] == before[file],
    decreases moves.len(),
{
    if moves.len() > 0 {
        lemma_last_move(base_dir, before, jobs, moves);
        lemma_last_write(base_dir, before, jobs, moves);
        lemma_other_files_untouched(base_dir, before, jobs, moves.drop_last(), file);
    }
}

} // verus!

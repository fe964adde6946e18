//! The course of a single test job: it waits for the jobs it depends on, looks
//! for a result that is there already, takes the resources that it needs, runs
//! the test and stores the result, and it can be canceled on the way.
use std::sync::Arc;

use crate::assoc;
use crate::assoc::Assoc;
use crate::database;
use crate::database::{
    DatabaseEntry, DatabaseOutput, EntryView, OutputStream, ResultWrite, Target,
};
use crate::ident;
use crate::ident::Ident;
use crate::process::ExitStatus;
use crate::resource;
use crate::resource::Resources;
use crate::strings;
use crate::test::{
    JobEnv, Notification, Test, TestCase, TestInconclusive, TestName, TestOutcome, TestResult,
    TestStatus,
};
use vstd::prelude::*;

verus! {

/// How far a job has come.
#[derive(Debug, Clone, Copy, PartialEq, Eq, Structural)]
pub enum Phase {
    /// Jobs that it depends on are not finished.
    AwaitingDeps,
    /// The database is asked for a result.
    LookingUp,
    /// It waits for its resources.
    AwaitingResources,
    /// The commit is checked out in a worktree of its own.
    CheckingOut,
    /// The test command is started.
    Spawning,
    /// The test command runs.
    Running,
    /// It was canceled, and the command was asked to terminate.
    Terminating,
    /// The command did not terminate in time and was killed.
    Killing,
    /// The result is stored.
    Storing,
    /// The outcome was reported.
    Done,
}

/// Something that a job waits for.
#[derive(Debug)]
pub enum JobEvent {
    /// A job that it depends on has finished, with this outcome. `None` means
    /// that its outcome got lost.
    DepFinished(TestName, Option<TestOutcome>),
    /// The database could not be asked.
    LookupFailed(String),
    /// There is a result already.
    FoundResult(Arc<DatabaseEntry>),
    /// There is no result, the test is to be run and its output goes here.
    YouRunIt(DatabaseOutput),
    /// The resources were granted; whether a worktree is among them.
    GotResources(bool),
    CheckedOut,
    CheckoutFailed(String),
    Spawned,
    /// The files for the output of the command could not be created.
    OutputFailed(String),
    /// The command could not be started.
    SpawnFailed(String),
    /// The command has ended; the error says why it could not be waited for.
    ChildEnded(Result<ExitStatus, String>),
    /// The job is no longer wanted.
    Canceled,
    /// The time that the command had for shutting down is over.
    GraceOver,
    /// The result that the command has led to was stored.
    Stored(Arc<DatabaseEntry>),
    StoreFailed(String),
}

/// What is to be done next for a job.
#[derive(Debug)]
pub enum JobAction {
    /// Wait until another job that it depends on has finished.
    AwaitDeps,
    /// Ask the database for a result.
    Lookup,
    /// Wait for the resources or for being canceled, with the latter first if
    /// both have happened.
    AwaitResources,
    /// Check out the commit in the worktree that was granted.
    Checkout,
    /// Start the command, in the worktree that was granted or else in the main
    /// one.
    Spawn(bool),
    /// Wait for the command to end or for being canceled.
    AwaitChild,
    /// Write this result to the file, if there is one.
    Store(Arc<DatabaseEntry>, Option<String>),
    /// Ask the command to terminate (SIGTERM), then wait until it ends or its
    /// time for that is over.
    Terminate,
    /// Kill the command (SIGKILL) with all its children, then wait for it.
    Kill,
    /// Report this outcome.
    Finish(TestOutcome),
}

/// An outcome with messages as texts.
pub enum OutcomeView {
    Success(Arc<DatabaseEntry>),
    Canceled,
    Error(Seq<char>),
}

/// An action with messages as texts.
pub enum ActionView {
    AwaitDeps,
    Lookup,
    AwaitResources,
    Checkout,
    Spawn(bool),
    AwaitChild,
    /// What the entry holds, its directory, and what is written to the database.
    Store { entry: EntryView, dir: Seq<char>, write: Option<ResultWrite> },
    Terminate,
    Kill,
    Finish(OutcomeView),
}

/// The outcome with its message as text.
pub open spec fn outcome_view(outcome: TestOutcome) -> OutcomeView {
    match outcome {
        Ok(entry) => OutcomeView::Success(entry),
        Err(TestInconclusive::Canceled) => OutcomeView::Canceled,
        Err(TestInconclusive::Error(msg)) => OutcomeView::Error(msg@),
    }
}

impl View for JobAction {
    type V = ActionView;

    open spec fn view(&self) -> ActionView {
        match self {
            JobAction::AwaitDeps => ActionView::AwaitDeps,
            JobAction::Lookup => ActionView::Lookup,
            JobAction::AwaitResources => ActionView::AwaitResources,
            JobAction::Checkout => ActionView::Checkout,
            JobAction::Spawn(in_worktree) => ActionView::Spawn(*in_worktree),
            JobAction::AwaitChild => ActionView::AwaitChild,
            JobAction::Store(entry, file) => ActionView::Store {
                entry: entry.entry()@,
                dir: entry.base(),
                write: database::entry_write(**entry, *file),
            },
            JobAction::Terminate => ActionView::Terminate,
            JobAction::Kill => ActionView::Kill,
            JobAction::Finish(outcome) => ActionView::Finish(outcome_view(*outcome)),
        }
    }
}

/// A job is over, for the given reason.
pub open spec fn fails(msg: Seq<char>) -> (Phase, ActionView) {
    (Phase::Done, ActionView::Finish(OutcomeView::Error(msg)))
}

/// A job is over because it was canceled.
pub open spec fn is_canceled() -> (Phase, ActionView) {
    (Phase::Done, ActionView::Finish(OutcomeView::Canceled))
}

/// A dependency succeeded: it has a result, and that is the exit code 0.
pub open spec fn succeeded(outcome: Option<TestOutcome>) -> bool {
    outcome matches Some(Ok(entry)) && entry.entry().result.exit_code == 0
}

/// Whether a job for a test can meet an event in a phase. It is granted a
/// worktree if the test needs one.
pub open spec fn expects(test: Test, phase: Phase, event: JobEvent) -> bool {
    match (phase, event) {
        (Phase::AwaitingDeps, JobEvent::DepFinished(_, _)) => true,
        (Phase::LookingUp, JobEvent::LookupFailed(_)) => true,
        (Phase::LookingUp, JobEvent::FoundResult(_)) => true,
        (Phase::LookingUp, JobEvent::YouRunIt(_)) => true,
        (Phase::AwaitingResources, JobEvent::Canceled) => true,
        (Phase::AwaitingResources, JobEvent::GotResources(worktree)) => worktree
            == test.worktree_needed(),
        (Phase::CheckingOut, JobEvent::CheckedOut) => true,
        (Phase::CheckingOut, JobEvent::CheckoutFailed(_)) => true,
        (Phase::Spawning, JobEvent::Spawned) => true,
        (Phase::Spawning, JobEvent::OutputFailed(_)) => true,
        (Phase::Spawning, JobEvent::SpawnFailed(_)) => true,
        (Phase::Running, JobEvent::ChildEnded(_)) => true,
        (Phase::Running, JobEvent::Canceled) => true,
        (Phase::Terminating, JobEvent::ChildEnded(_)) => true,
        (Phase::Terminating, JobEvent::GraceOver) => true,
        (Phase::Killing, JobEvent::ChildEnded(_)) => true,
        (Phase::Storing, JobEvent::Stored(_)) => true,
        (Phase::Storing, JobEvent::StoreFailed(_)) => true,
        _ => false,
    }
}

/// Where the output of a job goes after an event.
pub open spec fn next_target(target: Option<Target>, event: JobEvent) -> Option<Target> {
    match event {
        JobEvent::YouRunIt(output) => Some(output.target()),
        _ => target,
    }
}

/// The results of the jobs that a job depends on, after an event.
pub open spec fn next_deps(
    deps: Map<Seq<char>, Arc<DatabaseEntry>>,
    event: JobEvent,
) -> Map<Seq<char>, Arc<DatabaseEntry>> {
    match event {
        JobEvent::DepFinished(name, Some(Ok(entry))) => if entry.entry().result.exit_code == 0 {
            deps.insert(name@, entry)
        } else {
            deps
        },
        _ => deps,
    }
}

/// The jobs that a job still waits for after an event.
pub open spec fn next_waiting(waiting: Seq<Seq<char>>, event: JobEvent) -> Seq<Seq<char>> {
    match event {
        JobEvent::DepFinished(name, Some(Ok(entry))) => if entry.entry().result.exit_code == 0 {
            waiting.remove(waiting.index_of_first(name@)->0)
        } else {
            waiting
        },
        _ => waiting,
    }
}

/// A result is stored where the output of the job goes.
pub open spec fn stores(target: Target, result: TestResult) -> ActionView {
    ActionView::Store {
        entry: EntryView { config_hash: target.config_hash, result },
        dir: target.dir,
        write: database::written(target, result),
    }
}

/// What a job for a test does about an event that it expects: `waiting` is the
/// number of jobs that it still waits for, and `target` is where its output
/// goes.
pub open spec fn transition(
    test: Test,
    phase: Phase,
    event: JobEvent,
    waiting: nat,
    target: Option<Target>,
) -> (Phase, ActionView) {
    match (phase, event) {
        (Phase::AwaitingDeps, JobEvent::DepFinished(name, outcome)) => if !succeeded(outcome) {
            fails("dependency job "@ + name@ + " failed"@)
        } else if waiting > 1 {
            (Phase::AwaitingDeps, ActionView::AwaitDeps)
        } else {
            (Phase::LookingUp, ActionView::Lookup)
        },
        (Phase::LookingUp, JobEvent::LookupFailed(msg)) => fails("database lookup: "@ + msg@),
        (Phase::LookingUp, JobEvent::FoundResult(entry)) => (
            Phase::Done,
            ActionView::Finish(OutcomeView::Success(entry)),
        ),
        (Phase::LookingUp, JobEvent::YouRunIt(_)) => (
            Phase::AwaitingResources,
            ActionView::AwaitResources,
        ),
        (Phase::AwaitingResources, JobEvent::Canceled) => is_canceled(),
        (Phase::AwaitingResources, JobEvent::GotResources(worktree)) => if worktree {
            (Phase::CheckingOut, ActionView::Checkout)
        } else {
            (Phase::Spawning, ActionView::Spawn(false))
        },
        (Phase::CheckingOut, JobEvent::CheckoutFailed(msg)) => fails(
            "failed to check out revision: "@ + msg@,
        ),
        (Phase::CheckingOut, JobEvent::CheckedOut) => (Phase::Spawning, ActionView::Spawn(true)),
        (Phase::Spawning, JobEvent::OutputFailed(msg)) => fails(
            "no stdout handle available: "@ + msg@,
        ),
        (Phase::Spawning, JobEvent::SpawnFailed(msg)) => fails("spawning test command: "@ + msg@),
        (Phase::Spawning, JobEvent::Spawned) => (Phase::Running, ActionView::AwaitChild),
        (Phase::Running, JobEvent::Canceled) => (Phase::Terminating, ActionView::Terminate),
        (Phase::Running, JobEvent::ChildEnded(Err(msg))) => fails("awaiting child: "@ + msg@),
        (Phase::Running, JobEvent::ChildEnded(Ok(ExitStatus::Signaled(signal)))) => fails(
            "terminated by signal "@ + strings::decimal(signal as int),
        ),
        (Phase::Running, JobEvent::ChildEnded(Ok(ExitStatus::Exited(code)))) => {
            let result = TestResult { exit_code: code };
            if test.error_exit_codes@.contains(code) {
                fails(result.text())
            } else {
                (Phase::Storing, stores(target->0, result))
            }
        },
        (Phase::Terminating, JobEvent::GraceOver) => (Phase::Killing, ActionView::Kill),
        (Phase::Terminating, JobEvent::ChildEnded(_)) => is_canceled(),
        (Phase::Killing, JobEvent::ChildEnded(_)) => is_canceled(),
        (Phase::Storing, JobEvent::Stored(entry)) => (
            Phase::Done,
            ActionView::Finish(OutcomeView::Success(entry)),
        ),
        (Phase::Storing, JobEvent::StoreFailed(msg)) => fails(msg@),
        _ => (Phase::Done, ActionView::AwaitDeps),
    }
}

/// Whether `code` is one of the codes.
fn has_code(codes: &Vec<i32>, code: i32) -> (r: bool)
    ensures
        r == codes@.contains(code),
{
    let mut i: usize = 0;
    while i < codes.len()
        invariant
            i <= codes@.len(),
            forall|k: int| 0 <= k < i ==> codes@[k] != code,
        decreases codes@.len() - i,
    {
        if codes[i] == code {
            assert(codes@[i as int] == code);
            return true;
        }
        i += 1;
    }
    false
}

/// `text`, after `context`.
fn in_context(context: &str, text: &str) -> (r: String)
    ensures
        r@ == context@ + text@,
{
    let mut out: String = String::from_str(context);
    out.append(text);
    out
}

/// Puts a job together.
#[derive(Debug)]
pub struct TestJobBuilder {
    test_case: TestCase,
    env: JobEnv,
    wait_for: Vec<TestName>,
}

impl TestJobBuilder {
    /// A job for a test case, which shouldn't start until the jobs in
    /// `wait_for` have succeeded.
    pub fn new(test_case: TestCase, env: JobEnv, wait_for: Vec<TestName>) -> (r: Self)
        ensures
            r.case() == test_case,
            r.base_env() == env@,
            r.awaited() == ident::views(wait_for@),
    {
        TestJobBuilder { test_case, env, wait_for }
    }

    /// The case that the job is for.
    pub closed spec fn case(&self) -> TestCase {
        self.test_case
    }

    /// The environment that the job shares with others.
    pub closed spec fn base_env(&self) -> Seq<(String, String)> {
        self.env@
    }

    /// The jobs that it waits for.
    pub closed spec fn awaited(&self) -> Seq<Seq<char>> {
        ident::views(self.wait_for@)
    }

    pub fn build(self) -> (r: TestJob)
        ensures
            r.wf(),
            r.case() == self.case(),
            r.base_env() == self.base_env(),
            r.awaited() == self.awaited(),
            r.waiting() == self.awaited(),
            r.deps() == Map::<Seq<char>, Arc<DatabaseEntry>>::empty(),
            r.target() is None,
            r.phase() == (if self.awaited().len() == 0 {
                Phase::LookingUp
            } else {
                Phase::AwaitingDeps
            }),
    {
        let ghost awaited = ident::views(self.wait_for@);
        let phase = if self.wait_for.len() == 0 {
            Phase::LookingUp
        } else {
            Phase::AwaitingDeps
        };
        TestJob {
            test_case: self.test_case,
            base_env: self.env,
            wait_for: self.wait_for,
            dep_db_entries: Assoc::new(),
            phase,
            output: None,
            awaited: Ghost(awaited),
            target: Ghost(None),
            made: Ghost(None),
        }
    }
}

/// A result of a job with this name is there, and it is a success.
pub open spec fn has_succeeded(
    deps: Map<Seq<char>, Arc<DatabaseEntry>>,
    name: Seq<char>,
) -> bool {
    deps.dom().contains(name) && deps[name].entry().result.exit_code == 0
}

/// Each job that was to be awaited is still awaited or has succeeded.
spec fn accounted_for(
    awaited: Seq<Seq<char>>,
    waiting: Seq<Seq<char>>,
    deps: Map<Seq<char>, Arc<DatabaseEntry>>,
) -> bool {
    forall|i: int|
        0 <= i < awaited.len() ==> waiting.contains(#[trigger] awaited[i]) || has_succeeded(
            deps,
            awaited[i],
        )
}

/// The results of the jobs that a job depends on.
pub type DepDatabaseEntries = Assoc<TestName, Arc<DatabaseEntry>>;

/// A job that runs a test case.
pub struct TestJob {
    test_case: TestCase,
    // Just the parts of the environment that are shared with other jobs.
    base_env: JobEnv,
    // Jobs that have not finished yet.
    wait_for: Vec<TestName>,
    dep_db_entries: DepDatabaseEntries,
    phase: Phase,
    // Where the output of the command goes, until there is a result.
    output: Option<DatabaseOutput>,
    awaited: Ghost<Seq<Seq<char>>>,
    target: Ghost<Option<Target>>,
    made: Ghost<Option<Arc<DatabaseEntry>>>,
}

impl TestJob {
    /// The case that the job is for.
    pub closed spec fn case(&self) -> TestCase {
        self.test_case
    }

    /// The environment that the job shares with others.
    pub closed spec fn base_env(&self) -> Seq<(String, String)> {
        self.base_env@
    }

    /// All the jobs that it depends on.
    pub closed spec fn awaited(&self) -> Seq<Seq<char>> {
        self.awaited@
    }

    /// The jobs that it still waits for.
    pub closed spec fn waiting(&self) -> Seq<Seq<char>> {
        ident::views(self.wait_for@)
    }

    /// The results of the jobs that it depends on.
    pub closed spec fn deps(&self) -> Map<Seq<char>, Arc<DatabaseEntry>> {
        self.dep_db_entries@
    }

    /// The results of the jobs that it depends on, in the order in which they
    /// came.
    pub closed spec fn dep_list(&self) -> Seq<(TestName, Arc<DatabaseEntry>)> {
        self.dep_db_entries.list()
    }

    /// How far the job has come.
    pub closed spec fn phase(&self) -> Phase {
        self.phase
    }

    /// Where its output goes, once that is known.
    pub closed spec fn target(&self) -> Option<Target> {
        self.target@
    }

    /// The result that it has come to by running its command.
    pub closed spec fn made(&self) -> Option<Arc<DatabaseEntry>> {
        self.made@
    }

    /// Whether the streams for the output of the command were handed out.
    pub closed spec fn opened(&self) -> bool {
        self.output matches Some(output) && (output.has_stdout() || output.has_stderr())
    }

    /// Each job that it depends on is still awaited or has succeeded, and none
    /// is awaited any more once the job has gone on. There is a place for the
    /// output from when the test is to be run until there is a result, and that
    /// is where the entry for the result belongs.
    pub closed spec fn wf(&self) -> bool {
        &&& match self.phase {
            Phase::AwaitingResources | Phase::CheckingOut => {
                &&& self.output matches Some(output)
                &&& output.fresh()
                &&& self.target@ == Some(output.target())
            },
            Phase::Spawning | Phase::Running => {
                &&& self.output matches Some(output)
                &&& output.wf()
                &&& self.target@ == Some(output.target())
            },
            Phase::Storing => {
                &&& self.target@ matches Some(target)
                &&& self.made@ matches Some(entry)
                &&& entry.base() == target.dir
                &&& entry.entry().config_hash@ == target.config_hash
            },
            _ => true,
        }
        &&& self.dep_db_entries.wf()
        &&& accounted_for(self.awaited(), self.waiting(), self.deps())
        &&& self.phase == Phase::AwaitingDeps ==> self.wait_for@.len() > 0
        &&& self.phase != Phase::AwaitingDeps && self.phase != Phase::Done
            ==> self.wait_for@.len() == 0
    }

    /// What to do first.
    pub fn first_action(&self) -> (r: JobAction)
        requires
            self.wf(),
            self.phase() == Phase::AwaitingDeps || self.phase() == Phase::LookingUp,
        ensures
            r@ == (if self.phase() == Phase::LookingUp {
                ActionView::Lookup
            } else {
                ActionView::AwaitDeps
            }),
    {
        match self.phase {
            Phase::LookingUp => JobAction::Lookup,
            _ => JobAction::AwaitDeps,
        }
    }

    /// A job that had to go on only does so once all the jobs that it depends
    /// on have succeeded.
    pub proof fn lemma_dependencies_first(&self)
        requires
            self.wf(),
            self.phase() != Phase::AwaitingDeps,
            self.phase() != Phase::Done,
        ensures
            forall|i: int|
                0 <= i < self.awaited().len() ==> has_succeeded(
                    self.deps(),
                    #[trigger] self.awaited()[i],
                ),
    {
        assert(self.waiting() =~= Seq::empty());
    }

    /// Once a job goes on, the environment of its command has a variable for
    /// the artifacts of each job that it depends on: they are below the directory
    /// of the entry that this job reported.
    pub proof fn lemma_artifacts_known(&self, i: int)
        requires
            self.wf(),
            self.phase() != Phase::AwaitingDeps,
            self.phase() != Phase::Done,
            0 <= i < self.awaited().len(),
        ensures
            self.deps().dom().contains(self.awaited()[i]),
            artifact_vars(self.dep_list()).contains(
                (
                    "LIMMAT_ARTIFACTS_"@ + self.awaited()[i],
                    strings::path_joined(
                        self.deps()[self.awaited()[i]].base(),
                        "artifacts"@,
                    ),
                ),
            ),
    {
        self.lemma_dependencies_first();
        lemma_artifact_var(self.dep_db_entries, self.awaited()[i]);
    }

    /// The test case that the job is for.
    pub fn test_case(&self) -> (r: &TestCase)
        ensures
            *r == self.case(),
    {
        &self.test_case
    }

    pub fn test_name(&self) -> (r: &TestName)
        ensures
            *r == self.case().test.name,
    {
        &self.test_case.test.name
    }

    /// Takes note of the end of a job that this one depends on: the outcome if
    /// it was a success.
    fn note_dependency(&mut self, name: TestName, outcome: Option<TestOutcome>) -> (r: bool)
        requires
            old(self).wf(),
            old(self).phase() == Phase::AwaitingDeps,
            old(self).waiting().contains(name@),
        ensures
            r == succeeded(outcome),
            final(self).case() == old(self).case(),
            final(self).base_env() == old(self).base_env(),
            final(self).awaited() == old(self).awaited(),
            final(self).target() == old(self).target(),
            final(self).made() == old(self).made(),
            final(self).phase() == old(self).phase(),
            final(self).dep_db_entries.wf(),
            r ==> {
                &&& final(self).waiting().len() == old(self).waiting().len() - 1
                &&& final(self).waiting() == old(self).waiting().remove(
                    old(self).waiting().index_of_first(name@)->0,
                )
                &&& outcome matches Some(Ok(entry)) && final(self).deps() == old(self).deps().insert(
                    name@,
                    entry,
                )
                &&& accounted_for(
                    final(self).awaited(),
                    final(self).waiting(),
                    final(self).deps(),
                )
            },
            !r ==> final(self).waiting() == old(self).waiting() && final(self).deps()
                == old(self).deps() && final(self).wait_for == old(self).wait_for
                && final(self).dep_db_entries == old(self).dep_db_entries,
    {
        let entry = match outcome {
            Some(Ok(entry)) => entry,
            _ => {
                return false;
            },
        };
        if entry.exit_code() != 0 {
            return false;
        }
        let ghost before = self.waiting();
        let ghost had = self.deps();
        let mut i: usize = 0;
        while i < self.wait_for.len() && !self.wait_for[i].same(&name)
            invariant
                i <= self.wait_for@.len(),
                before == ident::views(self.wait_for@),
                forall|k: int| 0 <= k < i ==> before[k] != name@,
            decreases self.wait_for@.len() - i,
        {
            i += 1;
        }
        let ghost id = name@;
        proof {
            let k = before.index_of(id);
            assert(before[k] == id);
            assert(i < before.len());
            assert(before[i as int] == id);
            before.index_of_first_ensures(id);
            let first = before.index_of_first(id)->0;
            assert(first == i) by {
                if first < i {
                    assert(before[first] != id);
                }
            }
            assert(before.index_of_first(id) == Some(i as int));
        }
        let _ = self.wait_for.remove(i);
        self.dep_db_entries.insert(name, entry);
        proof {
            let after = self.waiting();
            assert(after =~= before.remove(i as int));
            assert forall|j: int| 0 <= j < self.awaited().len() implies after.contains(
                #[trigger] self.awaited()[j],
            ) || has_succeeded(self.deps(), self.awaited()[j]) by {
                let x = self.awaited()[j];
                assert(old(self).awaited()[j] == x);
                if x != id && before.contains(x) {
                    let k = before.index_of(x);
                    if k < i {
                        assert(after[k] == x);
                    } else {
                        assert(after[k - 1] == x);
                    }
                }
            }
        }
        true
    }

    /// Goes on after an event.
    pub fn step(&mut self, event: JobEvent) -> (r: JobAction)
        requires
            old(self).wf(),
            expects(*old(self).case().test, old(self).phase(), event),
            event matches JobEvent::DepFinished(name, _) ==> old(self).waiting().contains(name@),
            event matches JobEvent::YouRunIt(output) ==> output.fresh(),
            event matches JobEvent::Stored(entry) ==> old(self).made() == Some(entry),
        ensures
            final(self).wf(),
            final(self).case() == old(self).case(),
            final(self).base_env() == old(self).base_env(),
            final(self).awaited() == old(self).awaited(),
            (final(self).phase(), r@) == transition(
                *old(self).case().test,
                old(self).phase(),
                event,
                old(self).waiting().len(),
                old(self).target(),
            ),
            final(self).target() == next_target(old(self).target(), event),
            final(self).made() == (match r {
                JobAction::Store(entry, _) => Some(entry),
                _ => old(self).made(),
            }),
            event is Stored ==> {
                &&& r matches JobAction::Finish(Ok(entry))
                &&& old(self).target() matches Some(target)
                &&& old(self).made() == Some(entry)
                &&& entry.base() == target.dir
                &&& entry.entry().config_hash@ == target.config_hash
            },
            final(self).phase() == Phase::Spawning ==> !final(self).opened(),
            final(self).deps() == next_deps(old(self).deps(), event),
            final(self).waiting() == next_waiting(old(self).waiting(), event),
    {
        match event {
            JobEvent::DepFinished(name, outcome) => {
                let failure = name.clone();
                if self.note_dependency(name, outcome) {
                    if self.wait_for.len() > 0 {
                        JobAction::AwaitDeps
                    } else {
                        self.phase = Phase::LookingUp;
                        JobAction::Lookup
                    }
                } else {
                    let mut msg = in_context("dependency job ", failure.as_str());
                    msg.append(" failed");
                    self.fail(msg)
                }
            },
            JobEvent::LookupFailed(msg) => self.fail(in_context("database lookup: ", msg.as_str())),
            JobEvent::FoundResult(entry) => self.succeed(entry),
            JobEvent::YouRunIt(output) => {
                let ghost target = output.target();
                self.output = Some(output);
                self.target = Ghost(Some(target));
                self.phase = Phase::AwaitingResources;
                JobAction::AwaitResources
            },
            JobEvent::GotResources(worktree) => {
                if worktree {
                    self.phase = Phase::CheckingOut;
                    JobAction::Checkout
                } else {
                    self.phase = Phase::Spawning;
                    JobAction::Spawn(false)
                }
            },
            JobEvent::CheckedOut => {
                self.phase = Phase::Spawning;
                JobAction::Spawn(true)
            },
            JobEvent::CheckoutFailed(msg) => self.fail(
                in_context("failed to check out revision: ", msg.as_str()),
            ),
            JobEvent::Spawned => {
                self.phase = Phase::Running;
                JobAction::AwaitChild
            },
            JobEvent::OutputFailed(msg) => self.fail(
                in_context("no stdout handle available: ", msg.as_str()),
            ),
            JobEvent::SpawnFailed(msg) => self.fail(
                in_context("spawning test command: ", msg.as_str()),
            ),
            JobEvent::Canceled => {
                if self.phase == Phase::Running {
                    self.phase = Phase::Terminating;
                    JobAction::Terminate
                } else {
                    self.cancel()
                }
            },
            JobEvent::GraceOver => {
                self.phase = Phase::Killing;
                JobAction::Kill
            },
            JobEvent::ChildEnded(end) => {
                if self.phase != Phase::Running {
                    // We don't care about its result.
                    return self.cancel();
                }
                let status = match end {
                    Ok(status) => status,
                    Err(msg) => {
                        return self.fail(in_context("awaiting child: ", msg.as_str()));
                    },
                };
                match status.code_not_killed() {
                    Ok(exit_code) => {
                        let result = TestResult { exit_code };
                        if has_code(&self.test_case.test.error_exit_codes, exit_code) {
                            self.fail(result.to_string())
                        } else {
                            self.phase = Phase::Storing;
                            let (entry, file) = match self.output.take() {
                                Some(output) => output.set_result(&result),
                                None => vstd::pervasive::unreached(),
                            };
                            let entry = Arc::new(entry);
                            self.made = Ghost(Some(entry));
                            JobAction::Store(entry, file)
                        }
                    },
                    Err(e) => self.fail(e.describe("", "")),
                }
            },
            JobEvent::Stored(entry) => self.succeed(entry),
            JobEvent::StoreFailed(msg) => self.fail(msg),
        }
    }

    fn fail(&mut self, msg: String) -> (r: JobAction)
        requires
            old(self).wf(),
        ensures
            *final(self) == (TestJob { phase: Phase::Done, ..*old(self) }),
            final(self).wf(),
            r@ == ActionView::Finish(OutcomeView::Error(msg@)),
    {
        self.phase = Phase::Done;
        JobAction::Finish(Err(TestInconclusive::Error(msg)))
    }

    fn cancel(&mut self) -> (r: JobAction)
        requires
            old(self).wf(),
        ensures
            *final(self) == (TestJob { phase: Phase::Done, ..*old(self) }),
            final(self).wf(),
            r@ == ActionView::Finish(OutcomeView::Canceled),
    {
        self.phase = Phase::Done;
        JobAction::Finish(Err(TestInconclusive::Canceled))
    }

    fn succeed(&mut self, entry: Arc<DatabaseEntry>) -> (r: JobAction)
        requires
            old(self).wf(),
        ensures
            *final(self) == (TestJob { phase: Phase::Done, ..*old(self) }),
            final(self).wf(),
            r@ == ActionView::Finish(OutcomeView::Success(entry)),
    {
        self.phase = Phase::Done;
        JobAction::Finish(Ok(entry))
    }

    /// Starts right with the command, in the main worktree: for a job whose
    /// resources were taken care of otherwise, and whose output goes to the
    /// given place.
    pub fn run_with(&mut self, output: DatabaseOutput) -> (r: JobAction)
        requires
            old(self).wf(),
            old(self).phase() == Phase::LookingUp,
            output.fresh(),
        ensures
            final(self).wf(),
            final(self).case() == old(self).case(),
            final(self).base_env() == old(self).base_env(),
            final(self).awaited() == old(self).awaited(),
            final(self).waiting() == old(self).waiting(),
            final(self).deps() == old(self).deps(),
            final(self).target() == Some(output.target()),
            final(self).made() == old(self).made(),
            final(self).phase() == Phase::Spawning,
            !final(self).opened(),
            r@ == ActionView::Spawn(false),
    {
        let ghost target = output.target();
        self.output = Some(output);
        self.target = Ghost(Some(target));
        self.phase = Phase::Spawning;
        JobAction::Spawn(false)
    }

    /// Where the test may leave artifacts.
    pub fn artifacts_dir(&self) -> (r: &str)
        requires
            self.wf(),
            self.phase() == Phase::Spawning,
        ensures
            self.target() matches Some(target) && r@ == strings::path_joined(
                target.dir,
                "artifacts"@,
            ),
    {
        match &self.output {
            Some(output) => output.artifacts_dir(),
            None => vstd::pervasive::unreached(),
        }
    }

    /// Where the standard output and the error output of the command go. To be
    /// asked for once.
    pub fn streams(&mut self) -> (r: (OutputStream, OutputStream))
        requires
            old(self).wf(),
            old(self).phase() == Phase::Spawning,
            !old(self).opened(),
        ensures
            final(self).wf(),
            final(self).case() == old(self).case(),
            final(self).base_env() == old(self).base_env(),
            final(self).awaited() == old(self).awaited(),
            final(self).waiting() == old(self).waiting(),
            final(self).deps() == old(self).deps(),
            final(self).target() == old(self).target(),
            final(self).made() == old(self).made(),
            final(self).phase() == old(self).phase(),
            final(self).opened(),
            old(self).target() matches Some(target) && r.0.file() == database::kept_file(
                target,
                "stdout.txt"@,
            ) && r.1.file() == database::kept_file(target, "stderr.txt"@),
    {
        match self.output.take() {
            Some(mut output) => {
                let stdout = output.stdout();
                let stderr = output.stderr();
                self.output = Some(output);
                (stdout, stderr)
            },
            None => vstd::pervasive::unreached(),
        }
    }

    /// The results of the jobs that it depends on.
    pub fn dep_db_entries(&self) -> (r: &DepDatabaseEntries)
        requires
            self.wf(),
        ensures
            r.wf(),
            r@ == self.deps(),
            r.list() == self.dep_list(),
    {
        &self.dep_db_entries
    }

    /// The environment variables for the test command: what the test may know
    /// about its commit, where to leave artifacts, what it shares with other
    /// jobs, which tokens it holds, and where the artifacts of the jobs it
    /// depends on are.
    pub fn set_env(
        &self,
        resources: &Resources,
        artifacts_dir: &str,
        dep_db_entries: &DepDatabaseEntries,
    ) -> (r: JobEnv)
        ensures
            crate::test::env_texts(r@) == command_vars(
                self.case().commit_hash@,
                artifacts_dir@,
                crate::test::env_texts(self.base_env()),
                resources.entries(),
                dep_db_entries.list(),
            ),
    {
        let mut env: JobEnv = Vec::new();
        push_var(&mut env, String::from_str("LIMMAT_COMMIT"), self.test_case.commit_hash.as_str());
        push_var(&mut env, String::from_str("LIMMAT_ARTIFACTS"), artifacts_dir);
        let ghost own = crate::test::env_texts(env@);
        assert(own =~= seq![
            ("LIMMAT_COMMIT"@, self.case().commit_hash@),
            ("LIMMAT_ARTIFACTS"@, artifacts_dir@),
        ]);
        let ghost base = crate::test::env_texts(self.base_env@);
        let mut i: usize = 0;
        assert(own + base.take(0) =~= own);
        while i < self.base_env.len()
            invariant
                i <= self.base_env@.len(),
                base == crate::test::env_texts(self.base_env@),
                crate::test::env_texts(env@) == own + base.take(i as int),
            decreases self.base_env@.len() - i,
        {
            push_var(&mut env, self.base_env[i].0.clone(), self.base_env[i].1.as_str());
            assert((own + base.take(i as int)).push(base[i as int]) =~= own + base.take(i + 1));
            i += 1;
        }
        assert(base.take(i as int) =~= base);
        // Set up env vars to communicate token values.
        let tokens = resources.tokens();
        let ghost lists = resource::named_texts(tokens@);
        let mut i: usize = 0;
        assert(lists.take(0) =~= Seq::empty());
        assert(own + base + token_vars(Seq::empty()) =~= own + base);
        while i < tokens.len()
            invariant
                i <= tokens@.len(),
                lists == resource::named_texts(tokens@),
                crate::test::env_texts(env@) == own + base + token_vars(lists.take(i as int)),
            decreases tokens@.len() - i,
        {
            assert(lists.take(i + 1).drop_last() =~= lists.take(i as int));
            assert(lists.take(i + 1).last() == lists[i as int]);
            push_tokens(&mut env, &tokens[i].0, &tokens[i].1);
            assert(own + base + token_vars(lists.take(i as int)) + resource_vars(
                lists[i as int].0,
                lists[i as int].1,
            ) =~= own + base + token_vars(lists.take(i + 1)));
            i += 1;
        }
        assert(lists.take(i as int) =~= lists);
        let ghost before = own + base + token_vars(lists);
        let ghost deps = dep_db_entries.list();
        let mut i: usize = 0;
        assert(deps.take(0) =~= Seq::empty());
        assert(before + artifact_vars(Seq::empty()) =~= before);
        while i < dep_db_entries.len()
            invariant
                i <= deps.len(),
                deps == dep_db_entries.list(),
                crate::test::env_texts(env@) == before + artifact_vars(deps.take(i as int)),
            decreases deps.len() - i,
        {
            assert(deps.take(i + 1).drop_last() =~= deps.take(i as int));
            assert(deps.take(i + 1).last() == deps[i as int]);
            let mut var: String = String::from_str("LIMMAT_ARTIFACTS_");
            var.append(dep_db_entries.key_at(i).as_str());
            push_var(&mut env, var, dep_db_entries.value_at(i).artifacts_dir().as_str());
            assert((before + artifact_vars(deps.take(i as int))).push(
                artifact_vars(deps.take(i + 1)).last(),
            ) =~= before + artifact_vars(deps.take(i + 1)));
            i += 1;
        }
        assert(deps.take(i as int) =~= deps);
        env
    }
}

/// The variables for a command.
pub open spec fn command_vars(
    commit: Seq<char>,
    artifacts_dir: Seq<char>,
    shared: Seq<(Seq<char>, Seq<char>)>,
    held: Seq<(resource::ResourceKey, Vec<resource::Resource>)>,
    deps: Seq<(TestName, Arc<DatabaseEntry>)>,
) -> Seq<(Seq<char>, Seq<char>)> {
    seq![("LIMMAT_COMMIT"@, commit), ("LIMMAT_ARTIFACTS"@, artifacts_dir)] + shared + token_vars(
        resource::token_lists(held),
    ) + artifact_vars(deps)
}

/// The variables for the tokens of one resource. A single token is there
/// without its number too.
pub open spec fn resource_vars(name: Seq<char>, tokens: Seq<Seq<char>>) -> Seq<
    (Seq<char>, Seq<char>),
> {
    let numbered = Seq::new(
        tokens.len(),
        |i: int| ("LIMMAT_RESOURCE_"@ + name + "_"@ + strings::decimal(i), tokens[i]),
    );
    if tokens.len() == 1 {
        seq![("LIMMAT_RESOURCE_"@ + name, tokens[0])] + numbered
    } else {
        numbered
    }
}

/// The variables for the tokens of some resources.
pub open spec fn token_vars(lists: Seq<(Seq<char>, Seq<Seq<char>>)>) -> Seq<(Seq<char>, Seq<char>)>
    decreases lists.len(),
{
    if lists.len() == 0 {
        Seq::empty()
    } else {
        token_vars(lists.drop_last()) + resource_vars(lists.last().0, lists.last().1)
    }
}

/// The variables for the artifacts of the jobs that a job depends on.
pub open spec fn artifact_vars(deps: Seq<(TestName, Arc<DatabaseEntry>)>) -> Seq<
    (Seq<char>, Seq<char>),
> {
    Seq::new(
        deps.len(),
        |i: int|
            (
                "LIMMAT_ARTIFACTS_"@ + deps[i].0@,
                strings::path_joined(deps[i].1.base(), "artifacts"@),
            ),
    )
}

/// There is a variable for the artifacts of each of some jobs.
pub proof fn lemma_artifact_var(deps: DepDatabaseEntries, name: Seq<char>)
    requires
        deps.wf(),
        deps@.dom().contains(name),
    ensures
        artifact_vars(deps.list()).contains(
            (
                "LIMMAT_ARTIFACTS_"@ + name,
                strings::path_joined(deps@[name].base(), "artifacts"@),
            ),
        ),
{
    let list = deps.list();
    let keys = assoc::entry_keys(list);
    assoc::lemma_map_of(list, name);
    ident::lemma_last_position(keys, name);
    let k = ident::last_position(keys, name);
    assert(keys[k] == name);
    assert(list[k].0@ == name);
    assert(artifact_vars(list)[k].0 == "LIMMAT_ARTIFACTS_"@ + name);
}

fn push_var(env: &mut JobEnv, name: String, value: &str)
    ensures
        crate::test::env_texts(final(env)@) == crate::test::env_texts(old(env)@).push((name@, value@)),
{
    env.push((name, String::from_str(value)));
    assert(crate::test::env_texts(env@) =~= crate::test::env_texts(old(env)@).push((name@, value@)));
}

/// Appends the variables for the tokens of one resource.
fn push_tokens(env: &mut JobEnv, name: &String, tokens: &Vec<String>)
    ensures
        crate::test::env_texts(final(env)@) == crate::test::env_texts(old(env)@) + resource_vars(
            name@,
            strings::texts(tokens@),
        ),
{
    let ghost start = crate::test::env_texts(env@);
    let ghost all = strings::texts(tokens@);
    let mut prefix: String = String::from_str("LIMMAT_RESOURCE_");
    prefix.append(name.as_str());
    let ghost head = if all.len() == 1 {
        seq![("LIMMAT_RESOURCE_"@ + name@, all[0])]
    } else {
        Seq::empty()
    };
    if tokens.len() == 1 {
        push_var(env, prefix.clone(), tokens[0].as_str());
    }
    let ghost numbered = Seq::new(
        all.len(),
        |i: int| ("LIMMAT_RESOURCE_"@ + name@ + "_"@ + strings::decimal(i), all[i]),
    );
    assert(crate::test::env_texts(env@) =~= start + head + numbered.take(0));
    let mut i: usize = 0;
    while i < tokens.len()
        invariant
            i <= tokens@.len(),
            all == strings::texts(tokens@),
            prefix@ == "LIMMAT_RESOURCE_"@ + name@,
            numbered.len() == all.len(),
            forall|k: int|
                0 <= k < all.len() ==> numbered[k] == (
                    "LIMMAT_RESOURCE_"@ + name@ + "_"@ + strings::decimal(k),
                    all[k],
                ),
            crate::test::env_texts(env@) == start + head + numbered.take(i as int),
        decreases tokens@.len() - i,
    {
        let mut var: String = prefix.clone();
        var.append("_");
        var.append(strings::decimal_text(i as u64).as_str());
        push_var(env, var, tokens[i].as_str());
        assert((start + head + numbered.take(i as int)).push(numbered[i as int]) =~= start + head
            + numbered.take(i + 1));
        i += 1;
    }
    assert(numbered.take(i as int) =~= numbered);
    assert(start + head + numbered =~= start + resource_vars(name@, all));
}

/// One step in the course of a job.
pub struct JobStep {
    pub before: Phase,
    pub event: JobEvent,
    pub waiting: nat,
    pub target: Option<Target>,
    pub made: Option<Arc<DatabaseEntry>>,
    pub action: ActionView,
    pub after: Phase,
}

/// A course that a job for the given test can take: it starts at the beginning,
/// or with the command if the place for its output was chosen beforehand, each
/// step follows the rules, and each starts where the one before has led.
pub open spec fn is_course(test: Test, steps: Seq<JobStep>) -> bool {
    &&& steps.len() > 0 ==> starts_fresh(steps[0]) || starts_with_command(steps[0])
    &&& forall|i: int| 0 <= i < steps.len() ==> follows_rules(test, #[trigger] steps[i])
    &&& forall|i: int, j: int|
        0 <= i && j == i + 1 && j < steps.len() ==> goes_on(#[trigger] steps[i], #[trigger] steps[j])
}

/// A step starts where another has led.
pub open spec fn goes_on(last: JobStep, step: JobStep) -> bool {
    &&& step.before == last.after
    &&& step.target == next_target(last.target, last.event)
    &&& match last.action {
        ActionView::Store { entry, dir, .. } => step.made matches Some(made) && made.entry()@
            == entry && made.base() == dir,
        _ => step.made == last.made,
    }
}

/// A job starts at the beginning.
pub open spec fn starts_fresh(step: JobStep) -> bool {
    &&& step.before == Phase::AwaitingDeps || step.before == Phase::LookingUp
    &&& step.target is None
}

/// A job starts with its command.
pub open spec fn starts_with_command(step: JobStep) -> bool {
    step.before == Phase::Spawning && step.target is Some
}

/// A step follows the rules.
pub open spec fn follows_rules(test: Test, step: JobStep) -> bool {
    &&& expects(test, step.before, step.event)
    &&& step.event matches JobEvent::Stored(entry) ==> step.made == Some(entry)
    &&& (step.after, step.action) == transition(
        test,
        step.before,
        step.event,
        step.waiting,
        step.target,
    )
}

/// A job reports one outcome at most, and nothing happens after that.
pub proof fn lemma_one_outcome(test: Test, steps: Seq<JobStep>, k: int)
    requires
        is_course(test, steps),
        0 <= k < steps.len(),
        steps[k].action is Finish,
    ensures
        k == steps.len() - 1,
{
    assert(follows_rules(test, steps[k]));
    if k < steps.len() - 1 {
        assert(follows_rules(test, steps[k + 1]));
        assert(steps[k + 1].before == steps[k + 1 - 1].after);
    }
}

/// A command is killed only after it was asked to terminate because the job
/// was canceled, and its time for that was over.
pub proof fn lemma_terminate_before_kill(test: Test, steps: Seq<JobStep>, k: int)
    requires
        is_course(test, steps),
        0 <= k < steps.len(),
        steps[k].action is Kill,
    ensures
        steps[k].event is GraceOver,
        k > 0,
        steps[k - 1].action is Terminate,
        steps[k - 1].event is Canceled,
{
    assert(follows_rules(test, steps[k]));
    assert(steps[k].before == Phase::Terminating);
    assert(follows_rules(test, steps[k - 1]));
}

/// A canceled job never stores a result: once the command was asked to
/// terminate, all that can be reported is that the job was canceled.
pub proof fn lemma_canceled_stores_nothing(
    test: Test,
    steps: Seq<JobStep>,
    j: int,
    k: int,
)
    requires
        is_course(test, steps),
        0 <= j < k < steps.len(),
        steps[j].action is Terminate,
    ensures
        steps[k].action is Kill || steps[k].action == ActionView::Finish(OutcomeView::Canceled),
        steps[k].before == Phase::Terminating || steps[k].before == Phase::Killing,
    decreases k,
{
    assert(follows_rules(test, steps[j]));
    assert(follows_rules(test, steps[k]));
    assert(steps[k].before == steps[k - 1].after);
    if j < k - 1 {
        lemma_canceled_stores_nothing(test, steps, j, k - 1);
        assert(follows_rules(test, steps[k - 1]));
    }
}

/// Errors are not stored: a result is stored only if the command exited by
/// itself, with a code that does not mean an error; and a job whose result is
/// stored reports nothing else, unless storing it fails.
pub proof fn lemma_errors_not_stored(test: Test, steps: Seq<JobStep>, k: int)
    requires
        is_course(test, steps),
        0 <= k < steps.len(),
        steps[k].action is Store,
    ensures
        steps[k].event == JobEvent::ChildEnded(
            Ok(ExitStatus::Exited(steps[k].action->entry.result.exit_code)),
        ),
        !test.error_exit_codes@.contains(steps[k].action->entry.result.exit_code),
        k + 1 < steps.len() ==> steps[k + 1].action is Finish && (
        steps[k + 1].event matches JobEvent::Stored(entry) ==> steps[k + 1].action
            == ActionView::Finish(OutcomeView::Success(entry))),
{
    assert(follows_rules(test, steps[k]));
    if k + 1 < steps.len() {
        assert(follows_rules(test, steps[k + 1]));
        assert(steps[k + 1].before == steps[k + 1 - 1].after);
    }
}

/// What a job reports after its command is the entry for the result of that
/// command, in the directory that its output goes to: the artifacts of the
/// command are below it.
pub proof fn lemma_reports_own_entry(test: Test, steps: Seq<JobStep>, k: int)
    requires
        is_course(test, steps),
        0 <= k < steps.len(),
        steps[k].event is Stored,
    ensures
        ({
            let entry = steps[k].event->Stored_0;
            &&& k > 0
            &&& steps[k].target is Some
            &&& steps[k - 1].action == stores(steps[k].target->0, entry.entry().result)
            &&& steps[k].action == ActionView::Finish(OutcomeView::Success(entry))
            &&& entry.base() == steps[k].target->0.dir
            &&& entry.entry().config_hash@ == steps[k].target->0.config_hash
        }),
{
    assert(follows_rules(test, steps[k]));
    assert(follows_rules(test, steps[k - 1]));
    assert(goes_on(steps[k - 1], steps[k]));
    lemma_running_has_target(test, steps, k - 1);
}

/// The output of a command goes somewhere.
proof fn lemma_running_has_target(test: Test, steps: Seq<JobStep>, k: int)
    requires
        is_course(test, steps),
        0 <= k < steps.len(),
    ensures
        match steps[k].before {
            Phase::AwaitingResources
            | Phase::CheckingOut
            | Phase::Spawning
            | Phase::Running => steps[k].target is Some,
            _ => true,
        },
    decreases k,
{
    if k > 0 {
        lemma_running_has_target(test, steps, k - 1);
        assert(follows_rules(test, steps[k - 1]));
        assert(goes_on(steps[k - 1], steps[k]));
    }
}

/// A test that has a usable result is not run again: a job starts a command
/// only after the database had nothing to offer, and what it offers is
/// reported at once.
pub proof fn lemma_found_result_not_rerun(
    test: Test,
    steps: Seq<JobStep>,
    j: int,
    k: int,
)
    requires
        is_course(test, steps),
        0 <= j < steps.len(),
        0 <= k < steps.len(),
        steps[j].event is FoundResult,
    ensures
        steps[j].action == ActionView::Finish(OutcomeView::Success(steps[j].event->FoundResult_0)),
        !(steps[k].action is Spawn),
{
    assert(follows_rules(test, steps[j]));
    lemma_one_outcome(test, steps, j);
    if steps[k].action is Spawn {
        lemma_lookup_once(test, steps, k, j);
    }
}

/// The database is asked once: no step after a command was started looks
/// anything up.
proof fn lemma_lookup_once(test: Test, steps: Seq<JobStep>, k: int, j: int)
    requires
        is_course(test, steps),
        0 <= k <= j < steps.len(),
        steps[k].action is Spawn || starts_with_command(steps[k]),
    ensures
        steps[j].after != Phase::LookingUp,
        steps[j].after != Phase::AwaitingDeps,
        steps[j].before != Phase::LookingUp,
        steps[j].before != Phase::AwaitingDeps,
    decreases j,
{
    assert(follows_rules(test, steps[j]));
    if k < j {
        lemma_lookup_once(test, steps, k, j - 1);
        assert(steps[j].before == steps[j - 1].after);
    }
}

/// Observers are told, because of an event, that the test is started.
pub open spec fn announced(event: JobEvent) -> bool {
    event is GotResources
}

/// Whether observers are to be told, because of an event, that the test is
/// started: that is once it has its resources.
pub fn announces_start(event: &JobEvent) -> (r: bool)
    ensures
        r == announced(*event),
{
    match event {
        JobEvent::GotResources(_) => true,
        _ => false,
    }
}

/// A job is started once at most: it does not get its resources twice.
pub proof fn lemma_started_once(test: Test, steps: Seq<JobStep>, j: int, k: int)
    requires
        is_course(test, steps),
        0 <= j <= k < steps.len(),
        steps[j].event is GotResources,
        steps[k].event is GotResources,
    ensures
        j == k,
{
    if j < k {
        lemma_resources_once(test, steps, j, k - 1);
        assert(follows_rules(test, steps[k]));
        assert(steps[k].before == steps[k - 1].after);
    }
}

/// Once a job has its resources, it does not wait for any again.
proof fn lemma_resources_once(test: Test, steps: Seq<JobStep>, j: int, k: int)
    requires
        is_course(test, steps),
        0 <= j <= k < steps.len(),
        steps[j].event is GotResources,
    ensures
        steps[k].after != Phase::AwaitingDeps,
        steps[k].after != Phase::LookingUp,
        steps[k].after != Phase::AwaitingResources,
    decreases k,
{
    assert(follows_rules(test, steps[k]));
    if j < k {
        lemma_resources_once(test, steps, j, k - 1);
        assert(steps[k].before == steps[k - 1].after);
    }
}

/// A test that needs a worktree runs in one of its own, and no other does.
pub proof fn lemma_own_worktree(test: Test, steps: Seq<JobStep>, k: int)
    requires
        is_course(test, steps),
        0 <= k < steps.len(),
        steps[k].action is Spawn,
    ensures
        steps[k].action == ActionView::Spawn(test.worktree_needed()),
{
    assert(follows_rules(test, steps[k]));
    if steps[k].before == Phase::CheckingOut {
        assert(k > 0);
        assert(follows_rules(test, steps[k - 1]));
        assert(steps[k].before == steps[k - 1].after);
    }
}

/// A job starts one command at most.
pub proof fn lemma_command_once(test: Test, steps: Seq<JobStep>, j: int, k: int)
    requires
        is_course(test, steps),
        0 <= j <= k < steps.len(),
        steps[j].action is Spawn,
        steps[k].action is Spawn,
    ensures
        j == k,
{
    assert(follows_rules(test, steps[k]));
    if j < k {
        lemma_past_command(test, steps, j, k);
    }
}

/// Once a command was started, nothing that comes before it happens again.
proof fn lemma_past_command(test: Test, steps: Seq<JobStep>, j: int, k: int)
    requires
        is_course(test, steps),
        0 <= j < k < steps.len(),
        steps[j].action is Spawn,
    ensures
        steps[k].before != Phase::AwaitingDeps,
        steps[k].before != Phase::LookingUp,
        steps[k].before != Phase::AwaitingResources,
        steps[k].before != Phase::CheckingOut,
    decreases k,
{
    assert(follows_rules(test, steps[k - 1]));
    assert(steps[k].before == steps[k - 1].after);
    if j < k - 1 {
        lemma_past_command(test, steps, j, k - 1);
    }
}

/// A job that starts with its command asks for nothing in the database and
/// starts no other command. Where its output is not stored, neither is its
/// result.
pub proof fn lemma_one_shot(test: Test, steps: Seq<JobStep>, k: int)
    requires
        is_course(test, steps),
        0 <= k < steps.len(),
        starts_with_command(steps[0]),
    ensures
        !(steps[k].action is Lookup),
        !(steps[k].action is Spawn),
        steps[k].action is Store ==> steps[k].action == stores(
            steps[0].target->0,
            steps[k].action->entry.result,
        ),
        !steps[0].target->0.kept && steps[k].action is Store ==> steps[k].action->write is None,
{
    lemma_one_shot_target(test, steps, k);
    assert(follows_rules(test, steps[k]));
}

/// Once a job has started its command, it neither waits for what it needs nor
/// for another place for its output.
proof fn lemma_one_shot_target(test: Test, steps: Seq<JobStep>, k: int)
    requires
        is_course(test, steps),
        0 <= k < steps.len(),
        starts_with_command(steps[0]),
    ensures
        steps[k].target == steps[0].target,
        steps[k].before != Phase::AwaitingDeps,
        steps[k].before != Phase::LookingUp,
        steps[k].before != Phase::AwaitingResources,
        steps[k].before != Phase::CheckingOut,
    decreases k,
{
    if k > 0 {
        lemma_one_shot_target(test, steps, k - 1);
        assert(follows_rules(test, steps[k - 1]));
        assert(steps[k].before == steps[k - 1].after);
    }
}

/// Tells observers about the progress of a job.
#[derive(Debug)]
pub struct TestStatusNotifier {
    test_case: TestCase,
}

impl TestStatusNotifier {
    /// The case that the job is for.
    pub closed spec fn case(&self) -> TestCase {
        self.test_case
    }

    pub fn new(test_case: TestCase) -> (r: Self)
        ensures
            r.case() == test_case,
    {
        TestStatusNotifier { test_case }
    }

    /// The news that the job has come to the given status.
    pub fn notify(&self, status: &TestStatus) -> (r: Notification)
        ensures
            r.test_case == self.case(),
            r.status == *status,
    {
        Notification { test_case: self.test_case.clone(), status: status.clone() }
    }

    /// The news that the job is finished, and the outcome for the jobs that
    /// depend on it. There is only one such message, so the notifier is gone
    /// afterwards.
    pub fn notify_completion(self, outcome: TestOutcome) -> (r: (Notification, TestOutcome))
        ensures
            r.0.test_case == self.case(),
            r.0.status == TestStatus::Finished(outcome),
            r.1 == outcome,
    {
        let status = TestStatus::Finished(crate::test::copy_outcome(&outcome));
        (Notification { test_case: self.test_case, status }, outcome)
    }
}

/// Counts the jobs that are not finished.
#[derive(Debug)]
pub struct JobCounter {
    count: usize,
}

impl JobCounter {
    /// The number of jobs.
    pub closed spec fn jobs(&self) -> nat {
        self.count as nat
    }

    pub fn new() -> (r: Self)
        ensures
            r.jobs() == 0,
    {
        JobCounter { count: 0 }
    }

    /// Increments the counter. Says whether it was zero, since that's the only
    /// thing that waiters care about.
    pub fn get(&mut self) -> (r: bool)
        requires
            old(self).jobs() < usize::MAX,
        ensures
            final(self).jobs() == old(self).jobs() + 1,
            r == (old(self).jobs() == 0),
    {
        let was_zero = self.count == 0;
        self.count += 1;
        was_zero
    }

    /// Decrements the counter. Says whether it is zero now.
    pub fn release(&mut self) -> (r: bool)
        requires
            old(self).jobs() > 0,
        ensures
            final(self).jobs() == old(self).jobs() - 1,
            r == (final(self).jobs() == 0),
    {
        self.count -= 1;
        self.count == 0
    }

    /// Whether there are no jobs.
    pub fn zero(&self) -> (r: bool)
        ensures
            r == (self.jobs() == 0),
    {
        self.count == 0
    }
}

/// How a command ended decides what becomes of its job: whatever code it exits
/// with is a result, which is stored under that code, unless the test says that
/// this code means an error. Errors, and commands that were killed by a signal,
/// are reported and not stored.
pub proof fn lemma_exit_is_judged(test: Test, step: JobStep, status: ExitStatus)
    requires
        follows_rules(test, step),
        step.before == Phase::Running,
        step.event == JobEvent::ChildEnded(Ok(status)),
        step.target is Some,
    ensures
        match status {
            ExitStatus::Exited(code) => if test.error_exit_codes@.contains(code) {
                step.action matches ActionView::Finish(OutcomeView::Error(_))
            } else {
                &&& step.action is Store
                &&& step.action->entry.result.exit_code == code
                &&& step.action->entry.config_hash == step.target->0.config_hash
                &&& step.action->dir == step.target->0.dir
                &&& step.action->write is Some <==> step.target->0.kept
                &&& step.action->write matches Some(write) ==> write.entry == step.action->entry
                    && write.file == strings::path_joined(step.target->0.dir, "result.json"@)
            },
            ExitStatus::Signaled(_) => step.action matches ActionView::Finish(
                OutcomeView::Error(_),
            ),
        },
{
}

/// `whole` ends with `end`.
pub open spec fn ends_with(whole: Seq<char>, end: Seq<char>) -> bool {
    whole.len() >= end.len() && whole.skip(whole.len() - end.len()) == end
}

proof fn lemma_ends_with(start: Seq<char>, end: Seq<char>)
    ensures
        ends_with(start + end, end),
{
    assert((start + end).skip(start.len() as int) =~= end);
}

/// Whatever goes wrong on the way ends the job with an error that says what it
/// was, and at which stage.
pub proof fn lemma_failure_is_reported(test: Test, step: JobStep, msg: String)
    requires
        follows_rules(test, step),
        step.event == JobEvent::LookupFailed(msg) || step.event == JobEvent::CheckoutFailed(msg)
            || step.event == JobEvent::OutputFailed(msg) || step.event == JobEvent::SpawnFailed(msg)
            || step.event == JobEvent::StoreFailed(msg) || (step.event == JobEvent::ChildEnded(
            Err(msg),
        ) && step.before == Phase::Running),
    ensures
        step.after == Phase::Done,
        step.action matches ActionView::Finish(OutcomeView::Error(text)) && ends_with(text, msg@),
        step.before == Phase::LookingUp ==> step.action == ActionView::Finish(
            OutcomeView::Error("database lookup: "@ + msg@),
        ),
        step.before == Phase::CheckingOut ==> step.action == ActionView::Finish(
            OutcomeView::Error("failed to check out revision: "@ + msg@),
        ),
        step.before == Phase::Spawning && step.event is OutputFailed ==> step.action
            == ActionView::Finish(OutcomeView::Error("no stdout handle available: "@ + msg@)),
        step.before == Phase::Spawning && step.event is SpawnFailed ==> step.action
            == ActionView::Finish(OutcomeView::Error("spawning test command: "@ + msg@)),
        step.before == Phase::Running ==> step.action == ActionView::Finish(
            OutcomeView::Error("awaiting child: "@ + msg@),
        ),
        step.before == Phase::Storing ==> step.action == ActionView::Finish(
            OutcomeView::Error(msg@),
        ),
{
    lemma_ends_with("database lookup: "@, msg@);
    lemma_ends_with("failed to check out revision: "@, msg@);
    lemma_ends_with("no stdout handle available: "@, msg@);
    lemma_ends_with("spawning test command: "@, msg@);
    lemma_ends_with("awaiting child: "@, msg@);
    lemma_ends_with(Seq::empty(), msg@);
    assert(Seq::<char>::empty() + msg@ =~= msg@);
}

/// The error for a command that was killed ends with the number of the signal,
/// and that for a code that means an error with the code.
pub proof fn lemma_error_names_its_cause(test: Test, step: JobStep, status: ExitStatus)
    requires
        follows_rules(test, step),
        step.before == Phase::Running,
        step.event == JobEvent::ChildEnded(Ok(status)),
        !(step.action is Store),
    ensures
        step.action matches ActionView::Finish(OutcomeView::Error(text)) && ends_with(
            text,
            strings::decimal(
                match status {
                    ExitStatus::Exited(code) => code as int,
                    ExitStatus::Signaled(signal) => signal as int,
                },
            ),
        ),
{
    match status {
        ExitStatus::Exited(code) => {
            lemma_ends_with("exit code "@, strings::decimal(code as int));
        },
        ExitStatus::Signaled(signal) => {
            lemma_ends_with("terminated by signal "@, strings::decimal(signal as int));
        },
    }
}

/// A job goes on after one that it depends on if and only if that one came to a
/// result, and the result is the exit code 0. It then waits for the next, or
/// looks for a result if that was the last.
pub proof fn lemma_dependency_decides(
    test: Test,
    step: JobStep,
    name: TestName,
    outcome: Option<TestOutcome>,
)
    requires
        follows_rules(test, step),
        step.event == JobEvent::DepFinished(name, outcome),
        step.waiting > 0,
    ensures
        match outcome {
            Some(Ok(entry)) => if entry.entry().result.exit_code == 0 {
                if step.waiting == 1 {
                    step.action is Lookup && step.after == Phase::LookingUp
                } else {
                    step.action is AwaitDeps && step.after == Phase::AwaitingDeps
                }
            } else {
                step.action matches ActionView::Finish(OutcomeView::Error(_))
            },
            _ => step.action matches ActionView::Finish(OutcomeView::Error(_)),
        },
        step.action is Finish ==> (step.action matches ActionView::Finish(OutcomeView::Error(text))
            && strings::has_part(text, name@)),
{
    let text = "dependency job "@ + name@ + " failed"@;
    let n = "dependency job "@.len() as int;
    assert(text.subrange(n, n + name@.len()) =~= name@);
}

/// A job that is canceled reports that, and nothing else: at once if its command
/// does not run yet, otherwise when the command has ended.
pub proof fn lemma_cancellation_is_reported(test: Test, step: JobStep)
    requires
        follows_rules(test, step),
    ensures
        step.event is Canceled && step.before == Phase::AwaitingResources ==> step.action
            == ActionView::Finish(OutcomeView::Canceled),
        step.event is Canceled && step.before == Phase::Running ==> step.action is Terminate
            && step.after == Phase::Terminating,
        step.event is GraceOver ==> step.action is Kill && step.after == Phase::Killing,
        step.event is ChildEnded && step.before != Phase::Running ==> step.action
            == ActionView::Finish(OutcomeView::Canceled),
        step.action == ActionView::Finish(OutcomeView::Canceled) ==> step.event is Canceled || (
        step.event is ChildEnded && (step.before == Phase::Terminating || step.before
            == Phase::Killing)),
{
}

/// What a job waits for in a phase, it takes, however it turns out: in no phase
/// is it at a loss about an answer.
pub proof fn lemma_answers_are_expected(
    test: Test,
    msg: String,
    entry: Arc<DatabaseEntry>,
    output: DatabaseOutput,
    name: TestName,
    outcome: Option<TestOutcome>,
    end: Result<ExitStatus, String>,
)
    ensures
        expects(test, Phase::AwaitingDeps, JobEvent::DepFinished(name, outcome)),
        expects(test, Phase::LookingUp, JobEvent::LookupFailed(msg)),
        expects(test, Phase::LookingUp, JobEvent::FoundResult(entry)),
        expects(test, Phase::LookingUp, JobEvent::YouRunIt(output)),
        expects(test, Phase::AwaitingResources, JobEvent::Canceled),
        expects(test, Phase::AwaitingResources, JobEvent::GotResources(test.worktree_needed())),
        expects(test, Phase::CheckingOut, JobEvent::CheckedOut),
        expects(test, Phase::CheckingOut, JobEvent::CheckoutFailed(msg)),
        expects(test, Phase::Spawning, JobEvent::Spawned),
        expects(test, Phase::Spawning, JobEvent::OutputFailed(msg)),
        expects(test, Phase::Spawning, JobEvent::SpawnFailed(msg)),
        expects(test, Phase::Running, JobEvent::ChildEnded(end)),
        expects(test, Phase::Running, JobEvent::Canceled),
        expects(test, Phase::Terminating, JobEvent::ChildEnded(end)),
        expects(test, Phase::Terminating, JobEvent::GraceOver),
        expects(test, Phase::Killing, JobEvent::ChildEnded(end)),
        expects(test, Phase::Storing, JobEvent::Stored(entry)),
        expects(test, Phase::Storing, JobEvent::StoreFailed(msg)),
{
}

/// A job does the next thing as soon as it can: after the database had nothing
/// to offer it asks for its resources, with them it goes to its tree, and there
/// it starts its command and waits for it.
pub proof fn lemma_job_makes_progress(test: Test, step: JobStep)
    requires
        follows_rules(test, step),
    ensures
        step.event is YouRunIt ==> step.action is AwaitResources && step.after
            == Phase::AwaitingResources,
        step.event matches JobEvent::GotResources(worktree) ==> if worktree {
            step.action is Checkout && step.after == Phase::CheckingOut
        } else {
            step.action == ActionView::Spawn(false) && step.after == Phase::Spawning
        },
        step.event is CheckedOut ==> step.action == ActionView::Spawn(true) && step.after
            == Phase::Spawning,
        step.event is Spawned ==> step.action is AwaitChild && step.after == Phase::Running,
        step.event matches JobEvent::FoundResult(entry) ==> step.action == ActionView::Finish(
            OutcomeView::Success(entry),
        ),
        step.event matches JobEvent::Stored(entry) ==> step.action == ActionView::Finish(
            OutcomeView::Success(entry),
        ),
        step.action is Finish <==> step.after == Phase::Done,
        step.event matches JobEvent::YouRunIt(output) ==> next_target(step.target, step.event)
            == Some(output.target()),
        !(step.event is YouRunIt) ==> next_target(step.target, step.event) == step.target,
{
}

/// There is a variable with the given name and value.
pub open spec fn passes(
    vars: Seq<(Seq<char>, Seq<char>)>,
    name: Seq<char>,
    value: Seq<char>,
) -> bool {
    vars.contains((name, value))
}

/// Every token that a job holds is passed to its command under its own number,
/// and a single token under the name of the resource too.
pub proof fn lemma_every_token_is_passed(
    lists: Seq<(Seq<char>, Seq<Seq<char>>)>,
    k: int,
    i: int,
)
    requires
        0 <= k < lists.len(),
        0 <= i < lists[k].1.len(),
    ensures
        passes(
            token_vars(lists),
            "LIMMAT_RESOURCE_"@ + lists[k].0 + "_"@ + strings::decimal(i),
            lists[k].1[i],
        ),
        lists[k].1.len() == 1 ==> passes(
            token_vars(lists),
            "LIMMAT_RESOURCE_"@ + lists[k].0,
            lists[k].1[0],
        ),
    decreases lists.len(),
{
    let last = lists.last();
    let before = token_vars(lists.drop_last());
    let own = resource_vars(last.0, last.1);
    if k < lists.len() - 1 {
        lemma_every_token_is_passed(lists.drop_last(), k, i);
        let numbered = (
            "LIMMAT_RESOURCE_"@ + lists[k].0 + "_"@ + strings::decimal(i),
            lists[k].1[i],
        );
        assert((before + own)[before.index_of(numbered)] == numbered);
        let bare = ("LIMMAT_RESOURCE_"@ + lists[k].0, lists[k].1[0]);
        if lists[k].1.len() == 1 {
            assert((before + own)[before.index_of(bare)] == bare);
        }
    } else {
        let more: int = if last.1.len() == 1 {
            1
        } else {
            0
        };
        assert(own[i + more] == (
            "LIMMAT_RESOURCE_"@ + last.0 + "_"@ + strings::decimal(i),
            last.1[i],
        ));
        assert((before + own)[before.len() + i + more] == own[i + more]);
        if last.1.len() == 1 {
            assert((before + own)[before.len() as int] == own[0]);
        }
    }
}

/// Nothing but tokens that the job holds is passed as such.
pub proof fn lemma_only_tokens_are_passed(
    lists: Seq<(Seq<char>, Seq<Seq<char>>)>,
    v: int,
)
    requires
        0 <= v < token_vars(lists).len(),
    ensures
        exists|k: int, i: int|
            #![trigger lists[k].1[i]]
            0 <= k < lists.len() && 0 <= i < lists[k].1.len() && token_vars(lists)[v].1
                == lists[k].1[i] && (token_vars(lists)[v].0 == "LIMMAT_RESOURCE_"@ + lists[k].0
                + "_"@ + strings::decimal(i) || (lists[k].1.len() == 1 && token_vars(lists)[v].0
                == "LIMMAT_RESOURCE_"@ + lists[k].0)),
    decreases lists.len(),
{
    let last = lists.last();
    let rest = lists.drop_last();
    let before = token_vars(rest);
    let own = resource_vars(last.0, last.1);
    if lists.len() > 0 {
        if v < before.len() {
            lemma_only_tokens_are_passed(rest, v);
            let (k, i) = choose|k: int, i: int|
                #![trigger rest[k].1[i]]
                0 <= k < rest.len() && 0 <= i < rest[k].1.len() && before[v].1 == rest[k].1[i] && (
                before[v].0 == "LIMMAT_RESOURCE_"@ + rest[k].0 + "_"@ + strings::decimal(i) || (
                rest[k].1.len() == 1 && before[v].0 == "LIMMAT_RESOURCE_"@ + rest[k].0));
            assert(lists[k].1[i] == rest[k].1[i]);
        } else {
            let w = v - before.len();
            let n = lists.len() - 1;
            assert(token_vars(lists)[v] == own[w]);
            if last.1.len() == 1 {
                assert(lists[n].1[0] == last.1[0]);
            } else {
                assert(lists[n].1[w] == last.1[w]);
            }
        }
    }
}

/// The variables that tell about two different tokens of a resource are
/// different, so that both can be read.
pub proof fn lemma_token_names_differ(name: Seq<char>, i: int, j: int)
    requires
        0 <= i,
        0 <= j,
        i != j,
    ensures
        "LIMMAT_RESOURCE_"@ + name + "_"@ + strings::decimal(i) != "LIMMAT_RESOURCE_"@ + name
            + "_"@ + strings::decimal(j),
        "LIMMAT_RESOURCE_"@ + name + "_"@ + strings::decimal(i) != "LIMMAT_RESOURCE_"@ + name,
{
    let head = "LIMMAT_RESOURCE_"@ + name + "_"@;
    let a = head + strings::decimal(i);
    let b = head + strings::decimal(j);
    assert(a.skip(head.len() as int) =~= strings::decimal(i));
    assert(b.skip(head.len() as int) =~= strings::decimal(j));
    reveal_strlit("_");
    assert(a.len() > ("LIMMAT_RESOURCE_"@ + name).len());
    if a == b {
        strings::lemma_decimal_injective(i, j);
    }
}

/// A command is told which commit it is for, where to leave artifacts, and all
/// that the jobs share.
pub proof fn lemma_command_knows_its_commit(
    commit: Seq<char>,
    artifacts_dir: Seq<char>,
    shared: Seq<(Seq<char>, Seq<char>)>,
    held: Seq<(resource::ResourceKey, Vec<resource::Resource>)>,
    deps: Seq<(TestName, Arc<DatabaseEntry>)>,
)
    ensures
        ({
            let vars = command_vars(commit, artifacts_dir, shared, held, deps);
            &&& passes(vars, "LIMMAT_COMMIT"@, commit)
            &&& passes(vars, "LIMMAT_ARTIFACTS"@, artifacts_dir)
            &&& forall|i: int|
                0 <= i < shared.len() ==> passes(vars, (#[trigger] shared[i]).0, shared[i].1)
        }),
{
    let vars = command_vars(commit, artifacts_dir, shared, held, deps);
    assert(vars[0] == ("LIMMAT_COMMIT"@, commit));
    assert(vars[1] == ("LIMMAT_ARTIFACTS"@, artifacts_dir));
    assert forall|i: int| 0 <= i < shared.len() implies passes(
        vars,
        (#[trigger] shared[i]).0,
        shared[i].1,
    ) by {
        assert(vars[i + 2] == shared[i]);
    }
}

/// Every token of a user-defined resource that a job holds is told to its
/// command under its number, and a single one under the name of the resource
/// too.
pub proof fn lemma_command_knows_its_tokens(
    commit: Seq<char>,
    artifacts_dir: Seq<char>,
    shared: Seq<(Seq<char>, Seq<char>)>,
    held: Seq<(resource::ResourceKey, Vec<resource::Resource>)>,
    deps: Seq<(TestName, Arc<DatabaseEntry>)>,
    k: int,
    i: int,
    name: String,
    token: String,
)
    requires
        0 <= k < held.len(),
        0 <= i < held[k].1@.len(),
        held[k].0 == resource::ResourceKey::UserToken(name),
        held[k].1@[i] == resource::Resource::UserToken(token),
        forall|j: int|
            0 <= j < held[k].1@.len() ==> (#[trigger] held[k].1@[j]) is UserToken,
    ensures
        ({
            let vars = command_vars(commit, artifacts_dir, shared, held, deps);
            &&& passes(
                vars,
                "LIMMAT_RESOURCE_"@ + name@ + "_"@ + strings::decimal(i),
                token@,
            )
            &&& held[k].1@.len() == 1 ==> passes(vars, "LIMMAT_RESOURCE_"@ + name@, token@)
        }),
{
    let lists = resource::token_lists(held);
    let at = resource::lemma_token_list_of(held, k, name);
    resource::lemma_tokens_in(held[k].1@);
    assert(lists[at].1[i] == token@);
    lemma_every_token_is_passed(lists, at, i);
    let vars = command_vars(commit, artifacts_dir, shared, held, deps);
    let own = token_vars(lists);
    let start = 2 + shared.len();
    assert forall|v: int| 0 <= v < own.len() implies vars.contains(#[trigger] own[v]) by {
        assert(vars[start + v] == own[v]);
    }
    let numbered = ("LIMMAT_RESOURCE_"@ + name@ + "_"@ + strings::decimal(i), token@);
    assert(own[own.index_of(numbered)] == numbered);
    if held[k].1@.len() == 1 {
        let bare = ("LIMMAT_RESOURCE_"@ + name@, token@);
        assert(own[own.index_of(bare)] == bare);
    }
}

/// A command is told where the artifacts are of each job that its job depends
/// on.
pub proof fn lemma_command_knows_artifacts(
    commit: Seq<char>,
    artifacts_dir: Seq<char>,
    shared: Seq<(Seq<char>, Seq<char>)>,
    held: Seq<(resource::ResourceKey, Vec<resource::Resource>)>,
    deps: Seq<(TestName, Arc<DatabaseEntry>)>,
    i: int,
)
    requires
        0 <= i < deps.len(),
    ensures
        passes(
            command_vars(commit, artifacts_dir, shared, held, deps),
            "LIMMAT_ARTIFACTS_"@ + deps[i].0@,
            strings::path_joined(deps[i].1.base(), "artifacts"@),
        ),
{
    let vars = command_vars(commit, artifacts_dir, shared, held, deps);
    let own = artifact_vars(deps);
    assert(vars[vars.len() - own.len() + i] == own[i]);
}

/// An action stands for what it holds: a result is stored as it is, with the
/// file that it goes to, and an outcome is reported as it is.
pub proof fn lemma_actions_as_they_are(action: JobAction)
    ensures
        action matches JobAction::Spawn(in_worktree) ==> action@ == ActionView::Spawn(in_worktree),
        action matches JobAction::Store(entry, file) ==> ({
            &&& action@ matches ActionView::Store { entry: stored, dir, write }
            &&& stored.result == entry.entry().result
            &&& stored.config_hash == entry.entry().config_hash@
            &&& dir == entry.base()
            &&& write is Some <==> file is Some
            &&& file matches Some(file) ==> write->0.file == file@ && write->0.entry == stored
        }),
        action matches JobAction::Finish(Ok(entry)) ==> action@ == ActionView::Finish(
            OutcomeView::Success(entry),
        ),
        action matches JobAction::Finish(Err(TestInconclusive::Canceled)) ==> action@
            == ActionView::Finish(OutcomeView::Canceled),
        action matches JobAction::Finish(Err(TestInconclusive::Error(msg))) ==> action@
            == ActionView::Finish(OutcomeView::Error(msg@)),
        action is AwaitDeps <==> action@ is AwaitDeps,
        action is Lookup <==> action@ is Lookup,
        action is AwaitResources <==> action@ is AwaitResources,
        action is Checkout <==> action@ is Checkout,
        action is AwaitChild <==> action@ is AwaitChild,
        action is Terminate <==> action@ is Terminate,
        action is Kill <==> action@ is Kill,
{
}

/// The place for the output of a job is the one that its lookup has chosen, and
/// stays the same.
pub proof fn lemma_target_is_chosen_once(target: Option<Target>, event: JobEvent)
    ensures
        event matches JobEvent::YouRunIt(output) ==> next_target(target, event) == Some(
            output.target(),
        ),
        !(event is YouRunIt) ==> next_target(target, event) == target,
{
}

/// The result of a job that succeeded is known by the name of its test, and that
/// job is awaited no longer; the results and the waiting for other jobs stay as
/// they are. After anything else nothing of that has changed.
pub proof fn lemma_dependency_is_noted(
    deps: Map<Seq<char>, Arc<DatabaseEntry>>,
    waiting: Seq<Seq<char>>,
    name: TestName,
    outcome: Option<TestOutcome>,
    other: Seq<char>,
)
    requires
        waiting.contains(name@),
    ensures
        ({
            let event = JobEvent::DepFinished(name, outcome);
            let after = next_deps(deps, event);
            let left = next_waiting(waiting, event);
            match outcome {
                Some(Ok(entry)) => if entry.entry().result.exit_code == 0 {
                    &&& after.dom().contains(name@) && after[name@] == entry
                    &&& other != name@ ==> (after.dom().contains(other) <==> deps.dom().contains(
                        other,
                    ))
                    &&& other != name@ && deps.dom().contains(other) ==> after[other] == deps[other]
                    &&& left.len() == waiting.len() - 1
                    &&& other != name@ ==> (left.contains(other) <==> waiting.contains(other))
                    &&& waiting.no_duplicates() ==> !left.contains(name@)
                } else {
                    after == deps && left == waiting
                },
                _ => after == deps && left == waiting,
            }
        }),
{
    let event = JobEvent::DepFinished(name, outcome);
    let left = next_waiting(waiting, event);
    if let Some(Ok(entry)) = outcome {
        if entry.entry().result.exit_code == 0 {
            waiting.index_of_first_ensures(name@);
            let at = waiting.index_of_first(name@)->0;
            assert(left == waiting.remove(at));
            if other != name@ {
                if left.contains(other) {
                    let k = left.index_of(other);
                    assert(waiting[if k < at {
                        k
                    } else {
                        k + 1
                    }] == other);
                }
                if waiting.contains(other) {
                    let k = waiting.index_of(other);
                    assert(left[if k < at {
                        k
                    } else {
                        k - 1
                    }] == other);
                }
            }
            if waiting.no_duplicates() && left.contains(name@) {
                let k = left.index_of(name@);
                assert(waiting[if k < at {
                    k
                } else {
                    k + 1
                }] == name@);
            }
        }
    }
}

/// Events other than the end of a dependency change nothing about them.
pub proof fn lemma_dependencies_untouched(
    deps: Map<Seq<char>, Arc<DatabaseEntry>>,
    waiting: Seq<Seq<char>>,
    event: JobEvent,
)
    requires
        !(event is DepFinished),
    ensures
        next_deps(deps, event) == deps,
        next_waiting(waiting, event) == waiting,
{
}

/// The start of a test is announced when its job has its resources, which is
/// right before it checks out its commit or starts its command.
pub proof fn lemma_start_is_announced(test: Test, step: JobStep)
    requires
        follows_rules(test, step),
    ensures
        announced(step.event) <==> step.before == Phase::AwaitingResources && (step.action
            is Checkout || step.action is Spawn),
        step.before == Phase::AwaitingResources && !announced(step.event) ==> step.after
            == Phase::Done,
{
}

} // verus!

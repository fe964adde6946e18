//! What became of a child process.
use crate::strings;
use vstd::prelude::*;

verus! {

/// How a process ended.
#[derive(Debug, Clone, Copy, PartialEq, Eq, Structural)]
pub enum ExitStatus {
    /// It exited, with this code.
    Exited(i32),
    /// A signal terminated it.
    Signaled(i32),
}

/// What a process that has ended left behind.
#[derive(Debug)]
pub struct Output {
    pub status: ExitStatus,
    pub stdout: Vec<u8>,
    pub stderr: Vec<u8>,
}

/// Why a process counts as failed.
#[derive(Debug, Clone, Copy, PartialEq, Eq, Structural)]
pub enum ProcessError {
    /// A signal terminated it.
    Signaled(i32),
    /// It exited with a code other than 0.
    Failed(i32),
}

impl ProcessError {
    /// The message for this error. What the process wrote is given in the form
    /// in which the message shows it.
    pub open spec fn message(&self, stderr: Seq<char>, stdout: Seq<char>) -> Seq<char> {
        match self {
            ProcessError::Signaled(signal) => "terminated by signal "@ + strings::decimal(
                *signal as int,
            ),
            ProcessError::Failed(code) => "failed with exit code "@ + strings::decimal(*code as int)
                + ". stderr:\n"@ + stderr + "\nstdout:\n"@ + stdout,
        }
    }

    /// The message for this error.
    pub fn describe(&self, stderr: &str, stdout: &str) -> (r: String)
        ensures
            r@ == self.message(stderr@, stdout@),
    {
        match self {
            ProcessError::Signaled(signal) => {
                let mut out: String = String::from_str("terminated by signal ");
                out.append(strings::signed_decimal_text(*signal).as_str());
                out
            },
            ProcessError::Failed(code) => {
                let mut out: String = String::from_str("failed with exit code ");
                out.append(strings::signed_decimal_text(*code).as_str());
                out.append(". stderr:\n");
                out.append(stderr);
                out.append("\nstdout:\n");
                out.append(stdout);
                out
            },
        }
    }
}

impl ExitStatus {
    /// The exit code, or the signal that terminated the process.
    pub open spec fn exit_code(&self) -> Result<i32, ProcessError> {
        match self {
            ExitStatus::Exited(code) => Ok(*code),
            ExitStatus::Signaled(signal) => Err(ProcessError::Signaled(*signal)),
        }
    }

    /// Returns the exit code, fails if the process was killed by a signal.
    pub fn code_not_killed(&self) -> (r: Result<i32, ProcessError>)
        ensures
            r == self.exit_code(),
    {
        match self {
            ExitStatus::Exited(code) => Ok(*code),
            ExitStatus::Signaled(signal) => Err(ProcessError::Signaled(*signal)),
        }
    }
}

/// Judging a process by what it left behind.
pub trait OutputExt {
    /// How the process ended.
    spec fn ended(&self) -> ExitStatus;

    /// Returns exit code, fails verbosely if the process was killed by a signal.
    fn code_not_killed(&self) -> (r: Result<i32, ProcessError>)
        ensures
            r == self.ended().exit_code(),
    ;

    /// Fails verbosely unless the command completed successfully.
    fn ok(&self) -> (r: Result<(), ProcessError>)
        ensures
            r == match self.ended() {
                ExitStatus::Exited(0) => Ok::<(), ProcessError>(()),
                ExitStatus::Exited(code) => Err(ProcessError::Failed(code)),
                ExitStatus::Signaled(signal) => Err(ProcessError::Signaled(signal)),
            },
    ;
}

impl OutputExt for Output {
    open spec fn ended(&self) -> ExitStatus {
        self.status
    }

    fn code_not_killed(&self) -> (r: Result<i32, ProcessError>) {
        self.status.code_not_killed()
    }

    fn ok(&self) -> (r: Result<(), ProcessError>) {
        let code: i32 = match self.code_not_killed() {
            Ok(code) => code,
            Err(e) => {
                return Err(e);
            },
        };
        if code == 0 {
            Ok(())
        } else {
            Err(ProcessError::Failed(code))
        }
    }
}

/// A message names the signal or the code, and for a code it shows what the
/// process wrote, the error output first.
pub proof fn lemma_message(e: ProcessError, stderr: Seq<char>, stdout: Seq<char>)
    ensures
        e matches ProcessError::Signaled(signal) ==> crate::job::ends_with(
            e.message(stderr, stdout),
            "signal "@ + strings::decimal(signal as int),
        ),
        e matches ProcessError::Failed(code) ==> ({
            &&& strings::has_part(
                e.message(stderr, stdout),
                "exit code "@ + strings::decimal(code as int),
            )
            &&& strings::has_part(e.message(stderr, stdout), "stderr:\n"@ + stderr)
            &&& crate::job::ends_with(e.message(stderr, stdout), "stdout:\n"@ + stdout)
        }),
{
    let s = e.message(stderr, stdout);
    match e {
        ProcessError::Signaled(signal) => {
            reveal_strlit("terminated by signal ");
            reveal_strlit("signal ");
            let end = "signal "@ + strings::decimal(signal as int);
            assert(s.skip(s.len() - end.len()) =~= end);
        },
        ProcessError::Failed(code) => {
            reveal_strlit("failed with exit code ");
            reveal_strlit("exit code ");
            reveal_strlit(". stderr:\n");
            reveal_strlit("stderr:\n");
            reveal_strlit("\nstdout:\n");
            reveal_strlit("stdout:\n");
            let number = strings::decimal(code as int);
            let part = "exit code "@ + number;
            let m: int = "failed with exit code "@.len() - "exit code "@.len();
            assert(s.subrange(m, m + part.len()) =~= part);
            let front = "failed with exit code "@ + number;
            let shown = "stderr:\n"@ + stderr;
            let m: int = front.len() + 2int;
            assert(s.subrange(m, m + shown.len()) =~= shown);
            let end = "stdout:\n"@ + stdout;
            assert(s.skip(s.len() - end.len()) =~= end);
        },
    }
}

/// A process has an exit code exactly if no signal ended it.
pub proof fn lemma_exit_code(status: ExitStatus, code: i32)
    ensures
        status.exit_code() == Ok::<i32, ProcessError>(code) <==> status == ExitStatus::Exited(code),
        status.exit_code() == Err::<i32, ProcessError>(ProcessError::Signaled(code)) <==> status
            == ExitStatus::Signaled(code),
        !(status.exit_code() matches Err(ProcessError::Failed(_))),
{
}

} // verus!

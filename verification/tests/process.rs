use limmat::process::{ExitStatus, Output, OutputExt, ProcessError};

fn output(status: ExitStatus) -> Output {
    Output {
        status,
        stdout: b"out".to_vec(),
        stderr: b"err".to_vec(),
    }
}

#[test]
fn exit_codes_are_told_from_signals() {
    let exited = output(ExitStatus::Exited(3));
    assert_eq!(exited.code_not_killed(), Ok(3));
    assert_eq!(exited.ok(), Err(ProcessError::Failed(3)));

    let killed = output(ExitStatus::Signaled(9));
    assert_eq!(killed.code_not_killed(), Err(ProcessError::Signaled(9)));
    assert_eq!(killed.ok(), Err(ProcessError::Signaled(9)));

    let fine = output(ExitStatus::Exited(0));
    assert_eq!(fine.code_not_killed(), Ok(0));
    assert_eq!(fine.ok(), Ok(()));
    assert_eq!(fine.status.code_not_killed(), Ok(0));
}

#[test]
fn failures_are_described() {
    assert_eq!(
        ProcessError::Signaled(15).describe("", ""),
        "terminated by signal 15"
    );
    assert_eq!(
        ProcessError::Failed(-1).describe("\"err\"", "\"out\""),
        "failed with exit code -1. stderr:\n\"err\"\nstdout:\n\"out\""
    );
}

use limmat::git::{
    rev_list, rev_parse, CommitHash, Debouncer, GitError, ObjectHash, PersistentWorktree,
    TempWorktree, TreeHash, WatchAction, WatchEvent, Worktree, DEBOUNCE_SECONDS,
};
use limmat::ident::Ident;
use limmat::process::{ExitStatus, Output, ProcessError};

fn output(status: ExitStatus, stdout: &[u8]) -> Output {
    Output {
        status,
        stdout: stdout.to_vec(),
        stderr: vec![],
    }
}

#[test]
fn a_revision_is_parsed() {
    let found = rev_parse(output(ExitStatus::Exited(0), b"abc123\n"));
    assert_eq!(found, Ok(Some(CommitHash::new("abc123".to_owned()))));
}

#[test]
fn an_invalid_revision_is_not_found() {
    let status = ExitStatus::Exited(128);
    assert_eq!(rev_parse(output(status, b"HEAD^^^\n")), Ok(None));
    assert_eq!(rev_list(output(status, b"")), Ok(vec![]));
}

#[test]
fn failures_of_git_are_reported() {
    assert_eq!(
        rev_parse(output(ExitStatus::Exited(1), b"")),
        Err(GitError::Process(ProcessError::Failed(1)))
    );
    assert_eq!(
        rev_list(output(ExitStatus::Signaled(2), b"")),
        Err(GitError::Process(ProcessError::Signaled(2)))
    );
    assert_eq!(
        rev_list(output(ExitStatus::Exited(0), &[0xff, 0xfe])),
        Err(GitError::NotUtf8)
    );
}

#[test]
fn revisions_are_listed_line_by_line() {
    let hashes = rev_list(output(ExitStatus::Exited(0), b"aaa\nbbb\r\nccc\n")).unwrap();
    let hashes: Vec<&str> = hashes.iter().map(|h| h.as_str()).collect();
    assert_eq!(hashes, ["aaa", "bbb", "ccc"]);
    assert_eq!(rev_list(output(ExitStatus::Exited(0), b"")), Ok(vec![]));
}

#[test]
fn hashes_keep_their_text() {
    let commit = CommitHash::new("c0ffee".to_owned());
    assert_eq!(commit.to_hash(), ObjectHash::new("c0ffee".to_owned()));
    assert!(commit.same(&commit.duplicate()));
    assert_eq!(commit.debug(), "CommitHash(\"c0ffee\")");
    let tree = TreeHash::new("beef".to_owned());
    assert_eq!(tree.to_hash().as_str(), "beef");
    assert!(tree.to_hash().same(&tree.to_hash()));
    assert!(!tree.to_hash().same(&commit.to_hash()));
}

#[test]
fn worktrees_are_made_and_removed() {
    let origin = PersistentWorktree {
        path: "/repo".to_owned(),
    };
    let (args, worktree) = TempWorktree::new(&origin, "/tmp/wt".to_owned());
    assert_eq!(args, ["worktree", "add", "/tmp/wt", "HEAD"]);
    assert_eq!(worktree.path(), "/tmp/wt");
    assert_eq!(worktree.origin, "/repo");
    let removal = worktree.removal(true);
    assert_eq!(
        removal.git_args.unwrap(),
        ["worktree", "remove", "/tmp/wt"]
    );
    assert_eq!(removal.delete, "/tmp/wt");
    // There is nothing to de-register from, but the directory goes all the same.
    let removal = worktree.removal(false);
    assert_eq!(removal.git_args, None);
    assert_eq!(removal.delete, "/tmp/wt");
}

#[test]
fn changes_are_debounced() {
    let mut debouncer = Debouncer::new();
    assert_eq!(
        debouncer.on_event(WatchEvent::Change),
        WatchAction::StartTimer
    );
    assert_eq!(debouncer.on_event(WatchEvent::Change), WatchAction::Wait);
    assert_eq!(debouncer.on_event(WatchEvent::Change), WatchAction::Wait);
    assert_eq!(debouncer.on_event(WatchEvent::Timer), WatchAction::Update);
    assert_eq!(
        debouncer.on_event(WatchEvent::Change),
        WatchAction::StartTimer
    );
    assert_eq!(DEBOUNCE_SECONDS, 1);
}

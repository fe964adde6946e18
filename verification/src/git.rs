//! Commits, worktrees, and what is made of the answers of `git`.
use crate::ident::Ident;
use crate::process::{Output, OutputExt, ProcessError};
use crate::strings;
use vstd::prelude::*;

verus! {

/// The hash of some git object.
#[derive(Debug, PartialEq, Eq, Hash)]
pub struct ObjectHash(String);

/// The hash of a commit.
#[derive(Debug, PartialEq, Eq, Hash)]
pub struct CommitHash(String);

/// The hash of a tree.
#[derive(Debug, PartialEq, Eq, Hash)]
pub struct TreeHash(String);

/// A commit, and the tree that it holds.
#[derive(Debug, PartialEq, Eq)]
pub struct Commit {
    pub hash: CommitHash,
    pub tree: TreeHash,
}

impl View for ObjectHash {
    type V = Seq<char>;

    closed spec fn view(&self) -> Seq<char> {
        self.0@
    }
}

impl View for CommitHash {
    type V = Seq<char>;

    closed spec fn view(&self) -> Seq<char> {
        self.0@
    }
}

impl View for TreeHash {
    type V = Seq<char>;

    closed spec fn view(&self) -> Seq<char> {
        self.0@
    }
}

impl Clone for ObjectHash {
    fn clone(&self) -> (r: Self)
        ensures
            r == *self,
    {
        ObjectHash(self.0.clone())
    }
}

impl Clone for CommitHash {
    fn clone(&self) -> (r: Self)
        ensures
            r == *self,
    {
        CommitHash(self.0.clone())
    }
}

impl Clone for TreeHash {
    fn clone(&self) -> (r: Self)
        ensures
            r == *self,
    {
        TreeHash(self.0.clone())
    }
}

impl Clone for Commit {
    fn clone(&self) -> (r: Self)
        ensures
            r == *self,
    {
        Commit { hash: self.hash.clone(), tree: self.tree.clone() }
    }
}

impl ObjectHash {
    /// A hash with the given text.
    pub fn new(s: String) -> (r: Self)
        ensures
            r@ == s@,
    {
        ObjectHash(s)
    }

    /// The text of the hash.
    pub fn as_str(&self) -> (r: &str)
        ensures
            r@ == self@,
    {
        self.0.as_str()
    }

    /// Whether two hashes are the same.
    pub fn same(&self, other: &Self) -> (r: bool)
        ensures
            r == (self@ == other@),
    {
        self.0 == other.0
    }
}

impl CommitHash {
    /// A hash with the given text.
    pub fn new(s: String) -> (r: Self)
        ensures
            r@ == s@,
    {
        CommitHash(s)
    }

    /// The text of the hash.
    pub fn as_str(&self) -> (r: &str)
        ensures
            r@ == self@,
    {
        self.0.as_str()
    }

    /// This hash, as the hash of some object.
    pub fn to_hash(&self) -> (r: ObjectHash)
        ensures
            r@ == self@,
    {
        ObjectHash(self.0.clone())
    }
}

impl TreeHash {
    /// A hash with the given text.
    pub fn new(s: String) -> (r: Self)
        ensures
            r@ == s@,
    {
        TreeHash(s)
    }

    /// The text of the hash.
    pub fn as_str(&self) -> (r: &str)
        ensures
            r@ == self@,
    {
        self.0.as_str()
    }

    /// This hash, as the hash of some object.
    pub fn to_hash(&self) -> (r: ObjectHash)
        ensures
            r@ == self@,
    {
        ObjectHash(self.0.clone())
    }
}

impl Ident for CommitHash {
    open spec fn debug_form(id: Seq<char>) -> Seq<char> {
        "CommitHash("@ + strings::debug_text(id) + ")"@
    }

    fn same(&self, other: &Self) -> (r: bool) {
        self.0 == other.0
    }

    fn duplicate(&self) -> (r: Self) {
        self.clone()
    }

    fn debug(&self) -> (r: String) {
        let mut out: String = String::from_str("CommitHash(");
        out.append(strings::debug_string(self.as_str()).as_str());
        out.append(")");
        out
    }
}

/// A checked out tree, which might be that of the repository itself or some
/// other one.
pub trait Worktree {
    /// Where the worktree is.
    spec fn location(&self) -> Seq<char>;

    /// Where the worktree is.
    fn path(&self) -> (r: &str)
        ensures
            r@ == self.location(),
    ;
}

/// A worktree that is there anyway.
#[derive(Debug)]
pub struct PersistentWorktree {
    pub path: String,
}

impl Worktree for PersistentWorktree {
    open spec fn location(&self) -> Seq<char> {
        self.path@
    }

    fn path(&self) -> (r: &str) {
        self.path.as_str()
    }
}

/// A worktree that was made from a repository and is taken away again.
#[derive(Debug, PartialEq, Eq)]
pub struct TempWorktree {
    /// Path of the repository this was created from.
    pub origin: String,
    pub path: String,
}

impl Worktree for TempWorktree {
    open spec fn location(&self) -> Seq<char> {
        self.path@
    }

    fn path(&self) -> (r: &str) {
        self.path.as_str()
    }
}

/// How a worktree is taken away: first git is told, if there is anything to
/// tell, then the directory is deleted, whatever git said. (It refuses to remove
/// a tree that was changed.)
#[derive(Debug, PartialEq, Eq)]
pub struct Removal {
    /// The arguments for `git`, to be run in the repository that the worktree
    /// was made from.
    pub git_args: Option<Vec<String>>,
    /// The directory to delete with everything in it.
    pub delete: String,
}

/// The arguments with which `git` makes a worktree.
pub open spec fn adding(path: Seq<char>) -> Seq<Seq<char>> {
    seq!["worktree"@, "add"@, path, "HEAD"@]
}

/// The arguments with which `git` takes a worktree away.
pub open spec fn removing(path: Seq<char>) -> Seq<Seq<char>> {
    seq!["worktree"@, "remove"@, path]
}

impl TempWorktree {
    /// The arguments with which `git`, run in `origin`, makes a worktree at
    /// `path`, and the worktree that it makes.
    pub fn new<W: Worktree>(origin: &W, path: String) -> (r: (Vec<String>, TempWorktree))
        ensures
            strings::texts(r.0@) == adding(path@),
            r.1.origin@ == origin.location(),
            r.1.path@ == path@,
    {
        let mut args: Vec<String> = Vec::new();
        args.push(String::from_str("worktree"));
        args.push(String::from_str("add"));
        args.push(path.clone());
        args.push(String::from_str("HEAD"));
        assert(strings::texts(args@) =~= seq!["worktree"@, "add"@, path@, "HEAD"@]);
        (args, TempWorktree { origin: String::from_str(origin.path()), path })
    }

    /// How to take the worktree away. Git has no part in it if the repository
    /// that the worktree was made from is gone.
    pub fn removal(&self, origin_exists: bool) -> (r: Removal)
        ensures
            r.git_args is Some <==> origin_exists,
            r.git_args matches Some(args) ==> strings::texts(args@) == removing(self.path@),
            r.delete@ == self.path@,
    {
        let delete = self.path.clone();
        if !origin_exists {
            return Removal { git_args: None, delete };
        }
        let mut args: Vec<String> = Vec::new();
        args.push(String::from_str("worktree"));
        args.push(String::from_str("remove"));
        args.push(self.path.clone());
        assert(strings::texts(args@) =~= seq!["worktree"@, "remove"@, self.path@]);
        Removal { git_args: Some(args), delete }
    }
}

/// Why an answer of `git` is of no use.
#[derive(Debug, PartialEq, Eq)]
pub enum GitError {
    /// The process failed.
    Process(ProcessError),
    /// What it wrote is not UTF-8.
    NotUtf8,
}

/// The code with which `git rev-parse` and `git rev-list` exit when a revision
/// or a range is invalid. It isn't documented but seems to be stable.
pub const INVALID_REVISION: i32 = 128;

/// The text in `stdout` of a process that succeeded, or `None` if it exited
/// with the code for an invalid revision.
pub open spec fn answer(output: Output) -> Result<Option<Seq<char>>, GitError> {
    match output.ended() {
        crate::process::ExitStatus::Signaled(signal) => Err(
            GitError::Process(ProcessError::Signaled(signal)),
        ),
        crate::process::ExitStatus::Exited(code) => if code == INVALID_REVISION {
            Ok(None)
        } else if code != 0 {
            Err(GitError::Process(ProcessError::Failed(code)))
        } else if vstd::utf8::valid_utf8(output.stdout@) {
            Ok(Some(vstd::utf8::decode_utf8(output.stdout@)))
        } else {
            Err(GitError::NotUtf8)
        },
    }
}

fn read_answer(output: Output) -> (r: Result<Option<String>, GitError>)
    ensures
        match r {
            Ok(Some(text)) => answer(output) == Ok::<Option<Seq<char>>, GitError>(Some(text@)),
            Ok(None) => answer(output) == Ok::<Option<Seq<char>>, GitError>(None),
            Err(e) => answer(output) == Err::<Option<Seq<char>>, GitError>(e),
        },
{
    let code: i32 = match output.code_not_killed() {
        Ok(code) => code,
        Err(e) => {
            return Err(GitError::Process(e));
        },
    };
    if code == INVALID_REVISION {
        return Ok(None);
    }
    if code != 0 {
        return Err(GitError::Process(ProcessError::Failed(code)));
    }
    match strings::utf8_text(output.stdout) {
        Some(text) => Ok(Some(text)),
        None => Err(GitError::NotUtf8),
    }
}

/// The commit that `git rev-parse` has named.
pub open spec fn named_commit(output: Output) -> Result<Option<Seq<char>>, GitError> {
    match answer(output) {
        Ok(Some(text)) => Ok(Some(strings::trimmed(text))),
        Ok(None) => Ok(None),
        Err(e) => Err(e),
    }
}

/// The commits that `git rev-list` has listed.
pub open spec fn listed_commits(output: Output) -> Result<Seq<Seq<char>>, GitError> {
    match answer(output) {
        Ok(Some(text)) => Ok(strings::lines_of(text)),
        Ok(None) => Ok(Seq::empty()),
        Err(e) => Err(e),
    }
}

/// What `git rev-parse` has found. `None` means we successfully looked it up
/// but it didn't exist.
pub fn rev_parse(output: Output) -> (r: Result<Option<CommitHash>, GitError>)
    ensures
        match named_commit(output) {
            Ok(Some(name)) => r matches Ok(Some(hash)) && hash@ == name,
            Ok(None) => r == Ok::<Option<CommitHash>, GitError>(None),
            Err(e) => r == Err::<Option<CommitHash>, GitError>(e),
        },
{
    match read_answer(output) {
        Ok(Some(text)) => Ok(Some(CommitHash(strings::trim(text.as_str())))),
        Ok(None) => Ok(None),
        Err(e) => Err(e),
    }
}

/// The commits that `git rev-list` has listed; none if the range is invalid.
pub fn rev_list(output: Output) -> (r: Result<Vec<CommitHash>, GitError>)
    ensures
        match listed_commits(output) {
            Ok(names) => r matches Ok(hashes) && crate::ident::views(hashes@) == names,
            Err(e) => r == Err::<Vec<CommitHash>, GitError>(e),
        },
{
    let text = match read_answer(output) {
        Ok(Some(text)) => text,
        Ok(None) => {
            return Ok(Vec::new());
        },
        Err(e) => {
            return Err(e);
        },
    };
    let lines = strings::lines(text.as_str());
    let mut out: Vec<CommitHash> = Vec::new();
    let mut i: usize = 0;
    while i < lines.len()
        invariant
            i <= lines@.len(),
            crate::ident::views(out@) =~= strings::texts(lines@).take(i as int),
        decreases lines@.len() - i,
    {
        let ghost before = crate::ident::views(out@);
        let hash = CommitHash(lines[i].clone());
        out.push(hash);
        assert(crate::ident::views(out@) =~= before.push(hash@));
        i += 1;
    }
    assert(strings::texts(lines@).take(i as int) =~= strings::texts(lines@));
    Ok(out)
}

/// Something that the watcher of a repository waits for.
#[derive(Debug, Clone, Copy, PartialEq, Eq, Structural)]
pub enum WatchEvent {
    /// A file in the repository changed.
    Change,
    /// The timer ran out.
    Timer,
}

/// What the watcher does next.
#[derive(Debug, Clone, Copy, PartialEq, Eq, Structural)]
pub enum WatchAction {
    /// Start a timer that runs out after a second.
    StartTimer,
    /// List the revisions anew and report them.
    Update,
    /// Go on waiting.
    Wait,
}

/// "Debounces" consecutive events within the same 1s window, to avoid thrashing
/// on the downstream logic as git works its way through changes.
#[derive(Debug)]
pub struct Debouncer {
    timer_set: bool,
}

/// How many seconds the timer runs.
pub const DEBOUNCE_SECONDS: u64 = 1;

/// What to do about an event: a change starts the timer unless it is running,
/// and an update comes when it runs out.
pub open spec fn watch_action(timer_set: bool, event: WatchEvent) -> WatchAction {
    match event {
        WatchEvent::Timer => WatchAction::Update,
        WatchEvent::Change => if timer_set {
            WatchAction::Wait
        } else {
            WatchAction::StartTimer
        },
    }
}

impl Debouncer {
    /// Whether a timer is running.
    pub closed spec fn running(&self) -> bool {
        self.timer_set
    }

    /// Starts with an expired timer.
    pub fn new() -> (r: Self)
        ensures
            !r.running(),
    {
        Debouncer { timer_set: false }
    }

    /// Says what to do about an event.
    pub fn on_event(&mut self, event: WatchEvent) -> (r: WatchAction)
        ensures
            r == watch_action(old(self).running(), event),
            final(self).running() == (event == WatchEvent::Change),
    {
        match event {
            WatchEvent::Timer => {
                self.timer_set = false;
                WatchAction::Update
            },
            WatchEvent::Change => {
                if self.timer_set {
                    WatchAction::Wait
                } else {
                    self.timer_set = true;
                    WatchAction::StartTimer
                }
            },
        }
    }
}

/// An answer of git counts only if the process ended well: a text is what it
/// wrote, and there is none exactly if it exited with the code 128. A signal or
/// another code is an error that tells which one it was.
pub proof fn lemma_answer(output: Output, code: i32)
    ensures
        answer(output) == Ok::<Option<Seq<char>>, GitError>(None) <==> output.status
            == crate::process::ExitStatus::Exited(128),
        (answer(output) matches Ok(Some(_))) <==> output.status
            == crate::process::ExitStatus::Exited(0) && vstd::utf8::valid_utf8(output.stdout@),
        answer(output) matches Ok(Some(text)) ==> text == vstd::utf8::decode_utf8(output.stdout@),
        answer(output) == Err::<Option<Seq<char>>, GitError>(
            GitError::Process(ProcessError::Signaled(code)),
        ) <==> output.status == crate::process::ExitStatus::Signaled(code),
        answer(output) == Err::<Option<Seq<char>>, GitError>(
            GitError::Process(ProcessError::Failed(code)),
        ) <==> output.status == crate::process::ExitStatus::Exited(code) && code != 0 && code
            != 128,
{
}

/// Changes that come while a timer runs start no other one, and every timer that
/// runs out leads to an update.
pub proof fn lemma_debounced(timer_set: bool, event: WatchEvent)
    ensures
        watch_action(timer_set, event) is Update <==> event is Timer,
        watch_action(timer_set, event) is StartTimer <==> event is Change && !timer_set,
        watch_action(timer_set, event) is Wait <==> event is Change && timer_set,
{
}

/// A worktree is taken away from where it was made, and has the latest commit
/// checked out in it at first.
pub proof fn lemma_worktree_commands(path: Seq<char>)
    ensures
        adding(path).contains(path),
        removing(path).last() == path,
        adding(path).last() == "HEAD"@,
        adding(path)[0] == "worktree"@ && adding(path)[1] == "add"@,
        removing(path)[0] == "worktree"@ && removing(path)[1] == "remove"@,
        adding(path).len() == 4 && removing(path).len() == 3,
{
    assert(adding(path)[2] == path);
}

/// A hash that git has written, with a line feed after it, is read as it is; and
/// a revision that git does not know is none.
pub proof fn lemma_named_commit(output: Output, hash: Seq<char>)
    requires
        hash.len() > 0,
        forall|i: int| 0 <= i < hash.len() ==> !strings::is_space(#[trigger] hash[i]),
    ensures
        answer(output) == Ok::<Option<Seq<char>>, GitError>(Some(hash.push('\n'))) ==> named_commit(
            output,
        ) == Ok::<Option<Seq<char>>, GitError>(Some(hash)),
        output.status == crate::process::ExitStatus::Exited(128) ==> named_commit(output) == Ok::<
            Option<Seq<char>>,
            GitError,
        >(None),
        answer(output) matches Err(e) ==> named_commit(output) == Err::<
            Option<Seq<char>>,
            GitError,
        >(e),
{
    let text = hash.push('\n');
    let (i, j) = strings::lemma_trimmed(text);
    if i > 0 {
        assert(!strings::is_space(hash[0]));
        assert(strings::is_space(text[0]));
    }
    if j < hash.len() {
        assert(!strings::is_space(hash[j]));
        assert(strings::is_space(text[j]));
    }
    if j == text.len() {
        assert(text[j - 1] == '\n');
    }
    assert(text.subrange(0, hash.len() as int) =~= hash);
}

/// The hashes that git has listed, one in each line, are read as they are and in
/// their order; for an invalid range there are none.
pub proof fn lemma_listed_commits(output: Output, names: Seq<Seq<char>>)
    requires
        forall|i: int|
            0 <= i < names.len() ==> (#[trigger] names[i]).len() > 0 && !names[i].contains('\n')
                && names[i].last() != '\r',
    ensures
        answer(output) == Ok::<Option<Seq<char>>, GitError>(Some(crate::text::ended_lines(names)))
            ==> listed_commits(output) == Ok::<Seq<Seq<char>>, GitError>(names),
        output.status == crate::process::ExitStatus::Exited(128) ==> listed_commits(output) == Ok::<
            Seq<Seq<char>>,
            GitError,
        >(Seq::empty()),
        answer(output) matches Err(e) ==> listed_commits(output) == Err::<Seq<Seq<char>>, GitError>(
            e,
        ),
{
    let text = crate::text::ended_lines(names);
    let none = Seq::<char>::empty();
    strings::lemma_lines_are_read(names, none);
    assert(text + none =~= text);
    assert(strings::lines_of(text) =~= names);
}

} // verus!

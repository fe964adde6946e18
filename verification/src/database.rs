//! The database of test results, which is a directory: where an entry stands,
//! and when a result that is found there may be used.
use crate::git::ObjectHash;
use crate::strings;
use crate::test::{TestCase, TestName, TestResult};
use crate::util::ByteSize;
use vstd::prelude::*;

verus! {

/// The database, by the directory in which it is kept.
#[derive(Debug)]
pub struct Database {
    pub base_dir: String,
}

/// What is stored of a test that ran to completion.
#[derive(Debug, PartialEq, Eq)]
pub struct TestResultEntry {
    pub config_hash: String,
    pub result: TestResult,
}

/// A stored result, as text.
pub struct EntryView {
    pub config_hash: Seq<char>,
    pub result: TestResult,
}

impl View for TestResultEntry {
    type V = EntryView;

    open spec fn view(&self) -> EntryView {
        EntryView { config_hash: self.config_hash@, result: self.result }
    }
}

impl Clone for TestResultEntry {
    fn clone(&self) -> (r: Self)
        ensures
            r == *self,
    {
        TestResultEntry { config_hash: self.config_hash.clone(), result: self.result.clone() }
    }
}

/// What was read from the file that holds the result of an entry.
#[derive(Debug, PartialEq, Eq)]
pub enum Content {
    /// The file is empty: there is no result yet.
    Empty,
    /// The file does not hold a result. This probably just means that the
    /// program got killed before it finished writing the result.
    Invalid,
    /// The file holds this result.
    Entry(TestResultEntry),
}

/// The result that may be used for a test case, of what was read: the
/// configuration must not have changed since, and the test must accept cached
/// results.
pub open spec fn usable(content: Content, test_case: TestCase) -> Option<TestResultEntry> {
    match content {
        Content::Entry(entry) => if entry.config_hash@ == test_case.test.config_hash@
            && test_case.cache_hash is Some {
            Some(entry)
        } else {
            None
        },
        _ => None,
    }
}

/// Where the result of a test case stands, below the directory of the database.
pub open spec fn relpath(test_case: TestCase) -> Seq<char> {
    strings::path_joined(test_case.storage(), test_case.test.name@)
}

/// Where the result of a test case stands, in the database in the given
/// directory.
pub open spec fn entry_dir(base_dir: Seq<char>, test_case: TestCase) -> Seq<char> {
    strings::path_joined(strings::path_joined(base_dir, test_case.storage()), test_case.test.name@)
}

/// The results that a database holds, by the paths of the files that hold them.
pub type Results = Map<Seq<char>, EntryView>;

/// The file that holds the result of a test case, in the database in the given
/// directory.
pub open spec fn result_file(base_dir: Seq<char>, test_case: TestCase) -> Seq<char> {
    strings::path_joined(entry_dir(base_dir, test_case), "result.json"@)
}

/// Where the output of a job for a test case belongs that is to be stored.
pub open spec fn case_target(base_dir: Seq<char>, test_case: TestCase) -> Target {
    Target {
        dir: entry_dir(base_dir, test_case),
        config_hash: test_case.test.config_hash@,
        kept: true,
    }
}

/// There is a result that may be used for a test case.
pub open spec fn has_usable(results: Results, base_dir: Seq<char>, test_case: TestCase) -> bool {
    &&& results.dom().contains(result_file(base_dir, test_case))
    &&& results[result_file(base_dir, test_case)].config_hash == test_case.test.config_hash@
    &&& test_case.cache_hash is Some
}

/// What can be read from a file, given the results that there are.
pub open spec fn reads(results: Results, file: Seq<char>, content: Content) -> bool {
    match content {
        Content::Entry(entry) => results.dom().contains(file) && results[file] == entry@,
        _ => !results.dom().contains(file),
    }
}

/// What a lookup reads may be used exactly if the database holds a result that
/// may be used.
pub proof fn lemma_read_what_is_there(
    results: Results,
    base_dir: Seq<char>,
    test_case: TestCase,
    content: Content,
)
    requires
        reads(results, result_file(base_dir, test_case), content),
    ensures
        usable(content, test_case) is Some <==> has_usable(results, base_dir, test_case),
        usable(content, test_case) matches Some(entry) ==> entry@ == results[result_file(
            base_dir,
            test_case,
        )],
{
}

/// A name can be that of a file in some directory.
pub open spec fn plain_component(name: Seq<char>) -> bool {
    &&& name.len() > 0
    &&& !name.contains('/')
    &&& name != seq!['.']
    &&& name != seq!['.', '.']
}

/// A name leads to a place below a directory, and no other name leads there:
/// it does not start at the root, and it is made of proper names of files.
pub open spec fn plain_path(name: Seq<char>) -> bool {
    forall|i: int|
        0 <= i < strings::pieces(name, '/').len() ==> plain_component(
            #[trigger] strings::pieces(name, '/')[i],
        )
}

proof fn lemma_plain_path(name: Seq<char>)
    requires
        plain_path(name),
    ensures
        name.len() > 0,
        name.first() != '/',
        name.last() != '/',
{
    let parts = strings::pieces(name, '/');
    strings::lemma_pieces(name, '/');
    assert(plain_component(parts[0]));
    assert(plain_component(parts[parts.len() - 1]));
    if name.len() > 0 && name[0] == '/' {
        strings::lemma_leading_separator(name, '/');
    }
}

/// The results of different tests, and of different hashes, stand in different
/// files.
pub proof fn lemma_files_kept_apart(base_dir: Seq<char>, case1: TestCase, case2: TestCase)
    requires
        plain_component(case1.storage()),
        plain_component(case2.storage()),
        plain_path(case1.test.name@),
        plain_path(case2.test.name@),
        result_file(base_dir, case1) == result_file(base_dir, case2),
    ensures
        case1.storage() == case2.storage(),
        case1.test.name@ == case2.test.name@,
{
    reveal_strlit("result.json");
    let start = if base_dir.len() > 0 && base_dir.last() != '/' {
        base_dir.push('/')
    } else {
        base_dir
    };
    lemma_file_path(base_dir, start, case1);
    lemma_file_path(base_dir, start, case2);
    let end = seq!['/'] + "result.json"@;
    let path = result_file(base_dir, case1);
    assert(relpath(case1) =~= path.subrange(start.len() as int, path.len() - end.len()));
    assert(relpath(case2) =~= path.subrange(start.len() as int, path.len() - end.len()));
    lemma_plain_path(case1.test.name@);
    lemma_plain_path(case2.test.name@);
    lemma_entries_kept_apart(case1, case2);
}

/// What the path of a result is made of.
proof fn lemma_file_path(base_dir: Seq<char>, start: Seq<char>, test_case: TestCase)
    requires
        plain_component(test_case.storage()),
        plain_path(test_case.test.name@),
        start == (if base_dir.len() > 0 && base_dir.last() != '/' {
            base_dir.push('/')
        } else {
            base_dir
        }),
    ensures
        result_file(base_dir, test_case) == start + relpath(test_case) + (seq!['/']
            + "result.json"@),
{
    reveal_strlit("result.json");
    let hash = test_case.storage();
    let name = test_case.test.name@;
    assert(hash.contains(hash[0]) && hash.contains(hash.last()));
    lemma_plain_path(name);
    assert(strings::path_joined(base_dir, hash) =~= start + hash);
    assert(entry_dir(base_dir, test_case) =~= start + relpath(test_case));
    assert(result_file(base_dir, test_case) =~= start + relpath(test_case) + (seq!['/']
        + "result.json"@));
}

impl Database {
    /// The database in the given directory.
    pub fn create_or_open(base_dir: &str) -> (r: Self)
        ensures
            r.base_dir@ == base_dir@,
    {
        Database { base_dir: String::from_str(base_dir) }
    }

    /// Where the result of a test case stands, below the directory of the
    /// database.
    pub fn result_relpath(test_case: &TestCase) -> (r: String)
        ensures
            r@ == relpath(*test_case),
    {
        strings::join_path(test_case.storage_hash().as_str(), test_case.test.name.as_str())
    }

    /// Where the result of a test with the given hash stands.
    pub fn result_path(&self, hash: &ObjectHash, test_name: &TestName) -> (r: String)
        ensures
            r@ == strings::path_joined(
                strings::path_joined(self.base_dir@, hash@),
                test_name@,
            ),
    {
        strings::join_path(
            strings::join_path(self.base_dir.as_str(), hash.as_str()).as_str(),
            test_name.as_str(),
        )
    }

    /// Begins to look for the result of a test case.
    pub fn lookup(&self, test_case: &TestCase) -> (r: Lookup)
        ensures
            r.state() == LookupState::Reading(ATTEMPTS),
            r.test_case() == *test_case,
            r.dir() == entry_dir(self.base_dir@, *test_case),
    {
        let hash = test_case.storage_hash();
        Lookup {
            dir: self.result_path(&hash, &test_case.test.name),
            test_case: test_case.clone(),
            state: LookupState::Reading(ATTEMPTS),
        }
    }
}

/// How often a lookup is tried, not to block forever.
pub const ATTEMPTS: u32 = 5;

/// How far a lookup has come. The numbers are those of the attempts that are
/// left, with the one under way.
#[derive(Debug, Clone, Copy, PartialEq, Eq, Structural)]
pub enum LookupState {
    /// A shared lock is taken and the file is read under it.
    Reading(u32),
    /// There was nothing to use, so the lock is made exclusive and the file is
    /// read again.
    Upgrading(u32),
    /// The lookup is over.
    Done,
}

/// A lookup is not over.
pub open spec fn under_way(state: LookupState) -> bool {
    match state {
        LookupState::Reading(left) => left > 0,
        LookupState::Upgrading(left) => left > 0,
        LookupState::Done => false,
    }
}

/// Where a lookup goes from a state, when there was something to use or not.
pub open spec fn next_state(state: LookupState, found: bool) -> LookupState {
    match state {
        LookupState::Reading(left) => if found {
            LookupState::Done
        } else {
            LookupState::Upgrading(left)
        },
        LookupState::Upgrading(left) => if found && left > 1 {
            LookupState::Reading((left - 1) as u32)
        } else {
            LookupState::Done
        },
        LookupState::Done => LookupState::Done,
    }
}

/// Where a lookup is after the given reads.
pub open spec fn state_after(state: LookupState, reads: Seq<bool>) -> LookupState
    decreases reads.len(),
{
    if reads.len() == 0 {
        state
    } else {
        next_state(state_after(state, reads.drop_last()), reads.last())
    }
}

/// The most reads that a lookup can take from a state on.
spec fn reads_left(state: LookupState) -> int {
    match state {
        LookupState::Reading(left) => 2 * left,
        LookupState::Upgrading(left) => 2 * left - 1,
        LookupState::Done => 0,
    }
}

proof fn lemma_reads_left(state: LookupState, reads: Seq<bool>)
    requires
        under_way(state),
    ensures
        state_after(state, reads) is Done || (under_way(state_after(state, reads)) && reads_left(
            state_after(state, reads),
        ) + reads.len() == reads_left(state)),
    decreases reads.len(),
{
    if reads.len() > 0 {
        lemma_reads_left(state, reads.drop_last());
    }
}

/// A lookup does not go on forever: it is over after two reads for each
/// attempt at the latest, whatever was read.
pub proof fn lemma_lookup_ends(reads: Seq<bool>)
    requires
        reads.len() >= 2 * ATTEMPTS,
    ensures
        state_after(LookupState::Reading(ATTEMPTS), reads) is Done,
{
    lemma_reads_left(LookupState::Reading(ATTEMPTS), reads);
}

/// What is stored for a test case is found again. The result goes to the output
/// that a lookup hands out, and is read where a lookup for a case with the same
/// name and hash looks. The first read uses it if the configuration of the test
/// is still the same and the test accepts cached results; otherwise it is not
/// used.
pub proof fn lemma_stored_result_found(
    base_dir: Seq<char>,
    written: TestCase,
    output: DatabaseOutput,
    entry: DatabaseEntry,
    sought: TestCase,
)
    requires
        output.base() == entry_dir(base_dir, written),
        output.config_hash() == written.test.config_hash@,
        entry.base() == output.base(),
        entry.entry().config_hash@ == output.config_hash(),
        sought.storage() == written.storage(),
        sought.test.name@ == written.test.name@,
    ensures
        entry.base() == entry_dir(base_dir, sought),
        usable(Content::Entry(entry.entry()), sought) == if sought.test.config_hash@
            == written.test.config_hash@ && sought.cache_hash is Some {
            Some(entry.entry())
        } else {
            None
        },
        next_state(
            LookupState::Reading(ATTEMPTS),
            usable(Content::Entry(entry.entry()), sought) is Some,
        ) == if sought.test.config_hash@ == written.test.config_hash@ && sought.cache_hash is Some {
            LookupState::Done
        } else {
            LookupState::Upgrading(ATTEMPTS)
        },
{
}

/// A test whose results are filed by tree shares them between the commits that
/// hold the same tree: they are looked for in the same place, and what one may
/// use the other may use too.
pub proof fn lemma_same_tree_shares_results(
    case1: TestCase,
    case2: TestCase,
    commit1: crate::git::Commit,
    commit2: crate::git::Commit,
    content: Content,
)
    requires
        case1.test == case2.test,
        case1.test.cache_policy == crate::test::CachePolicy::ByTree,
        crate::test::hash_view(case1.cache_hash) == case1.test.cache_policy.filed_under(commit1),
        crate::test::hash_view(case2.cache_hash) == case2.test.cache_policy.filed_under(commit2),
        commit1.tree@ == commit2.tree@,
    ensures
        relpath(case1) == relpath(case2),
        usable(content, case1) == usable(content, case2),
{
}

/// The results of different tests, and of different hashes, have different
/// paths.
pub proof fn lemma_entries_kept_apart(case1: TestCase, case2: TestCase)
    requires
        case1.storage().len() > 0,
        case2.storage().len() > 0,
        !case1.storage().contains('/'),
        !case2.storage().contains('/'),
        case1.test.name@.len() > 0 ==> case1.test.name@.first() != '/',
        case2.test.name@.len() > 0 ==> case2.test.name@.first() != '/',
        relpath(case1) == relpath(case2),
    ensures
        case1.storage() == case2.storage(),
        case1.test.name@ == case2.test.name@,
{
    let h1 = case1.storage();
    let h2 = case2.storage();
    let p = relpath(case1);
    assert(h1.contains(h1.last()) && h2.contains(h2.last()));
    assert(p == h1.push('/') + case1.test.name@);
    assert(p == h2.push('/') + case2.test.name@);
    assert(p[h1.len() as int] == '/');
    assert((h2.push('/') + case2.test.name@)[h2.len() as int] == '/');
    if h1.len() < h2.len() {
        assert(p[h1.len() as int] == h2[h1.len() as int]);
    } else if h2.len() < h1.len() {
        assert(p[h2.len() as int] == h1[h2.len() as int]);
    }
    assert(h1 =~= p.take(h1.len() as int));
    assert(h2 =~= p.take(h2.len() as int));
    assert(case1.test.name@ =~= p.skip(h1.len() as int + 1));
    assert(case2.test.name@ =~= p.skip(h2.len() as int + 1));
}

/// What comes of a read during a lookup.
#[derive(Debug)]
pub enum LookupStep {
    /// Result found in the the database, here it is.
    FoundResult(DatabaseEntry),
    /// Seems we have to run the test: take the exclusive lock, and read again.
    Upgrade,
    /// Someone else ran the test meanwhile: give up the lock and start over.
    Retry,
    /// No result, you can run it and write the output here.
    YouRunIt(DatabaseOutput),
    /// Too much database contention, something fishy going on.
    Contention,
}

/// A step of a lookup in a state: `found` is what may be used of what was read,
/// `dir` the directory of the entry, and `config_hash` the hash of the
/// configuration of the test.
pub open spec fn is_step(
    state: LookupState,
    found: Option<TestResultEntry>,
    dir: Seq<char>,
    config_hash: Seq<char>,
    r: LookupStep,
) -> bool {
    match (state, found) {
        (LookupState::Reading(_), Some(entry)) => {
            &&& r matches LookupStep::FoundResult(found)
            &&& found.entry() == entry
            &&& found.base() == dir
        },
        (LookupState::Reading(_), None) => r is Upgrade,
        (LookupState::Upgrading(left), Some(_)) => if left > 1 {
            r is Retry
        } else {
            r is Contention
        },
        (LookupState::Upgrading(_), None) => {
            &&& r matches LookupStep::YouRunIt(output)
            &&& output.fresh()
            &&& output.target() == (Target { dir, config_hash, kept: true })
        },
        (LookupState::Done, _) => false,
    }
}

/// A lookup under way.
#[derive(Debug)]
pub struct Lookup {
    dir: String,
    test_case: TestCase,
    state: LookupState,
}

impl Lookup {
    /// How far the lookup has come.
    pub closed spec fn state(&self) -> LookupState {
        self.state
    }

    /// The test case that is looked for.
    pub closed spec fn test_case(&self) -> TestCase {
        self.test_case
    }

    /// The directory of the entry.
    pub closed spec fn dir(&self) -> Seq<char> {
        self.dir@
    }

    /// The directory of the entry.
    pub fn result_dir(&self) -> (r: &str)
        ensures
            r@ == self.dir(),
    {
        self.dir.as_str()
    }

    /// The file that holds the result of the entry.
    pub fn json_path(&self) -> (r: String)
        ensures
            r@ == strings::path_joined(self.dir(), "result.json"@),
    {
        strings::join_path(self.dir.as_str(), "result.json")
    }

    /// The result that may be used, of what was read.
    fn parse_result(&self, content: Content) -> (r: Option<TestResultEntry>)
        ensures
            r == usable(content, self.test_case),
    {
        match content {
            Content::Entry(entry) => {
                if entry.config_hash == self.test_case.test.config_hash
                    && self.test_case.cache_hash.is_some() {
                    Some(entry)
                } else {
                    None
                }
            },
            _ => None,
        }
    }

    /// Goes on with what was read under the lock that the state asks for.
    pub fn step(&mut self, content: Content) -> (r: LookupStep)
        requires
            under_way(old(self).state()),
        ensures
            final(self).test_case() == old(self).test_case(),
            final(self).dir() == old(self).dir(),
            final(self).state() == next_state(
                old(self).state(),
                usable(content, old(self).test_case()) is Some,
            ),
            is_step(
                old(self).state(),
                usable(content, old(self).test_case()),
                old(self).dir(),
                old(self).test_case().test.config_hash@,
                r,
            ),
    {
        match self.state {
            LookupState::Reading(left) => match self.parse_result(content) {
                Some(result) => {
                    self.state = LookupState::Done;
                    LookupStep::FoundResult(DatabaseEntry { base_path: self.dir.clone(), result })
                },
                None => {
                    self.state = LookupState::Upgrading(left);
                    LookupStep::Upgrade
                },
            },
            LookupState::Upgrading(left) => {
                if self.parse_result(content).is_some() {
                    // The result is there, but to return it the lock must be a
                    // shared one, and to make it so is not atomic either.
                    if left > 1 {
                        self.state = LookupState::Reading(left - 1);
                        LookupStep::Retry
                    } else {
                        self.state = LookupState::Done;
                        LookupStep::Contention
                    }
                } else {
                    self.state = LookupState::Done;
                    LookupStep::YouRunIt(
                        DatabaseOutput::new(
                            self.dir.clone(),
                            self.test_case.test.config_hash.clone(),
                        ),
                    )
                }
            },
            LookupState::Done => vstd::pervasive::unreached(),
        }
    }
}

/// Existing entry in the database.
#[derive(Debug, PartialEq, Eq)]
pub struct DatabaseEntry {
    base_path: String,
    result: TestResultEntry,
}

impl Clone for DatabaseEntry {
    fn clone(&self) -> (r: Self)
        ensures
            r == *self,
    {
        DatabaseEntry { base_path: self.base_path.clone(), result: self.result.clone() }
    }
}

impl DatabaseEntry {
    /// What is stored.
    pub closed spec fn entry(&self) -> TestResultEntry {
        self.result
    }

    /// The directory of the entry.
    pub closed spec fn base(&self) -> Seq<char> {
        self.base_path@
    }

    /// What is stored.
    pub fn stored(&self) -> (r: &TestResultEntry)
        ensures
            *r == self.entry(),
    {
        &self.result
    }

    /// The result of the test.
    pub fn result(&self) -> (r: &TestResult)
        ensures
            *r == self.entry().result,
    {
        &self.result.result
    }

    /// The code with which the test exited.
    pub fn exit_code(&self) -> (r: i32)
        ensures
            r == self.entry().result.exit_code,
    {
        self.result.result.exit_code
    }

    pub fn stdout_path(&self) -> (r: String)
        ensures
            r@ == strings::path_joined(self.base(), "stdout.txt"@),
    {
        strings::join_path(self.base_path.as_str(), "stdout.txt")
    }

    pub fn stderr_path(&self) -> (r: String)
        ensures
            r@ == strings::path_joined(self.base(), "stderr.txt"@),
    {
        strings::join_path(self.base_path.as_str(), "stderr.txt")
    }

    pub fn artifacts_dir(&self) -> (r: String)
        ensures
            r@ == strings::path_joined(self.base(), "artifacts"@),
    {
        strings::join_path(self.base_path.as_str(), "artifacts")
    }
}

/// Where the output of a command goes.
#[derive(Debug, PartialEq, Eq)]
pub enum OutputStream {
    /// To the file with this path.
    File(String),
    /// Where the output of this program goes.
    Inherited,
}

impl OutputStream {
    /// The file that the output goes to, if any.
    pub open spec fn file(&self) -> Option<Seq<char>> {
        match self {
            OutputStream::File(path) => Some(path@),
            OutputStream::Inherited => None,
        }
    }
}

/// Where an output belongs.
pub struct Target {
    /// The directory.
    pub dir: Seq<char>,
    /// The hash of the configuration that the result is stored with.
    pub config_hash: Seq<char>,
    /// Whether anything is stored.
    pub kept: bool,
}

/// A file below a directory, if anything is stored there.
pub open spec fn kept_file(target: Target, name: Seq<char>) -> Option<Seq<char>> {
    if target.kept {
        Some(strings::path_joined(target.dir, name))
    } else {
        None
    }
}

/// What is written to the database for a result: the file, and what goes into
/// it.
pub struct ResultWrite {
    pub file: Seq<char>,
    pub entry: EntryView,
}

/// What is written to the database when a test ends with a result: one file, or
/// nothing where the output is not stored.
pub open spec fn written(target: Target, result: TestResult) -> Option<ResultWrite> {
    match kept_file(target, "result.json"@) {
        Some(file) => Some(
            ResultWrite { file, entry: EntryView { config_hash: target.config_hash, result } },
        ),
        None => None,
    }
}

/// What is written when the given entry goes to the given file, if any.
pub open spec fn entry_write(entry: DatabaseEntry, file: Option<String>) -> Option<ResultWrite> {
    match file {
        Some(file) => Some(ResultWrite { file: file@, entry: entry.entry()@ }),
        None => None,
    }
}

/// Output for an individual test job, stored into the database unless the job
/// is a one-shot run.
#[derive(Debug)]
pub struct DatabaseOutput {
    base_dir: String,
    artifacts_dir: String,
    stdout_opened: bool,
    stderr_opened: bool,
    config_hash: String,
    ephemeral: bool,
}

impl DatabaseOutput {
    /// Where the output belongs.
    pub closed spec fn target(&self) -> Target {
        Target {
            dir: self.base_dir@,
            config_hash: self.config_hash@,
            kept: !self.ephemeral,
        }
    }

    /// The directory of the entry.
    pub open spec fn base(&self) -> Seq<char> {
        self.target().dir
    }

    /// The hash of the configuration that the result will be stored with.
    pub open spec fn config_hash(&self) -> Seq<char> {
        self.target().config_hash
    }

    /// Whether the place for the standard output was handed out.
    pub closed spec fn has_stdout(&self) -> bool {
        self.stdout_opened
    }

    /// Whether the place for the error output was handed out.
    pub closed spec fn has_stderr(&self) -> bool {
        self.stderr_opened
    }

    /// The directory for artifacts is the one that readers of the entry use.
    pub closed spec fn wf(&self) -> bool {
        self.artifacts_dir@ == strings::path_joined(self.base_dir@, "artifacts"@)
    }

    /// Nothing was handed out yet.
    pub open spec fn fresh(&self) -> bool {
        self.wf() && !self.has_stdout() && !self.has_stderr()
    }

    /// Output below the given directory, which must exist.
    pub fn new(base_dir: String, config_hash: String) -> (r: Self)
        ensures
            r.fresh(),
            r.target() == (Target { dir: base_dir@, config_hash: config_hash@, kept: true }),
    {
        DatabaseOutput {
            artifacts_dir: strings::join_path(base_dir.as_str(), "artifacts"),
            base_dir,
            stdout_opened: false,
            stderr_opened: false,
            config_hash,
            ephemeral: false,
        }
    }

    /// Output of which nothing is stored but the artifacts, which go below the
    /// given directory.
    pub fn ephemeral(base_dir: String, config_hash: String) -> (r: Self)
        ensures
            r.fresh(),
            r.target() == (Target { dir: base_dir@, config_hash: config_hash@, kept: false }),
    {
        DatabaseOutput {
            artifacts_dir: strings::join_path(base_dir.as_str(), "artifacts"),
            base_dir,
            stdout_opened: false,
            stderr_opened: false,
            config_hash,
            ephemeral: true,
        }
    }

    /// A file in the directory, for output that is stored.
    fn stream(&self, name: &str) -> (r: OutputStream)
        ensures
            r.file() == kept_file(self.target(), name@),
    {
        if self.ephemeral {
            OutputStream::Inherited
        } else {
            OutputStream::File(strings::join_path(self.base_dir.as_str(), name))
        }
    }

    /// Where to write the standard output. To be asked for once.
    pub fn stdout(&mut self) -> (r: OutputStream)
        requires
            !old(self).has_stdout(),
        ensures
            r.file() == kept_file(old(self).target(), "stdout.txt"@),
            final(self).has_stdout(),
            final(self).has_stderr() == old(self).has_stderr(),
            final(self).target() == old(self).target(),
            final(self).wf() == old(self).wf(),
    {
        self.stdout_opened = true;
        self.stream("stdout.txt")
    }

    /// Where to write the error output. To be asked for once.
    pub fn stderr(&mut self) -> (r: OutputStream)
        requires
            !old(self).has_stderr(),
        ensures
            r.file() == kept_file(old(self).target(), "stderr.txt"@),
            final(self).has_stderr(),
            final(self).has_stdout() == old(self).has_stdout(),
            final(self).target() == old(self).target(),
            final(self).wf() == old(self).wf(),
    {
        self.stderr_opened = true;
        self.stream("stderr.txt")
    }

    /// Where the test may leave artifacts.
    pub fn artifacts_dir(&self) -> (r: &str)
        requires
            self.wf(),
        ensures
            r@ == strings::path_joined(self.base(), "artifacts"@),
    {
        self.artifacts_dir.as_str()
    }

    /// The entry with the result of the test, and the file that it is to be
    /// written to, unless nothing is stored.
    pub fn set_result(self, result: &TestResult) -> (r: (DatabaseEntry, Option<String>))
        ensures
            r.0.base() == self.base(),
            r.0.entry().config_hash@ == self.config_hash(),
            r.0.entry().result == *result,
            r.1 is Some <==> self.target().kept,
            entry_write(r.0, r.1) == written(self.target(), *result),
    {
        let file = if self.ephemeral {
            None
        } else {
            Some(strings::join_path(self.base_dir.as_str(), "result.json"))
        };
        let entry = DatabaseEntry {
            base_path: self.base_dir,
            result: TestResultEntry { config_hash: self.config_hash, result: result.clone() },
        };
        (entry, file)
    }
}

/// What is known about an entry on disk.
#[derive(Debug, Clone, Copy, PartialEq, Eq)]
pub struct EntryUsage {
    /// The storage that it uses.
    pub size: ByteSize,
    /// When it was last written, in seconds from some time on.
    pub modified: u64,
}

/// The storage that the entries use that are not to be deleted.
pub open spec fn usage(entries: Seq<EntryUsage>, deleted: Seq<usize>) -> int
    decreases entries.len(),
{
    if entries.len() == 0 {
        0
    } else {
        let last = entries.len() - 1;
        usage(entries.drop_last(), deleted) + if deleted.contains(last as usize) {
            0
        } else {
            entries.last().size.bytes() as int
        }
    }
}

/// Every entry that is to be deleted is there and is named once, and none of
/// them is newer than one that is kept.
pub open spec fn oldest_entries(entries: Seq<EntryUsage>, deleted: Seq<usize>) -> bool {
    &&& deleted.no_duplicates()
    &&& forall|k: int| 0 <= k < deleted.len() ==> (#[trigger] deleted[k]) < entries.len()
    &&& forall|k: int, j: usize|
        0 <= k < deleted.len() && j < entries.len() && !deleted.contains(j)
            ==> entries[(#[trigger] deleted[k]) as int].modified <= (
        #[trigger] entries[j as int]).modified
}

/// Deleting these entries, one after the other, makes the database use less than
/// the given amount of storage: old ones first, and no more than that takes.
pub open spec fn frees(entries: Seq<EntryUsage>, size: ByteSize, deleted: Seq<usize>) -> bool {
    &&& oldest_entries(entries, deleted)
    &&& usage(entries, deleted) < size.bytes() || forall|j: usize|
        j < entries.len() ==> #[trigger] deleted.contains(j)
    &&& deleted.len() > 0 ==> usage(entries, deleted.drop_last()) >= size.bytes()
}

/// Deleting one more entry frees what it uses.
proof fn lemma_usage_push(entries: Seq<EntryUsage>, deleted: Seq<usize>, at: usize)
    requires
        !deleted.contains(at),
        entries.len() <= usize::MAX,
    ensures
        usage(entries, deleted.push(at)) == usage(entries, deleted) - if at < entries.len() {
            entries[at as int].size.bytes() as int
        } else {
            0
        },
    decreases entries.len(),
{
    if entries.len() > 0 {
        let last = (entries.len() - 1) as usize;
        let more = deleted.push(at);
        lemma_usage_push(entries.drop_last(), deleted, at);
        assert(more.contains(last) <==> deleted.contains(last) || last == at) by {
            if deleted.contains(last) {
                assert(more[deleted.index_of(last)] == last);
            }
            if last == at {
                assert(more[deleted.len() as int] == last);
            }
        }
    }
}

/// How much entries use at most.
proof fn lemma_usage_bound(entries: Seq<EntryUsage>, deleted: Seq<usize>)
    ensures
        0 <= usage(entries, deleted) <= entries.len() * 0xffff_ffff_ffff_ffff,
    decreases entries.len(),
{
    if entries.len() > 0 {
        lemma_usage_bound(entries.drop_last(), deleted);
    }
}

/// Where the oldest entry stands of those that are not to be deleted yet.
fn oldest(entries: &Vec<EntryUsage>, gone: &Vec<bool>, Ghost(deleted): Ghost<Seq<usize>>) -> (r:
    Option<usize>)
    requires
        gone@.len() == entries@.len(),
        forall|i: int| 0 <= i < gone@.len() ==> (#[trigger] gone@[i] <==> deleted.contains(i as usize)),
    ensures
        match r {
            Some(at) => {
                &&& at < entries@.len()
                &&& !deleted.contains(at)
                &&& forall|j: usize|
                    j < entries@.len() && !deleted.contains(j) ==> entries@[at as int].modified
                        <= (#[trigger] entries@[j as int]).modified
            },
            None => forall|j: usize| j < entries@.len() ==> #[trigger] deleted.contains(j),
        },
{
    let mut found: Option<usize> = None;
    let mut i: usize = 0;
    while i < entries.len()
        invariant
            i <= entries@.len(),
            gone@.len() == entries@.len(),
            forall|k: int|
                0 <= k < gone@.len() ==> (#[trigger] gone@[k] <==> deleted.contains(k as usize)),
            match found {
                Some(at) => {
                    &&& at < i
                    &&& !deleted.contains(at)
                    &&& forall|j: usize|
                        j < i && !deleted.contains(j) ==> entries@[at as int].modified <= (
                        #[trigger] entries@[j as int]).modified
                },
                None => forall|j: usize| j < i ==> #[trigger] deleted.contains(j),
            },
        decreases entries@.len() - i,
    {
        assert(gone@[i as int] <==> deleted.contains(i));
        if !gone[i] {
            match found {
                Some(at) => {
                    if entries[i].modified < entries[at].modified {
                        found = Some(i);
                    }
                },
                None => {
                    found = Some(i);
                },
            }
        }
        i += 1;
    }
    found
}

/// Which entries to delete, given all that there are, so that the database uses
/// less than the given amount of storage: old ones first, and no more than that
/// takes.
pub fn gc(entries: &Vec<EntryUsage>, size: ByteSize) -> (r: Vec<usize>)
    ensures
        frees(entries@, size, r@),
{
    let target: u128 = size.to_bytes() as u128;
    let mut used: u128 = 0;
    let mut gone: Vec<bool> = Vec::new();
    let mut i: usize = 0;
    let ghost none = Seq::<usize>::empty();
    while i < entries.len()
        invariant
            i <= entries@.len(),
            none.len() == 0,
            gone@.len() == i,
            forall|k: int| 0 <= k < i ==> !(#[trigger] gone@[k]),
            used == usage(entries@.take(i as int), none),
        decreases entries@.len() - i,
    {
        proof {
            lemma_usage_bound(entries@.take(i as int), none);
            assert(entries@.take(i + 1).drop_last() =~= entries@.take(i as int));
            assert(i * 0xffff_ffff_ffff_ffff <= 0xffff_ffff_ffff_ffff * 0xffff_ffff_ffff_ffff)
                by (nonlinear_arith)
                requires
                    i <= 0xffff_ffff_ffff_ffff,
            ;
        }
        used = used + entries[i].size.to_bytes() as u128;
        gone.push(false);
        i += 1;
    }
    assert(entries@.take(i as int) =~= entries@);
    let mut deleted: Vec<usize> = Vec::new();
    assert(deleted@ =~= none);
    assert(entries@.len() == i);
    while used >= target
        invariant
            entries@.len() <= usize::MAX,
            target == size.bytes(),
            gone@.len() == entries@.len(),
            used == usage(entries@, deleted@),
            forall|k: int|
                0 <= k < gone@.len() ==> (#[trigger] gone@[k] <==> deleted@.contains(k as usize)),
            oldest_entries(entries@, deleted@),
            deleted@.len() > 0 ==> usage(entries@, deleted@.drop_last()) >= size.bytes(),
        ensures
            oldest_entries(entries@, deleted@),
            deleted@.len() > 0 ==> usage(entries@, deleted@.drop_last()) >= size.bytes(),
            usage(entries@, deleted@) < size.bytes() || forall|j: usize|
                j < entries@.len() ==> #[trigger] deleted@.contains(j),
        decreases entries@.len() - deleted@.len(),
    {
        let at: usize = match oldest(entries, &gone, Ghost(deleted@)) {
            Some(at) => at,
            None => {
                break;
            },
        };
        let ghost before = deleted@;
        proof {
            lemma_usage_push(entries@, before, at);
            lemma_usage_bound(entries@, before.push(at));
            lemma_room(entries@.len(), before, at);
        }
        deleted.push(at);
        gone.set(at, true);
        used = used - entries[at].size.to_bytes() as u128;
        proof {
            let after = deleted@;
            assert(after.drop_last() =~= before);
            assert forall|j: usize| #[trigger] after.contains(j) <==> before.contains(j) || j == at by {
                if before.contains(j) {
                    assert(after[before.index_of(j)] == j);
                }
                if j == at {
                    assert(after[before.len() as int] == j);
                }
            }
            assert forall|k: int| 0 <= k < gone@.len() implies (#[trigger] gone@[k]
                <==> after.contains(k as usize)) by {}
            assert forall|k: int, j: usize|
                0 <= k < after.len() && j < entries@.len() && !after.contains(j) implies entries@[(
            #[trigger] after[k]) as int].modified <= (#[trigger] entries@[j as int]).modified by {
                assert(!before.contains(j));
                if k < before.len() {
                    assert(after[k] == before[k]);
                }
            }
        }
    }
    deleted
}

/// There is room for one more of the entries.
proof fn lemma_room(n: nat, deleted: Seq<usize>, at: usize)
    requires
        deleted.no_duplicates(),
        !deleted.contains(at),
        at < n,
        forall|k: int| 0 <= k < deleted.len() ==> (#[trigger] deleted[k]) < n,
    ensures
        deleted.len() < n,
{
    let more = deleted.push(at);
    assert(more.no_duplicates()) by {
        assert forall|i: int, j: int|
            0 <= i < more.len() && 0 <= j < more.len() && i != j implies more[i] != more[j] by {
            if i < deleted.len() {
                assert(deleted.contains(deleted[i]));
            }
            if j < deleted.len() {
                assert(deleted.contains(deleted[j]));
            }
        }
    }
    crate::dag::lemma_distinct_bound(more, n);
}

/// A result is used only if it is one, was made with the same configuration, and
/// the test accepts cached results; and it is used as it is.
pub proof fn lemma_when_usable(entry: TestResultEntry, test_case: TestCase)
    ensures
        entry.config_hash@ != test_case.test.config_hash@ ==> usable(
            Content::Entry(entry),
            test_case,
        ) is None,
        test_case.cache_hash is None ==> usable(Content::Entry(entry), test_case) is None,
        entry.config_hash@ == test_case.test.config_hash@ && test_case.cache_hash is Some
            ==> usable(Content::Entry(entry), test_case) == Some(entry),
{
}

/// What is no result is not used.
pub proof fn lemma_only_results_are_usable(content: Content, test_case: TestCase)
    requires
        usable(content, test_case) is Some,
    ensures
        content == Content::Entry(usable(content, test_case)->0),
{
}

/// A result that is there at the first read ends a lookup. One that is not there
/// at two reads in a row has to be made. One that comes in between is read again
/// in the next attempt, as long as there is one.
pub proof fn lemma_lookup_steps(left: u32)
    requires
        left > 0,
    ensures
        state_after(LookupState::Reading(left), seq![true]) is Done,
        state_after(LookupState::Reading(left), seq![false]) is Upgrading,
        state_after(LookupState::Reading(left), seq![false, false]) is Done,
        left > 1 ==> state_after(LookupState::Reading(left), seq![false, true])
            == LookupState::Reading((left - 1) as u32),
        left == 1 ==> state_after(LookupState::Reading(left), seq![false, true]) is Done,
{
    reveal_with_fuel(state_after, 3);
    assert(seq![true].drop_last() =~= Seq::empty());
    assert(seq![false].drop_last() =~= Seq::empty());
    assert(seq![false, false].drop_last() =~= seq![false]);
    assert(seq![false, true].drop_last() =~= seq![false]);
}

/// What is written for a result is that result, with the hash of the
/// configuration of its test, in the file where a lookup for the case reads; in
/// a run whose output is not kept nothing is written.
pub proof fn lemma_result_is_written(base_dir: Seq<char>, test_case: TestCase, result: TestResult)
    ensures
        ({
            let write = written(case_target(base_dir, test_case), result);
            &&& write is Some
            &&& write->0.file == strings::path_joined(
                strings::path_joined(
                    strings::path_joined(base_dir, test_case.storage()),
                    test_case.test.name@,
                ),
                "result.json"@,
            )
            &&& write->0.file == result_file(base_dir, test_case)
            &&& write->0.entry.result == result
            &&& write->0.entry.config_hash == test_case.test.config_hash@
        }),
        forall|target: Target| !target.kept ==> (#[trigger] written(target, result)) is None,
{
}

/// The files of an output stand in its directory, under their own names, if they
/// are kept.
pub proof fn lemma_kept_file(target: Target, name: Seq<char>)
    requires
        target.dir.len() > 0,
        target.dir.last() != '/',
        name.len() > 0,
        name.first() != '/',
    ensures
        target.kept ==> kept_file(target, name) == Some(target.dir + "/"@ + name),
        !target.kept ==> kept_file(target, name) is None,
{
    strings::lemma_path_joined(target.dir, name);
}

/// An entry stands below the directory of the database, under the hash that it
/// is kept under and the name of its test.
pub proof fn lemma_entry_place(base_dir: Seq<char>, test_case: TestCase)
    requires
        base_dir.len() > 0,
        base_dir.last() != '/',
        test_case.storage().len() > 0,
        test_case.storage().first() != '/',
        test_case.storage().last() != '/',
        test_case.test.name@.len() > 0,
        test_case.test.name@.first() != '/',
        test_case.test.name@.last() != '/',
    ensures
        relpath(test_case) == test_case.storage() + "/"@ + test_case.test.name@,
        entry_dir(base_dir, test_case) == base_dir + "/"@ + relpath(test_case),
        result_file(base_dir, test_case) == entry_dir(base_dir, test_case) + "/"@ + "result.json"@,
        crate::test::hash_view(test_case.cache_hash) matches Some(hash) ==> test_case.storage()
            == hash,
        test_case.cache_hash is None ==> test_case.storage() == test_case.commit_hash@,
{
    let hash = test_case.storage();
    let name = test_case.test.name@;
    reveal_strlit("/");
    reveal_strlit("result.json");
    strings::lemma_path_joined(hash, name);
    strings::lemma_path_joined(base_dir, hash);
    let dir = strings::path_joined(base_dir, hash);
    assert(dir.last() == hash.last());
    strings::lemma_path_joined(dir, name);
    assert(dir + "/"@ + name =~= base_dir + "/"@ + relpath(test_case));
    let entry = entry_dir(base_dir, test_case);
    assert(entry.last() == name.last());
    strings::lemma_path_joined(entry, "result.json"@);
}

/// Of two entries, one that is deleted and one that is kept, the one that is
/// kept is not older.
pub proof fn lemma_old_entries_go_first(
    entries: Seq<EntryUsage>,
    deleted: Seq<usize>,
    gone: usize,
    kept: usize,
)
    requires
        oldest_entries(entries, deleted),
        deleted.contains(gone),
        kept < entries.len(),
        !deleted.contains(kept),
    ensures
        gone < entries.len(),
        entries[gone as int].modified <= entries[kept as int].modified,
{
    let k = deleted.index_of(gone);
    assert(deleted[k] == gone);
    assert(entries[deleted[k] as int].modified <= entries[kept as int].modified);
}

/// What is used is the sum of the sizes of the entries that are not deleted:
/// with all of them there it is the sum of all sizes, and each one that is
/// deleted takes its own size away.
pub proof fn lemma_usage(entries: Seq<EntryUsage>, deleted: Seq<usize>, at: usize)
    requires
        entries.len() <= usize::MAX,
        at < entries.len(),
        !deleted.contains(at),
    ensures
        usage(entries, Seq::empty()) == crate::util::total(
            Seq::new(entries.len(), |i: int| entries[i].size),
        ),
        usage(entries, deleted.push(at)) == usage(entries, deleted)
            - entries[at as int].size.bytes(),
{
    lemma_usage_of_all(entries);
    lemma_usage_push(entries, deleted, at);
}

/// What all entries use.
#[verifier::spinoff_prover]
proof fn lemma_usage_of_all(entries: Seq<EntryUsage>)
    ensures
        usage(entries, Seq::empty()) == crate::util::total(
            Seq::new(entries.len(), |i: int| entries[i].size),
        ),
    decreases entries.len(),
{
    let sizes = Seq::new(entries.len(), |i: int| entries[i].size);
    if entries.len() > 0 {
        let rest = entries.drop_last();
        lemma_usage_of_all(rest);
        assert(sizes.drop_last() =~= Seq::new(rest.len(), |i: int| rest[i].size));
    }
}

/// A lookup hands out what it has read, if that may be used; it says that the
/// test has to be run only if there was nothing to use, and then it hands out
/// the place where a lookup for the case will look.
pub proof fn lemma_step_of_lookup(
    base_dir: Seq<char>,
    test_case: TestCase,
    state: LookupState,
    content: Content,
    r: LookupStep,
)
    requires
        is_step(
            state,
            usable(content, test_case),
            entry_dir(base_dir, test_case),
            test_case.test.config_hash@,
            r,
        ),
    ensures
        r matches LookupStep::FoundResult(found) ==> {
            &&& content == Content::Entry(found.entry())
            &&& found.base() == entry_dir(base_dir, test_case)
            &&& found.entry().config_hash@ == test_case.test.config_hash@
            &&& test_case.cache_hash is Some
            &&& state is Reading
        },
        r matches LookupStep::YouRunIt(output) ==> {
            &&& usable(content, test_case) is None
            &&& output.target() == case_target(base_dir, test_case)
            &&& state is Upgrading
        },
        state is Reading ==> (r is FoundResult <==> usable(content, test_case) is Some),
        state is Upgrading ==> (r is YouRunIt <==> usable(content, test_case) is None),
        (r is FoundResult || r is YouRunIt || r is Contention) <==> next_state(
            state,
            usable(content, test_case) is Some,
        ) is Done,
{
}

/// Nothing is deleted from a database that uses less than the given amount. From
/// one that uses more, entries are deleted until it uses less or is empty, and
/// the last of them had to be deleted.
pub proof fn lemma_frees_enough(entries: Seq<EntryUsage>, size: ByteSize, deleted: Seq<usize>)
    requires
        frees(entries, size, deleted),
        entries.len() <= usize::MAX,
    ensures
        usage(entries, Seq::empty()) < size.bytes() ==> deleted.len() == 0,
        usage(entries, Seq::empty()) >= size.bytes() && entries.len() > 0 ==> deleted.len() > 0,
        usage(entries, deleted) >= size.bytes() ==> deleted.len() == entries.len(),
        deleted.len() > 0 ==> usage(entries, deleted.drop_last()) >= size.bytes(),
{
    let none = Seq::<usize>::empty();
    if deleted.len() > 0 {
        lemma_usage_falls(entries, deleted.drop_last());
    } else {
        assert(deleted =~= none);
        if entries.len() > 0 && usage(entries, none) >= size.bytes() {
            assert(deleted.contains(0usize));
        }
    }
    if usage(entries, deleted) >= size.bytes() {
        crate::dag::lemma_distinct_bound(deleted, entries.len());
        let all = crate::dag::all_nodes(entries.len());
        assert(all.no_duplicates());
        all.unique_seq_to_set();
        deleted.unique_seq_to_set();
        assert forall|v: usize| #[trigger] all.to_set().contains(v) implies deleted.to_set().contains(
            v,
        ) by {
            assert(v < entries.len());
            assert(deleted.contains(v));
        }
        vstd::set_lib::lemma_len_subset(all.to_set(), deleted.to_set());
    }
}

/// With more entries deleted no more storage is used.
proof fn lemma_usage_falls(entries: Seq<EntryUsage>, deleted: Seq<usize>)
    ensures
        usage(entries, deleted) <= usage(entries, Seq::empty()),
    decreases entries.len(),
{
    if entries.len() > 0 {
        lemma_usage_falls(entries.drop_last(), deleted);
    }
}

} // verus!

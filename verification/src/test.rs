//! Tests, the cases that arise when they are applied to commits, and the jobs
//! that run them.
use std::sync::Arc;

use crate::assoc;
use crate::assoc::Assoc;
use crate::dag::{Dag, GraphNode};
use crate::database::DatabaseEntry;
use crate::git::{Commit, CommitHash, ObjectHash};
use crate::ident;
use crate::ident::Ident;
use crate::resource::{KeyView, ResourceKey};
use crate::strings;
use vstd::prelude::*;

verus! {

/// What a cached result is filed under.
#[derive(Debug, Clone, Copy, Hash, PartialEq, Eq, Structural)]
pub enum CachePolicy {
    NoCaching,
    ByCommit,
    ByTree,
}

impl CachePolicy {
    /// The hash that a result is filed under, if it is cached.
    pub open spec fn filed_under(self, commit: Commit) -> Option<Seq<char>> {
        match self {
            CachePolicy::NoCaching => None,
            CachePolicy::ByCommit => Some(commit.hash@),
            CachePolicy::ByTree => Some(commit.tree@),
        }
    }

    /// Figure out the hash that should be used to store a result in the
    /// database, if it should be stored at all.
    pub fn cache_hash(&self, commit: &Commit) -> (r: Option<ObjectHash>)
        ensures
            hash_view(r) == self.filed_under(*commit),
    {
        match self {
            CachePolicy::NoCaching => None,
            CachePolicy::ByCommit => Some(commit.hash.to_hash()),
            CachePolicy::ByTree => Some(commit.tree.to_hash()),
        }
    }
}

/// The text of a hash, if there is one.
pub open spec fn hash_view(hash: Option<ObjectHash>) -> Option<Seq<char>> {
    match hash {
        Some(hash) => Some(hash@),
        None => None,
    }
}

/// Some unspecified hash, don't care too much about stability across builds.
pub type ConfigHash = String;

/// The name of a test.
#[derive(Debug, PartialEq, Eq, PartialOrd, Ord, Hash)]
pub struct TestName(String);

impl View for TestName {
    type V = Seq<char>;

    closed spec fn view(&self) -> Seq<char> {
        self.0@
    }
}

impl Clone for TestName {
    fn clone(&self) -> (r: Self)
        ensures
            r == *self,
    {
        TestName(self.0.clone())
    }
}

impl TestName {
    pub fn new(s: String) -> (r: Self)
        ensures
            r@ == s@,
    {
        TestName(s)
    }

    /// The name as text.
    pub fn as_str(&self) -> (r: &str)
        ensures
            r@ == self@,
    {
        self.0.as_str()
    }
}

impl Ident for TestName {
    open spec fn debug_form(id: Seq<char>) -> Seq<char> {
        strings::debug_text(id)
    }

    fn same(&self, other: &Self) -> (r: bool) {
        self.0 == other.0
    }

    fn duplicate(&self) -> (r: Self) {
        self.clone()
    }

    fn debug(&self) -> (r: String) {
        strings::debug_string(self.as_str())
    }
}

/// A vector of the same names.
pub fn copy_names(names: &Vec<TestName>) -> (r: Vec<TestName>)
    ensures
        r@ == names@,
{
    let mut out: Vec<TestName> = Vec::new();
    let mut i: usize = 0;
    while i < names.len()
        invariant
            i <= names@.len(),
            out@ =~= names@.take(i as int),
        decreases names@.len() - i,
    {
        out.push(names[i].clone());
        i += 1;
    }
    assert(names@.take(i as int) =~= names@);
    out
}

/// A test task that will need to be repeated for each commit.
#[derive(Debug)]
pub struct Test {
    pub name: TestName,
    /// Hash of the configuration that created this Test.
    pub config_hash: ConfigHash,
    pub program: String,
    pub args: Vec<String>,
    /// Counts of the resource tokens this test needs before it can begin.
    pub needs_resources: Assoc<ResourceKey, usize>,
    /// Seconds that the test gets to shut down.
    pub shutdown_grace_period: u64,
    pub cache_policy: CachePolicy,
    /// This test shouldn't start until these other tests have finished.
    pub depends_on: Vec<TestName>,
    /// Exit codes that mean that the test could not be done.
    pub error_exit_codes: Vec<i32>,
}

impl Test {
    /// No resource is counted twice.
    pub open spec fn wf(&self) -> bool {
        self.needs_resources.wf()
    }

    /// Whether the test needs a worktree.
    pub open spec fn worktree_needed(&self) -> bool {
        self.needs_resources@.dom().contains(KeyView::Worktree)
            && self.needs_resources@[KeyView::Worktree] != 0
    }

    pub fn needs_worktree(&self) -> (r: bool)
        requires
            self.wf(),
        ensures
            r == self.worktree_needed(),
    {
        match self.needs_resources.get(&ResourceKey::Worktree) {
            Some(count) => *count != 0,
            None => false,
        }
    }

    /// How much of each resource a run of the test takes. A run in a tree that
    /// is there anyway takes no worktree.
    pub open spec fn takes(&self, in_place: bool) -> Map<KeyView, usize> {
        if in_place {
            self.needs_resources@.remove(KeyView::Worktree)
        } else {
            self.needs_resources@
        }
    }

    /// What to get from the pools for a run of the test.
    pub fn wants(&self, in_place: bool) -> (r: Vec<(ResourceKey, usize)>)
        requires
            self.wf(),
        ensures
            assoc::entry_keys(r@).no_duplicates(),
            assoc::map_of(r@) == self.takes(in_place),
    {
        let ghost list = self.needs_resources.list();
        let mut wants: Vec<(ResourceKey, usize)> = Vec::new();
        let mut i: usize = 0;
        assert(list.take(0) =~= Seq::empty());
        while i < self.needs_resources.len()
            invariant
                i <= list.len(),
                list == self.needs_resources.list(),
                assoc::entry_keys(list).no_duplicates(),
                assoc::entry_keys(wants@).no_duplicates(),
                assoc::map_of(wants@) =~= if in_place {
                    assoc::map_of(list.take(i as int)).remove(KeyView::Worktree)
                } else {
                    assoc::map_of(list.take(i as int))
                },
            decreases list.len() - i,
        {
            let key = self.needs_resources.key_at(i);
            let count: usize = *self.needs_resources.value_at(i);
            assert(list.take(i + 1).drop_last() =~= list.take(i as int));
            assert(list.take(i + 1).last() == list[i as int]);
            // Doesn't need a worktree, it's gonna do it live and direct in the
            // main tree.
            if !in_place || !key.same(&ResourceKey::Worktree) {
                let ghost before = wants@;
                wants.push((key.clone(), count));
                assert(wants@.drop_last() =~= before);
                assert(assoc::entry_keys(wants@) =~= assoc::entry_keys(before).push(key@));
                assert(!assoc::entry_keys(before).contains(key@)) by {
                    assoc::lemma_map_of(before, key@);
                    assoc::lemma_map_of(list.take(i as int), key@);
                    let keys = assoc::entry_keys(list.take(i as int));
                    if keys.contains(key@) {
                        let k = keys.index_of(key@);
                        assert(assoc::entry_keys(list)[k] == assoc::entry_keys(list)[i as int]);
                    }
                }
            }
            i += 1;
        }
        assert(list.take(i as int) =~= list);
        wants
    }

    /// The test, as it is shown.
    pub fn to_string(&self) -> (r: String)
        ensures
            r@ == "<test: "@ + strings::debug_text(self.name@) + ">"@,
    {
        let mut out: String = String::from_str("<test: ");
        out.append(self.name.debug().as_str());
        out.append(">");
        out
    }
}

/// `Arc::clone`: another pointer to the same value.
#[verifier::external_body]
pub(crate) fn share<T>(shared: &Arc<T>) -> (r: Arc<T>)
    ensures
        r == *shared,
{
    shared.clone()
}

// This implementation is only valid for tests among those registered for a single Manager.
impl GraphNode for Arc<Test> {
    type NodeId = TestName;

    open spec fn node_id(&self) -> Seq<char> {
        self.name@
    }

    open spec fn node_children(&self) -> Seq<Seq<char>> {
        ident::views(self.depends_on@)
    }

    fn id(&self) -> (r: TestName) {
        self.name.clone()
    }

    fn child_ids(&self) -> (r: Vec<TestName>) {
        copy_names(&self.depends_on)
    }
}

pub type TestDag = Dag<Arc<Test>>;

/// Environment variables, with their values.
pub type JobEnv = Vec<(String, String)>;

/// Environment variables, as texts.
pub open spec fn env_texts(env: Seq<(String, String)>) -> Seq<(Seq<char>, Seq<char>)> {
    Seq::new(env.len(), |i: int| (env[i].0@, env[i].1@))
}

/// Common elements that should be in a job environment with the given conditions.
pub fn base_job_env(repo_origin: &str) -> (r: JobEnv)
    ensures
        env_texts(r@) == seq![("LIMMAT_ORIGIN"@, repo_origin@)],
{
    let mut env: JobEnv = Vec::new();
    env.push((String::from_str("LIMMAT_ORIGIN"), String::from_str(repo_origin)));
    assert(env_texts(env@) =~= seq![("LIMMAT_ORIGIN"@, repo_origin@)]);
    env
}

/// An identifier that uniquely identifies a TestCase among all that can exist for a given Manager.
#[derive(Debug, PartialEq, Eq, Hash)]
pub struct TestCaseId(String);

impl View for TestCaseId {
    type V = Seq<char>;

    closed spec fn view(&self) -> Seq<char> {
        self.0@
    }
}

impl Clone for TestCaseId {
    fn clone(&self) -> (r: Self)
        ensures
            r == *self,
    {
        TestCaseId(self.0.clone())
    }
}

/// The identifier of the case of a test at a commit.
pub open spec fn case_id(commit: Seq<char>, test: Seq<char>) -> Seq<char> {
    commit + seq![':'] + test
}

/// A commit hash is usable in identifiers: it has no colon in it. (The hashes
/// that git writes consist of hexadecimal digits.)
pub open spec fn plain_hash(commit: Seq<char>) -> bool {
    !commit.contains(':')
}

/// Cases of different commits or different tests have different identifiers.
pub proof fn lemma_case_id_injective(
    commit1: Seq<char>,
    test1: Seq<char>,
    commit2: Seq<char>,
    test2: Seq<char>,
)
    requires
        plain_hash(commit1),
        plain_hash(commit2),
        case_id(commit1, test1) == case_id(commit2, test2),
    ensures
        commit1 == commit2,
        test1 == test2,
{
    let a = case_id(commit1, test1);
    let b = case_id(commit2, test2);
    assert(a[commit1.len() as int] == ':');
    assert(b[commit2.len() as int] == ':');
    if commit1.len() < commit2.len() {
        assert(b[commit1.len() as int] == commit2[commit1.len() as int]);
    } else if commit2.len() < commit1.len() {
        assert(a[commit2.len() as int] == commit1[commit2.len() as int]);
    }
    assert(commit1 =~= a.take(commit1.len() as int));
    assert(commit2 =~= b.take(commit2.len() as int));
    assert(test1 =~= a.skip(commit1.len() as int + 1));
    assert(test2 =~= b.skip(commit2.len() as int + 1));
}

impl TestCaseId {
    pub fn new(commit_hash: &CommitHash, test_name: &TestName) -> (r: Self)
        ensures
            r@ == case_id(commit_hash@, test_name@),
    {
        let mut out: String = String::from_str(commit_hash.as_str());
        out.push(':');
        out.append(test_name.as_str());
        assert(out@ =~= case_id(commit_hash@, test_name@));
        TestCaseId(out)
    }

    /// The identifier as text.
    pub fn as_str(&self) -> (r: &str)
        ensures
            r@ == self@,
    {
        self.0.as_str()
    }
}

impl Ident for TestCaseId {
    open spec fn debug_form(id: Seq<char>) -> Seq<char> {
        "TestCaseId("@ + strings::debug_text(id) + ")"@
    }

    fn same(&self, other: &Self) -> (r: bool) {
        self.0 == other.0
    }

    fn duplicate(&self) -> (r: Self) {
        self.clone()
    }

    fn debug(&self) -> (r: String) {
        let mut out: String = String::from_str("TestCaseId(");
        out.append(strings::debug_string(self.as_str()).as_str());
        out.append(")");
        out
    }
}

/// A test, applied to a commit.
#[derive(Debug)]
pub struct TestCase {
    /// Commit that will be checked out to run the test.
    pub commit_hash: CommitHash,
    /// Hash that will be used to identify the test result. Might be a tree hash,
    /// otherwise it matches the commit hash.
    pub cache_hash: Option<ObjectHash>,
    pub test: Arc<Test>,
}

impl Clone for TestCase {
    fn clone(&self) -> (r: Self)
        ensures
            r == *self,
    {
        let cache_hash = match &self.cache_hash {
            Some(hash) => Some(hash.clone()),
            None => None,
        };
        TestCase { commit_hash: self.commit_hash.clone(), cache_hash, test: share(&self.test) }
    }
}

impl TestCase {
    /// The hash that the result is stored under.
    pub open spec fn storage(&self) -> Seq<char> {
        match self.cache_hash {
            Some(hash) => hash@,
            None => self.commit_hash@,
        }
    }

    pub fn new(commit: Commit, test: Arc<Test>) -> (r: Self)
        ensures
            r.commit_hash == commit.hash,
            r.test == test,
            hash_view(r.cache_hash) == test.cache_policy.filed_under(commit),
    {
        let cache_hash = test.cache_policy.cache_hash(&commit);
        TestCase { commit_hash: commit.hash, cache_hash, test }
    }

    /// Returns the hash that should be used to store the result in the result
    /// database. Note that results get stored in the database even when caching
    /// is disabled, so that the user can see the output.
    pub fn storage_hash(&self) -> (r: ObjectHash)
        ensures
            r@ == self.storage(),
    {
        match &self.cache_hash {
            Some(hash) => hash.clone(),
            None => self.commit_hash.to_hash(),
        }
    }
}

impl GraphNode for TestCase {
    type NodeId = TestCaseId;

    open spec fn node_id(&self) -> Seq<char> {
        case_id(self.commit_hash@, self.test.name@)
    }

    open spec fn node_children(&self) -> Seq<Seq<char>> {
        Seq::new(
            self.test.depends_on@.len(),
            |i: int| case_id(self.commit_hash@, self.test.depends_on@[i]@),
        )
    }

    fn id(&self) -> (r: TestCaseId) {
        TestCaseId::new(&self.commit_hash, &self.test.name)
    }

    fn child_ids(&self) -> (r: Vec<TestCaseId>) {
        let mut out: Vec<TestCaseId> = Vec::new();
        let mut i: usize = 0;
        while i < self.test.depends_on.len()
            invariant
                i <= self.test.depends_on@.len(),
                out@.len() == i,
                forall|k: int|
                    0 <= k < i ==> (#[trigger] out@[k])@ == case_id(
                        self.commit_hash@,
                        self.test.depends_on@[k]@,
                    ),
            decreases self.test.depends_on@.len() - i,
        {
            out.push(TestCaseId::new(&self.commit_hash, &self.test.depends_on[i]));
            i += 1;
        }
        out
    }
}

pub type ExitCode = i32;

/// Result of a test that ran to completion.
#[derive(Debug, Clone, Copy, PartialEq, Eq, Structural)]
pub struct TestResult {
    pub exit_code: ExitCode,
}

impl TestResult {
    /// The result, as it is shown.
    pub open spec fn text(&self) -> Seq<char> {
        "exit code "@ + strings::decimal(self.exit_code as int)
    }

    /// The result, as it is shown.
    pub fn to_string(&self) -> (r: String)
        ensures
            r@ == self.text(),
    {
        let mut out: String = String::from_str("exit code ");
        out.append(strings::signed_decimal_text(self.exit_code).as_str());
        out
    }
}

/// Why a test has no result.
#[derive(Debug, PartialEq, Eq)]
pub enum TestInconclusive {
    Canceled,
    /// This includes the test getting terminated by a signal.
    Error(String),
}

impl Clone for TestInconclusive {
    fn clone(&self) -> (r: Self)
        ensures
            r == *self,
    {
        match self {
            TestInconclusive::Canceled => TestInconclusive::Canceled,
            TestInconclusive::Error(msg) => TestInconclusive::Error(msg.clone()),
        }
    }
}

impl TestInconclusive {
    /// The reason, as it is shown.
    pub open spec fn text(&self) -> Seq<char> {
        match self {
            TestInconclusive::Canceled => "Canceled"@,
            TestInconclusive::Error(msg) => "Error while testing - "@ + strings::debug_text(msg@),
        }
    }

    /// The reason, as it is shown.
    pub fn to_string(&self) -> (r: String)
        ensures
            r@ == self.text(),
    {
        match self {
            TestInconclusive::Canceled => String::from_str("Canceled"),
            TestInconclusive::Error(msg) => {
                let mut out: String = String::from_str("Error while testing - ");
                out.append(strings::debug_string(msg.as_str()).as_str());
                out
            },
        }
    }
}

/// Final result of an attempt to run a test.
pub type TestOutcome = Result<Arc<DatabaseEntry>, TestInconclusive>;

/// How far a test case has come.
#[derive(Debug)]
pub enum TestStatus {
    Enqueued,
    Started,
    Finished(TestOutcome),
}

/// Another copy of an outcome.
pub fn copy_outcome(outcome: &TestOutcome) -> (r: TestOutcome)
    ensures
        r == *outcome,
{
    match outcome {
        Ok(entry) => Ok(share(entry)),
        Err(inconclusive) => Err(inconclusive.clone()),
    }
}

impl Clone for TestStatus {
    fn clone(&self) -> (r: Self)
        ensures
            r == *self,
    {
        match self {
            TestStatus::Enqueued => TestStatus::Enqueued,
            TestStatus::Started => TestStatus::Started,
            TestStatus::Finished(outcome) => TestStatus::Finished(copy_outcome(outcome)),
        }
    }
}

impl TestStatus {
    /// The status, as it is shown.
    pub open spec fn text(&self) -> Seq<char> {
        match self {
            TestStatus::Enqueued => "Enqueued"@,
            TestStatus::Started => "Started"@,
            TestStatus::Finished(Err(inconclusive)) => inconclusive.text(),
            TestStatus::Finished(Ok(entry)) => entry.entry().result.text(),
        }
    }

    /// The status, as it is shown.
    pub fn to_string(&self) -> (r: String)
        ensures
            r@ == self.text(),
    {
        match self {
            TestStatus::Enqueued => String::from_str("Enqueued"),
            TestStatus::Started => String::from_str("Started"),
            TestStatus::Finished(Err(inconclusive)) => inconclusive.to_string(),
            TestStatus::Finished(Ok(entry)) => entry.result().to_string(),
        }
    }
}

/// News about a test case.
#[derive(Debug)]
pub struct Notification {
    pub test_case: TestCase,
    pub status: TestStatus,
}

/// A result is shown with its exit code, and the stages of a test under their
/// names.
pub proof fn lemma_status_text(status: TestStatus)
    ensures
        match status {
            TestStatus::Enqueued => status.text() == "Enqueued"@,
            TestStatus::Started => status.text() == "Started"@,
            TestStatus::Finished(Err(TestInconclusive::Canceled)) => status.text() == "Canceled"@,
            TestStatus::Finished(Err(TestInconclusive::Error(msg))) => status.text()
                == "Error while testing - "@ + strings::debug_text(msg@),
            TestStatus::Finished(Ok(entry)) => status.text() == "exit code "@ + strings::decimal(
                entry.entry().result.exit_code as int,
            ),
        },
{
}

/// A test whose results are filed by commit does not share them between commits,
/// one that files them by tree shares them exactly between commits with the same
/// tree, and without caching no result may be used again, though it is kept for
/// the commit.
pub proof fn lemma_what_results_are_filed_under(
    policy: CachePolicy,
    commit1: Commit,
    commit2: Commit,
)
    ensures
        policy == CachePolicy::ByCommit ==> (policy.filed_under(commit1) == policy.filed_under(
            commit2,
        ) <==> commit1.hash@ == commit2.hash@),
        policy == CachePolicy::ByTree ==> (policy.filed_under(commit1) == policy.filed_under(
            commit2,
        ) <==> commit1.tree@ == commit2.tree@),
        policy.filed_under(commit1) is None <==> policy == CachePolicy::NoCaching,
        policy == CachePolicy::ByCommit ==> policy.filed_under(commit1) == Some(commit1.hash@),
        policy == CachePolicy::ByTree ==> policy.filed_under(commit1) == Some(commit1.tree@),
{
}

/// A result is kept under the hash that it may be used again for, or else under
/// that of its commit.
pub proof fn lemma_where_results_are_kept(case: TestCase)
    ensures
        case.cache_hash matches Some(hash) ==> case.storage() == hash@,
        case.cache_hash is None ==> case.storage() == case.commit_hash@,
{
}

/// A test needs a worktree exactly if it asks for one or more.
pub proof fn lemma_who_needs_a_worktree(test: Test)
    ensures
        test.needs_resources@.dom().contains(KeyView::Worktree)
            && test.needs_resources@[KeyView::Worktree] > 0 ==> test.worktree_needed(),
        !test.needs_resources@.dom().contains(KeyView::Worktree) ==> !test.worktree_needed(),
        test.needs_resources@.dom().contains(KeyView::Worktree)
            && test.needs_resources@[KeyView::Worktree] == 0 ==> !test.worktree_needed(),
{
}

/// A run takes all that its test needs, but no worktree if it runs in place.
pub proof fn lemma_what_a_run_takes(test: Test, in_place: bool, key: KeyView)
    ensures
        test.takes(in_place).dom().contains(key) <==> test.needs_resources@.dom().contains(key)
            && !(in_place && key == KeyView::Worktree),
        test.takes(in_place).dom().contains(key) ==> test.takes(in_place)[key]
            == test.needs_resources@[key],
{
}

/// The identifier of a case names its commit first, then its test.
pub proof fn lemma_case_id_names_both(commit: Seq<char>, test: Seq<char>)
    ensures
        commit.is_prefix_of(case_id(commit, test)),
        case_id(commit, test).len() == commit.len() + 1 + test.len(),
        case_id(commit, test).skip(commit.len() as int + 1) == test,
        case_id(commit, test)[commit.len() as int] == ':',
{
    let id = case_id(commit, test);
    assert(id.take(commit.len() as int) =~= commit);
    assert(id.skip(commit.len() as int + 1) =~= test);
}

/// In messages a test and a case have their names.
pub proof fn lemma_debug_forms(name: Seq<char>)
    ensures
        <TestName as Ident>::debug_form(name) == strings::debug_text(name),
        strings::has_part(<TestCaseId as Ident>::debug_form(name), strings::debug_text(name)),
{
    let part = strings::debug_text(name);
    let s = <TestCaseId as Ident>::debug_form(name);
    let m = "TestCaseId("@.len() as int;
    assert(s.subrange(m, m + part.len()) =~= part);
}

/// A case depends on the cases, at the same commit, of the tests that its test
/// depends on.
pub proof fn lemma_case_dependencies(case: TestCase, i: int)
    requires
        0 <= i < case.test.depends_on@.len(),
    ensures
        case.node_id() == case_id(case.commit_hash@, case.test.name@),
        case.node_children().len() == case.test.depends_on@.len(),
        case.node_children()[i] == case_id(case.commit_hash@, case.test.depends_on@[i]@),
        case.test.node_id() == case.test.name@,
        case.test.node_children().len() == case.test.depends_on@.len(),
        case.test.node_children()[i] == case.test.depends_on@[i]@,
{
}

} // verus!

//! What the commands decide: where the configuration is, which tests have to
//! run and in what order, and what is answered.
use std::sync::Arc;

use crate::assoc;
use crate::assoc::Assoc;
use crate::dag;
use crate::dag::{DagError, GraphNode};
use crate::database::{DatabaseEntry, DatabaseOutput, LookupStep, Target};
use crate::git::{Commit, CommitHash};
use crate::ident;
use crate::job::{ActionView, DepDatabaseEntries, JobAction, Phase, TestJob, TestJobBuilder};
use crate::manager;
use crate::resource::ResourceKey;
use crate::strings;
use crate::test::{JobEnv, TestCase, TestCaseId, TestDag, TestInconclusive, TestName, TestOutcome};
use vstd::prelude::*;

verus! {

/// Why a command fails.
#[derive(Debug)]
pub enum CliError {
    /// There is no configuration.
    NoConfig,
    /// The repository has no commit.
    NoHead,
    /// The revision asked for is not there. The name is that of the test.
    NoRevision(String),
    /// There is no test of this name.
    NoSuchTest(TestName),
    /// The tests to run do not form a graph.
    Graph(DagError<TestCaseId>),
    /// A job that others depend on came to no result.
    JobInconclusive { name: TestName, reason: TestInconclusive },
    /// A job that others depend on failed.
    JobFailed { name: TestName, exit_code: i32 },
    /// The tests were run, and still there is no result.
    NoEntry { name: TestName, rev: String, hash: CommitHash },
    /// A lookup was tried too often.
    Contention,
}

impl CliError {
    /// The message for this error.
    pub open spec fn message(&self) -> Seq<char> {
        match self {
            CliError::NoConfig =>
                "Neither config nor $LIMMAT_CONFIG were set. No ./limmat.toml or ./.limmat.toml found"@,
            CliError::NoHead => "no HEAD commit - repo empty?"@,
            CliError::NoRevision(test) => "revision "@ + strings::debug_text(test@)
                + " not found"@,
            CliError::NoSuchTest(name) => "no such test "@ + strings::debug_text(name@),
            CliError::Graph(e) => "setting up dependency test graph: "@ + e.message(),
            CliError::JobInconclusive { name, reason } => "running dependency job "@ + name@ + ": "@
                + reason.text(),
            CliError::JobFailed { name, exit_code } => "dependency job "@ + name@
                + " failed with exit code "@ + strings::decimal(*exit_code as int),
            CliError::NoEntry { name, rev, hash } => "no database entry for test "@
                + strings::debug_text(name@) + " at revision "@ + strings::debug_text(rev@)
                + " after running ("@ + hash@ + ")"@,
            CliError::Contention =>
                "database lookup: too much database contention, something fishy going on"@,
        }
    }

    /// The message for this error.
    pub fn to_string(&self) -> (r: String)
        ensures
            r@ == self.message(),
    {
        let mut out: String = String::new();
        match self {
            CliError::NoConfig => {
                out.append(
                    "Neither config nor $LIMMAT_CONFIG were set. No ./limmat.toml or ./.limmat.toml found",
                );
            },
            CliError::NoHead => {
                out.append("no HEAD commit - repo empty?");
            },
            CliError::NoRevision(test) => {
                out.append("revision ");
                out.append(strings::debug_string(test.as_str()).as_str());
                out.append(" not found");
            },
            CliError::NoSuchTest(name) => {
                out.append("no such test ");
                out.append(strings::debug_string(name.as_str()).as_str());
            },
            CliError::Graph(e) => {
                out.append("setting up dependency test graph: ");
                out.append(e.to_string().as_str());
            },
            CliError::JobInconclusive { name, reason } => {
                out.append("running dependency job ");
                out.append(name.as_str());
                out.append(": ");
                out.append(reason.to_string().as_str());
            },
            CliError::JobFailed { name, exit_code } => {
                out.append("dependency job ");
                out.append(name.as_str());
                out.append(" failed with exit code ");
                out.append(strings::signed_decimal_text(*exit_code).as_str());
            },
            CliError::NoEntry { name, rev, hash } => {
                out.append("no database entry for test ");
                out.append(strings::debug_string(name.as_str()).as_str());
                out.append(" at revision ");
                out.append(strings::debug_string(rev.as_str()).as_str());
                out.append(" after running (");
                out.append(hash.as_str());
                out.append(")");
            },
            CliError::Contention => {
                out.append("database lookup: too much database contention, something fishy going on");
            },
        }
        assert(out@ =~= self.message());
        out
    }
}

/// Where the configuration is.
pub open spec fn config_place(
    config_arg: Option<String>,
    limmat_config: Option<String>,
    limmat_toml_exists: bool,
    dot_limmat_toml_exists: bool,
) -> Option<Seq<char>> {
    match config_arg {
        Some(path) => Some(path@),
        None => if limmat_config is Some && limmat_config->0@.len() > 0 {
            Some(limmat_config->0@)
        } else if limmat_toml_exists {
            Some("./limmat.toml"@)
        } else if dot_limmat_toml_exists {
            Some("./.limmat.toml"@)
        } else {
            None
        },
    }
}

/// Returns the path we should look for the the config: the one that was asked
/// for, or that in the environment variable `LIMMAT_CONFIG` if it is non-empty,
/// or ./limmat.toml if it exists, or ./.limmat.toml if it exists. Although this
/// is influenced by the existence of files, it doesn't guarantee that the
/// returned file exists.
pub fn find_config(
    config_arg: Option<String>,
    limmat_config: Option<String>,
    limmat_toml_exists: bool,
    dot_limmat_toml_exists: bool,
) -> (r: Result<String, CliError>)
    ensures
        match config_place(
            config_arg,
            limmat_config,
            limmat_toml_exists,
            dot_limmat_toml_exists,
        ) {
            Some(path) => r matches Ok(found) && found@ == path,
            None => r matches Err(e) && e is NoConfig,
        },
{
    if let Some(path) = config_arg {
        return Ok(path);  // (Might not exist)
    }
    if let Some(path) = limmat_config {
        if !path.as_str().is_empty() {
            return Ok(path);
        }
    }
    if limmat_toml_exists {
        return Ok(String::from_str("./limmat.toml"));
    }
    if dot_limmat_toml_exists {
        return Ok(String::from_str("./.limmat.toml"));
    }
    Err(CliError::NoConfig)
}

/// Which output of a job is asked for.
#[derive(Debug, Clone, Copy, PartialEq, Eq, Structural)]
pub enum GetOutput {
    Stdout,
    Stderr,
}

impl GetOutput {
    /// The output, as it is named on the command line.
    pub fn to_string(&self) -> (r: String)
        ensures
            r@ == match self {
                GetOutput::Stdout => "stdout"@,
                GetOutput::Stderr => "stderr"@,
            },
    {
        match self {
            GetOutput::Stdout => String::from_str("stdout"),
            GetOutput::Stderr => String::from_str("stderr"),
        }
    }
}

/// The title of the web page, from the name of the directory of the
/// repository.
pub fn page_title(file_name: Option<String>) -> (r: String)
    ensures
        r@ == "Limmat | "@ + match file_name {
            Some(name) => name@,
            None => "<unknown>"@,
        },
{
    let mut out: String = String::from_str("Limmat | ");
    match file_name {
        Some(name) => {
            out.append(name.as_str());
        },
        None => {
            out.append("<unknown>");
        },
    }
    out
}

/// The range of commits to test: those between the base (exclusive) and HEAD
/// (inclusive).
pub fn range_spec(base: &str) -> (r: String)
    ensures
        r@ == base@ + "..HEAD"@,
{
    let mut out: String = String::from_str(base);
    out.append("..HEAD");
    out
}

/// The commit to run dependency jobs at, so that their results can be cached in
/// the database.
pub fn head_commit(head: Option<Commit>) -> (r: Result<Commit, CliError>)
    ensures
        match head {
            Some(commit) => r matches Ok(found) && found == commit,
            None => r matches Err(e) && e is NoHead,
        },
{
    match head {
        Some(commit) => Ok(commit),
        None => Err(CliError::NoHead),
    }
}

/// The commit that a revision stands for.
pub fn revision(found: Option<Commit>, test: &str) -> (r: Result<Commit, CliError>)
    ensures
        match found {
            Some(commit) => r matches Ok(rev) && rev == commit,
            None => r matches Err(CliError::NoRevision(name)) && name@ == test@,
        },
{
    match found {
        Some(commit) => Ok(commit),
        None => Err(CliError::NoRevision(String::from_str(test))),
    }
}

/// Where the tests stand that a test needs, below that test and with it,
/// parents before their children.
pub open spec fn below(tests: TestDag, name: Seq<char>) -> Seq<usize> {
    dag::search(
        tests.graph(),
        seq![ident::last_position(dag::ids(tests.node_seq()), name) as usize],
    ).order.reverse()
}

/// The test of the given name, if it is to be run itself, and the tests that it
/// needs.
pub open spec fn needed(tests: TestDag, name: Seq<char>, itself: bool) -> Seq<
    Arc<crate::test::Test>,
> {
    let order = if itself {
        below(tests, name)
    } else {
        below(tests, name).skip(1)
    };
    Seq::new(order.len(), |k: int| tests.node_seq()[order[k] as int])
}

/// The tests to run for the test of the given name. That test comes first, if
/// it is to be run like the others.
pub fn needed_tests(tests: &TestDag, name: &TestName, itself: bool) -> (r: Result<
    Vec<Arc<crate::test::Test>>,
    CliError,
>)
    requires
        tests.valid(),
    ensures
        r is Ok <==> dag::ids(tests.node_seq()).contains(name@),
        match r {
            Ok(found) => found@ == needed(*tests, name@, itself),
            Err(e) => e matches CliError::NoSuchTest(missing) && missing@ == name@,
        },
{
    let found = match tests.top_down_from(name) {
        Some(found) => found,
        None => {
            return Err(CliError::NoSuchTest(name.clone()));
        },
    };
    let ghost order = below(*tests, name@);
    let ghost goal = needed(*tests, name@, itself);
    proof {
        lemma_first_is_named(*tests, name@);
    }
    let skipped: usize = if itself {
        0
    } else {
        1
    };
    let mut out: Vec<Arc<crate::test::Test>> = Vec::new();
    let mut i: usize = skipped;
    while i < found.len()
        invariant
            skipped <= i <= found@.len(),
            skipped <= 1,
            itself <==> skipped == 0,
            order == below(*tests, name@),
            goal == needed(*tests, name@, itself),
            dag::nodes_at(found@, tests.node_seq(), order),
            out@ =~= goal.take(i - skipped),
        decreases found@.len() - i,
    {
        assert(goal[i - skipped] == tests.node_seq()[order[i as int] as int]);
        out.push(crate::test::share(found[i]));
        i += 1;
    }
    assert(goal.take(i - skipped) =~= goal);
    Ok(out)
}

/// The first of the tests that a test needs, with that test, is that test; the
/// others are those that can be reached from it over dependencies.
pub proof fn lemma_first_is_named(tests: TestDag, name: Seq<char>)
    requires
        tests.valid(),
        dag::ids(tests.node_seq()).contains(name),
    ensures
        below(tests, name).len() > 0,
        below(tests, name)[0] == ident::last_position(dag::ids(tests.node_seq()), name),
        below(tests, name).no_duplicates(),
        forall|v: usize| #[trigger]
            below(tests, name).contains(v) <==> dag::reaches(
                tests.graph(),
                ident::last_position(dag::ids(tests.node_seq()), name) as usize,
                v,
            ),
{
    let g = tests.graph();
    ident::lemma_last_position(dag::ids(tests.node_seq()), name);
    let start = ident::last_position(dag::ids(tests.node_seq()), name) as usize;
    let sources = seq![start];
    dag::lemma_search_ends_at_source(g, start);
    dag::lemma_search(g, sources);
    let order = dag::search(g, sources).order;
    let rev = below(tests, name);
    assert forall|v: usize| #[trigger] rev.contains(v) <==> dag::reaches(g, start, v) by {
        if rev.contains(v) {
            let k = rev.index_of(v);
            assert(order[order.len() - 1 - k] == v);
            assert(order.contains(v));
            assert(dag::reached_from(g, sources, v));
        }
        if dag::reaches(g, start, v) {
            assert(dag::reaches(g, sources[0], v));
            assert(dag::reached_from(g, sources, v));
            assert(order.contains(v));
            let k = order.index_of(v);
            assert(rev[order.len() - 1 - k] == v);
        }
    }
}

/// The cases are those of the tests at the given commit, in the same order.
pub open spec fn cases_at(
    cases: Seq<TestCase>,
    tests: Seq<Arc<crate::test::Test>>,
    commit: Commit,
) -> bool {
    &&& cases.len() == tests.len()
    &&& forall|k: int|
        0 <= k < cases.len() ==> manager::applies(commit, tests[k], #[trigger] cases[k])
}

/// The identifiers of cases of one commit differ where the names of the tests
/// do.
proof fn lemma_ids_at(commit: Seq<char>, a: Seq<char>, b: Seq<char>)
    ensures
        crate::test::case_id(commit, a) == crate::test::case_id(commit, b) <==> a == b,
{
    let x = crate::test::case_id(commit, a);
    let y = crate::test::case_id(commit, b);
    assert(a =~= x.skip(commit.len() as int + 1));
    assert(b =~= y.skip(commit.len() as int + 1));
}

/// Names stand where the identifiers made of them stand.
proof fn lemma_positions_at(commit: Seq<char>, names: Seq<Seq<char>>, x: Seq<char>)
    ensures
        ident::last_position(
            Seq::new(names.len(), |i: int| crate::test::case_id(commit, names[i])),
            crate::test::case_id(commit, x),
        ) == ident::last_position(names, x),
    decreases names.len(),
{
    let made = Seq::new(names.len(), |i: int| crate::test::case_id(commit, names[i]));
    if names.len() > 0 {
        let rest = names.drop_last();
        lemma_ids_at(commit, names.last(), x);
        lemma_positions_at(commit, rest, x);
        assert(made.drop_last() =~= Seq::new(
            rest.len(),
            |i: int| crate::test::case_id(commit, rest[i]),
        ));
    }
}

/// The cases of tests at one commit depend on each other as the tests do.
#[verifier::spinoff_prover]
pub proof fn lemma_cases_like_tests(
    cases: Seq<TestCase>,
    tests: Seq<Arc<crate::test::Test>>,
    commit: Commit,
)
    requires
        cases_at(cases, tests, commit),
    ensures
        dag::ids(cases).no_duplicates() <==> dag::ids(tests).no_duplicates(),
        dag::children_present(cases) <==> dag::children_present(tests),
        dag::adjacency(cases) == dag::adjacency(tests),
{
    let hash = commit.hash@;
    let names = dag::ids(tests);
    let made = Seq::new(names.len(), |i: int| crate::test::case_id(hash, names[i]));
    assert(dag::ids(cases) =~= made);
    assert forall|i: int, j: int|
        0 <= i < names.len() && 0 <= j < names.len() implies (#[trigger] made[i]
        == #[trigger] made[j] <==> names[i] == names[j]) by {
        lemma_ids_at(hash, names[i], names[j]);
    }
    if made.no_duplicates() {
        assert forall|i: int, j: int|
            0 <= i < names.len() && 0 <= j < names.len() && i != j implies names[i]
            != names[j] by {
            assert(made[i] != made[j]);
        }
    }
    if names.no_duplicates() {
        assert forall|i: int, j: int|
            0 <= i < made.len() && 0 <= j < made.len() && i != j implies made[i] != made[j] by {
            assert(names[i] != names[j]);
        }
    }
    assert forall|i: int| 0 <= i < cases.len() implies dag::positions(
        made,
        (#[trigger] cases[i]).node_children(),
    ) =~= dag::positions(names, tests[i].node_children()) by {
        let wanted = tests[i].node_children();
        assert forall|j: int| 0 <= j < wanted.len() implies ident::last_position(
            made,
            cases[i].node_children()[j],
        ) == ident::last_position(names, #[trigger] wanted[j]) by {
            lemma_positions_at(hash, names, wanted[j]);
        }
    }
    assert(dag::adjacency(cases) =~= dag::adjacency(tests));
    assert forall|i: int| 0 <= i < cases.len() implies (dag::all_present(
        made,
        (#[trigger] cases[i]).node_children(),
    ) <==> dag::all_present(names, tests[i].node_children())) by {
        let here = cases[i].node_children();
        let there = tests[i].node_children();
        assert forall|j: int| 0 <= j < there.len() implies (made.contains(here[j])
            <==> names.contains(#[trigger] there[j])) by {
            lemma_positions_at(hash, names, there[j]);
            ident::lemma_last_position(made, here[j]);
            ident::lemma_last_position(names, there[j]);
        }
        if dag::all_present(made, here) {
            assert forall|j: int| 0 <= j < there.len() implies names.contains(
                #[trigger] there[j],
            ) by {
                assert(made.contains(here[j]));
            }
        }
        if dag::all_present(names, there) {
            assert forall|j: int| 0 <= j < here.len() implies made.contains(#[trigger] here[j]) by {
                assert(names.contains(there[j]));
            }
        }
    }
    if dag::children_present(cases) {
        assert forall|i: int| 0 <= i < tests.len() implies dag::all_present(
            names,
            (#[trigger] tests[i]).node_children(),
        ) by {
            assert(dag::all_present(made, cases[i].node_children()));
        }
    }
    if dag::children_present(tests) {
        assert forall|i: int| 0 <= i < cases.len() implies dag::all_present(
            made,
            (#[trigger] cases[i]).node_children(),
        ) by {
            assert(dag::all_present(names, tests[i].node_children()));
        }
    }
}

/// The tests that a test of a valid graph needs can be put in order, with that
/// test or without it: setting up their jobs does not fail.
pub proof fn lemma_needed_form_dag(tests: TestDag, name: Seq<char>, itself: bool)
    requires
        tests.valid(),
        dag::ids(tests.node_seq()).contains(name),
    ensures
        dag::ids(needed(tests, name, itself)).no_duplicates(),
        dag::children_present(needed(tests, name, itself)),
        dag::acyclic(dag::adjacency(needed(tests, name, itself))),
{
    let g = tests.graph();
    let nodes = tests.node_seq();
    let all = dag::ids(nodes);
    let start = ident::last_position(all, name) as usize;
    let whole = below(tests, name);
    let from: int = if itself {
        0
    } else {
        1
    };
    let order = dag::search(g, seq![start]).order;
    let part = needed(tests, name, itself);
    let names = dag::ids(part);
    ident::lemma_last_position(all, name);
    lemma_first_is_named(tests, name);
    dag::lemma_search(g, seq![start]);
    assert forall|k: int| 0 <= k < part.len() implies #[trigger] part[k] == nodes[whole[k
        + from] as int] && whole[k + from] < nodes.len() by {
        assert(whole[k + from] == order[order.len() - 1 - k - from]);
    }
    assert(part.len() == whole.len() - from);
    assert(names.no_duplicates()) by {
        assert forall|i: int, j: int|
            0 <= i < names.len() && 0 <= j < names.len() && i != j implies names[i] != names[j] by {
            assert(part[i] == nodes[whole[i + from] as int]);
            assert(part[j] == nodes[whole[j + from] as int]);
            assert(whole[i + from] != whole[j + from]);
            assert(all[whole[i + from] as int] != all[whole[j + from] as int]);
        }
    }
    assert(dag::children_present(part)) by {
        assert forall|i: int| 0 <= i < part.len() implies dag::all_present(
            names,
            (#[trigger] part[i]).node_children(),
        ) by {
            let v = whole[i + from];
            let at: int = order.len() - 1 - i - from;
            assert(part[i] == nodes[v as int]);
            assert(order[at] == v);
            let wanted = part[i].node_children();
            assert(dag::all_present(all, nodes[v as int].node_children()));
            assert forall|j: int| 0 <= j < wanted.len() implies names.contains(
                #[trigger] wanted[j],
            ) by {
                let b = g[v as int][j];
                ident::lemma_last_position(all, wanted[j]);
                assert(b == ident::last_position(all, wanted[j]));
                assert(all[b as int] == wanted[j]);
                assert(g[v as int].contains(b));
                assert(dag::has_edge(g, order[at], b));
                assert(order.take(at).contains(b));
                let c = order.take(at).index_of(b);
                assert(order[c] == b && c < at);
                let k: int = order.len() - 1 - c - from;
                assert(whole[k + from] == b);
                assert(part[k] == nodes[b as int]);
                assert(names[k] == wanted[j]);
            }
        }
    }
    assert forall|k: int| 0 <= k < part.len() implies nodes.contains(#[trigger] part[k]) by {
        assert(part[k] == nodes[whole[k + from] as int]);
    }
    assert(part.len() <= usize::MAX) by {
        dag::lemma_distinct_bound(order, g.len());
    }
    dag::lemma_closed_part(nodes, part);
}

/// Builds the jobs for some tests at a commit, in an order in which each comes
/// after those that it waits for.
pub fn plan_tests(
    tests: &Vec<Arc<crate::test::Test>>,
    commit: &Commit,
    env: &JobEnv,
) -> (r: Result<Vec<TestJob>, CliError>)
    ensures
        r is Ok <==> dag::ids(tests@).no_duplicates() && dag::children_present(tests@)
            && dag::acyclic(dag::adjacency(tests@)),
        match r {
            Ok(jobs) => {
                &&& manager::job_ids(jobs@).no_duplicates()
                &&& forall|id: Seq<char>| #[trigger]
                    manager::job_ids(jobs@).contains(id) <==> manager::is_case(
                        seq![commit.hash@],
                        dag::ids(tests@),
                        id,
                    )
                &&& manager::dependencies_first(jobs@)
                &&& forall|k: int|
                    0 <= k < jobs@.len() ==> manager::fresh_job(#[trigger] jobs@[k], env@)
                        && manager::case_of(seq![*commit], tests@, jobs@[k].case())
            },
            Err(CliError::Graph(e)) => exists|cases: Seq<TestCase>|
                cases_at(cases, tests@, *commit) && #[trigger] dag::is_reason(cases, e),
            Err(_) => false,
        },
{
    let mut cases: Vec<TestCase> = Vec::new();
    let mut i: usize = 0;
    while i < tests.len()
        invariant
            i <= tests@.len(),
            cases_at(cases@, tests@.take(i as int), *commit),
        decreases tests@.len() - i,
    {
        cases.push(TestCase::new(commit.clone(), crate::test::share(&tests[i])));
        i += 1;
    }
    assert(tests@.take(i as int) =~= tests@);
    let ghost all = cases@;
    proof {
        lemma_cases_like_tests(all, tests@, *commit);
    }
    match manager::jobs_in_order(cases, env) {
        Ok(jobs) => {
            proof {
                let names = dag::ids(tests@);
                let hashes = seq![commit.hash@];
                assert forall|id: Seq<char>| #[trigger]
                    manager::job_ids(jobs@).contains(id) <==> manager::is_case(
                        hashes,
                        names,
                        id,
                    ) by {
                    assert(manager::job_ids(jobs@).contains(id) <==> dag::ids(all).contains(id));
                    if dag::ids(all).contains(id) {
                        let k = dag::ids(all).index_of(id);
                        assert(all[k].commit_hash == commit.hash);
                        assert(id == crate::test::case_id(hashes[0], names[k]));
                    }
                    if manager::is_case(hashes, names, id) {
                        let (a, b) = choose|a: int, b: int|
                            0 <= a < hashes.len() && 0 <= b < names.len() && id
                                == #[trigger] crate::test::case_id(hashes[a], names[b]);
                        assert(all[b].commit_hash == commit.hash);
                        assert(dag::ids(all)[b] == id);
                    }
                }
                assert forall|k: int| 0 <= k < jobs@.len() implies manager::case_of(
                    seq![*commit],
                    tests@,
                    (#[trigger] jobs@[k]).case(),
                ) by {
                    let n = all.index_of(jobs@[k].case());
                    assert(all[n].commit_hash == commit.hash);
                    assert(seq![*commit][0] == *commit);
                    assert(tests@[n] == all[n].test);
                }
            }
            Ok(jobs)
        },
        Err(e) => Err(CliError::Graph(e)),
    }
}

/// How many of the tests need a worktree.
pub open spec fn worktree_users(tests: Seq<Arc<crate::test::Test>>) -> nat
    decreases tests.len(),
{
    if tests.len() == 0 {
        0
    } else {
        worktree_users(tests.drop_last()) + if tests.last().worktree_needed() {
            1nat
        } else {
            0
        }
    }
}

/// How many worktrees to create for some tests: as many as are allowed, but
/// only for the tests that need worktrees.
pub fn worktrees_needed(num_worktrees: usize, tests: &Vec<Arc<crate::test::Test>>) -> (r: usize)
    requires
        forall|k: int| 0 <= k < tests@.len() ==> (#[trigger] tests@[k]).wf(),
    ensures
        r == if num_worktrees < worktree_users(tests@) {
            num_worktrees as nat
        } else {
            worktree_users(tests@)
        },
{
    let mut count: usize = 0;
    let mut i: usize = 0;
    assert(tests@.take(0) =~= Seq::empty());
    while i < tests.len()
        invariant
            i <= tests@.len(),
            forall|k: int| 0 <= k < tests@.len() ==> (#[trigger] tests@[k]).wf(),
            count == worktree_users(tests@.take(i as int)),
            count <= i,
        decreases tests@.len() - i,
    {
        assert(tests@.take(i + 1).drop_last() =~= tests@.take(i as int));
        assert(tests@[i as int].wf());
        if tests[i].needs_worktree() {
            count += 1;
        }
        i += 1;
    }
    assert(tests@.take(i as int) =~= tests@);
    if num_worktrees < count {
        num_worktrees
    } else {
        count
    }
}

/// Jobs to run for some tests, and the number of worktrees to create for them.
pub struct RunPlan {
    pub jobs: Vec<TestJob>,
    pub num_worktrees: usize,
}

/// The plan runs the given tests at the commit, each after those that it depends
/// on, in as many worktrees as are allowed and of use.
pub open spec fn runs_tests(
    plan: RunPlan,
    tests: Seq<Arc<crate::test::Test>>,
    commit: Commit,
    repo_path: Seq<char>,
    num_worktrees: usize,
) -> bool {
    &&& manager::job_ids(plan.jobs@).no_duplicates()
    &&& forall|id: Seq<char>| #[trigger]
        manager::job_ids(plan.jobs@).contains(id) <==> manager::is_case(
            seq![commit.hash@],
            dag::ids(tests),
            id,
        )
    &&& manager::dependencies_first(plan.jobs@)
    &&& forall|k: int|
        0 <= k < plan.jobs@.len() ==> run_at(#[trigger] plan.jobs@[k], repo_path)
            && manager::case_of(seq![commit], tests, plan.jobs@[k].case())
    &&& plan.num_worktrees == if num_worktrees < worktree_users(tests) {
        num_worktrees as nat
    } else {
        worktree_users(tests)
    }
}

/// A job that has not begun yet, with the environment for the given repository.
pub open spec fn run_at(job: TestJob, repo_path: Seq<char>) -> bool {
    manager::fresh_job(job, job.base_env()) && crate::test::env_texts(job.base_env()) == seq![
        ("LIMMAT_ORIGIN"@, repo_path),
    ]
}

/// Plans to run a set of tests at a given version, in worktrees, in parallel,
/// unless there's already a result in the database.
pub fn ensure_tests_run(
    num_worktrees: usize,
    tests: &Vec<Arc<crate::test::Test>>,
    rev: &Commit,
    repo_path: &str,
) -> (r: Result<RunPlan, CliError>)
    requires
        forall|k: int| 0 <= k < tests@.len() ==> (#[trigger] tests@[k]).wf(),
    ensures
        r is Ok <==> dag::ids(tests@).no_duplicates() && dag::children_present(tests@)
            && dag::acyclic(dag::adjacency(tests@)),
        match r {
            Ok(plan) => runs_tests(plan, tests@, *rev, repo_path@, num_worktrees),
            Err(CliError::Graph(e)) => exists|cases: Seq<TestCase>|
                cases_at(cases, tests@, *rev) && #[trigger] dag::is_reason(cases, e),
            Err(_) => false,
        },
{
    let env = crate::test::base_job_env(repo_path);
    match plan_tests(tests, rev, &env) {
        Ok(jobs) => Ok(RunPlan { jobs, num_worktrees: worktrees_needed(num_worktrees, tests) }),
        Err(e) => Err(e),
    }
}

/// The results of jobs that came to one, by the names of their tests.
pub open spec fn results_of(finished: Seq<(TestName, TestOutcome)>) -> Map<
    Seq<char>,
    Arc<DatabaseEntry>,
>
    decreases finished.len(),
{
    if finished.len() == 0 {
        Map::empty()
    } else {
        let before = results_of(finished.drop_last());
        match finished.last().1 {
            Ok(entry) => before.insert(finished.last().0@, entry),
            Err(_) => before,
        }
    }
}

/// A result that was reported for a test, with no other report for that test
/// after it, is among the results.
pub proof fn lemma_results_of(finished: Seq<(TestName, TestOutcome)>, k: int)
    requires
        0 <= k < finished.len(),
        finished[k].1 is Ok,
        forall|j: int| k < j < finished.len() ==> (#[trigger] finished[j]).0@ != finished[k].0@,
    ensures
        results_of(finished).dom().contains(finished[k].0@),
        results_of(finished)[finished[k].0@] == finished[k].1->Ok_0,
    decreases finished.len(),
{
    let rest = finished.drop_last();
    if k < finished.len() - 1 {
        assert forall|j: int| k < j < rest.len() implies (#[trigger] rest[j]).0@ != rest[k].0@ by {
            assert(rest[j] == finished[j]);
        }
        lemma_results_of(rest, k);
    }
}

/// A job that others depend on has a result, and that is a success.
pub open spec fn is_success(outcome: TestOutcome) -> bool {
    outcome matches Ok(entry) && entry.entry().result.exit_code == 0
}

/// The results of some jobs, for a job that depends on them. All of them must
/// be successes.
pub fn dep_results(finished: Vec<(TestName, TestOutcome)>) -> (r: Result<
    DepDatabaseEntries,
    CliError,
>)
    ensures
        r is Ok <==> forall|k: int|
            0 <= k < finished@.len() ==> is_success((#[trigger] finished@[k]).1),
        match r {
            Ok(results) => results.wf() && results@ == results_of(finished@),
            Err(e) => exists|k: int|
                0 <= k < finished@.len() && (forall|j: int|
                    0 <= j < k ==> is_success((#[trigger] finished@[j]).1)) && job_error(
                    (#[trigger] finished@[k]).0@,
                    finished@[k].1,
                    e,
                ),
        },
{
    let mut results: DepDatabaseEntries = Assoc::new();
    let mut i: usize = 0;
    assert(finished@.take(0) =~= Seq::empty());
    while i < finished.len()
        invariant
            i <= finished@.len(),
            results.wf(),
            results@ == results_of(finished@.take(i as int)),
            forall|k: int| 0 <= k < i ==> is_success((#[trigger] finished@[k]).1),
        decreases finished@.len() - i,
    {
        assert(finished@.take(i + 1).drop_last() =~= finished@.take(i as int));
        assert(finished@.take(i + 1).last() == finished@[i as int]);
        match ensure_job_success(&finished[i].0, crate::test::copy_outcome(&finished[i].1)) {
            Ok(entry) => {
                results.insert(finished[i].0.clone(), entry);
            },
            Err(e) => {
                return Err(e);
            },
        }
        i += 1;
    }
    assert(finished@.take(i as int) =~= finished@);
    Ok(results)
}

/// What it takes to run a test once, right in the repository.
pub struct TestPlan {
    /// What to run before, if anything.
    pub deps: Option<RunPlan>,
    /// The job for the test itself, which is given the results of those.
    pub job: TestJob,
    /// The resources to get for it.
    pub wants: Vec<(ResourceKey, usize)>,
}

/// Every test counts its resources right.
pub open spec fn tests_wf(tests: TestDag) -> bool {
    forall|k: int| 0 <= k < tests.node_seq().len() ==> (#[trigger] tests.node_seq()[k]).wf()
}

proof fn lemma_needed_wf(tests: TestDag, name: Seq<char>, itself: bool)
    requires
        tests.valid(),
        tests_wf(tests),
        dag::ids(tests.node_seq()).contains(name),
    ensures
        forall|k: int|
            0 <= k < needed(tests, name, itself).len() ==> (#[trigger] needed(
                tests,
                name,
                itself,
            )[k]).wf(),
{
    let g = tests.graph();
    let start = ident::last_position(dag::ids(tests.node_seq()), name) as usize;
    ident::lemma_last_position(dag::ids(tests.node_seq()), name);
    dag::lemma_search(g, seq![start]);
    let order = dag::search(g, seq![start]).order;
    let rev = below(tests, name);
    let part = needed(tests, name, itself);
    lemma_first_is_named(tests, name);
    let from: int = if itself {
        0
    } else {
        1
    };
    assert forall|k: int| 0 <= k < part.len() implies (#[trigger] part[k]).wf() by {
        assert(rev[k + from] == order[order.len() - 1 - k - from]);
        assert(part[k] == tests.node_seq()[rev[k + from] as int]);
    }
}

/// The test of the given name.
pub open spec fn named(tests: TestDag, name: Seq<char>) -> Arc<crate::test::Test> {
    tests.node_seq()[ident::last_position(dag::ids(tests.node_seq()), name)]
}

/// The plan is one for a one-shot run of the test of the given name: the tests
/// that it needs are run before, at the commit, and the job for the test itself
/// waits for nothing.
pub open spec fn planned(
    plan: TestPlan,
    tests: TestDag,
    name: Seq<char>,
    head: Commit,
    repo_path: Seq<char>,
    num_worktrees: usize,
) -> bool {
    &&& match plan.deps {
        Some(deps) => needed(tests, name, false).len() > 0 && runs_tests(
            deps,
            needed(tests, name, false),
            head,
            repo_path,
            num_worktrees,
        ),
        None => needed(tests, name, false).len() == 0,
    }
    &&& plan.job.wf()
    &&& plan.job.awaited().len() == 0
    &&& plan.job.deps() == Map::<Seq<char>, Arc<DatabaseEntry>>::empty()
    &&& plan.job.target() is None
    &&& plan.job.phase() is LookingUp
    &&& crate::test::env_texts(plan.job.base_env()) == seq![("LIMMAT_ORIGIN"@, repo_path)]
    &&& manager::applies(head, named(tests, name), plan.job.case())
    &&& assoc::entry_keys(plan.wants@).no_duplicates()
    &&& assoc::map_of(plan.wants@) == named(tests, name).takes(true)
}

/// Starts a one-shot run of a job: right with the command, in the repository,
/// and with output of which nothing is stored but the artifacts, which go below
/// the given directory.
pub fn run_once(job: &mut TestJob, output_dir: String) -> (r: JobAction)
    requires
        old(job).wf(),
        old(job).phase() == Phase::LookingUp,
    ensures
        final(job).wf(),
        final(job).case() == old(job).case(),
        final(job).base_env() == old(job).base_env(),
        final(job).awaited() == old(job).awaited(),
        final(job).waiting() == old(job).waiting(),
        final(job).deps() == old(job).deps(),
        final(job).target() == Some(once_target(old(job).case(), output_dir@)),
        final(job).made() == old(job).made(),
        final(job).phase() == Phase::Spawning,
        !final(job).opened(),
        r@ == ActionView::Spawn(false),
{
    let config_hash = job.test_case().test.config_hash.clone();
    job.run_with(DatabaseOutput::ephemeral(output_dir, config_hash))
}

/// Where the output of a one-shot run goes.
pub open spec fn once_target(case: TestCase, output_dir: Seq<char>) -> Target {
    Target { dir: output_dir, config_hash: case.test.config_hash@, kept: false }
}

/// Plans a one-shot run of a test in the repository. The tests that it depends
/// on are run at HEAD, so that their results can be cached.
pub fn test(
    tests: &TestDag,
    num_worktrees: usize,
    name: &TestName,
    head: Option<Commit>,
    repo_path: &str,
) -> (r: Result<TestPlan, CliError>)
    requires
        tests.valid(),
        tests_wf(*tests),
    ensures
        match head {
            None => r matches Err(CliError::NoHead),
            Some(head) => if !dag::ids(tests.node_seq()).contains(name@) {
                r matches Err(CliError::NoSuchTest(missing)) && missing@ == name@
            } else {
                r matches Ok(plan) && planned(
                    plan,
                    *tests,
                    name@,
                    head,
                    repo_path@,
                    num_worktrees,
                )
            },
        },
{
    let head = match head_commit(head) {
        Ok(head) => head,
        Err(e) => {
            return Err(e);
        },
    };
    let dep_tests = match needed_tests(tests, name, false) {
        Ok(dep_tests) => dep_tests,
        Err(e) => {
            return Err(e);
        },
    };
    proof {
        lemma_needed_wf(*tests, name@, false);
        lemma_needed_form_dag(*tests, name@, false);
        ident::lemma_last_position(dag::ids(tests.node_seq()), name@);
    }
    let deps = if dep_tests.len() > 0 {
        match ensure_tests_run(num_worktrees, &dep_tests, &head, repo_path) {
            Ok(plan) => Some(plan),
            Err(_) => vstd::pervasive::unreached(),
        }
    } else {
        None
    };
    let main_test = match tests.node(name) {
        Some(main_test) => crate::test::share(main_test),
        None => vstd::pervasive::unreached(),
    };
    let wants = main_test.wants(true);
    let test_case = TestCase::new(head, main_test);
    let wait_for: Vec<TestName> = Vec::new();
    let job = TestJobBuilder::new(
        test_case,
        crate::test::base_job_env(repo_path),
        wait_for,
    ).build();
    Ok(TestPlan { deps, job, wants })
}

/// What it takes to look up the result of a test.
pub struct LookupPlan {
    /// What to run before, if anything.
    pub run: Option<RunPlan>,
    /// The case to look up.
    pub test_case: TestCase,
}

/// Plans to look up the result of a test at a revision, after running it and
/// what it depends on if that is asked for.
pub fn lookup(
    tests: &TestDag,
    num_worktrees: usize,
    name: &TestName,
    rev: Option<Commit>,
    run: bool,
    repo_path: &str,
) -> (r: Result<LookupPlan, CliError>)
    requires
        tests.valid(),
        tests_wf(*tests),
    ensures
        match rev {
            None => r matches Err(CliError::NoRevision(test)) && test@ == name@,
            Some(rev) => if !dag::ids(tests.node_seq()).contains(name@) {
                r matches Err(CliError::NoSuchTest(missing)) && missing@ == name@
            } else {
                &&& r matches Ok(plan)
                &&& manager::applies(rev, named(*tests, name@), plan.test_case)
                &&& plan.run is Some <==> run
                &&& plan.run matches Some(jobs) ==> runs_tests(
                    jobs,
                    needed(*tests, name@, true),
                    rev,
                    repo_path@,
                    num_worktrees,
                )
            },
        },
{
    let rev = match revision(rev, name.as_str()) {
        Ok(rev) => rev,
        Err(e) => {
            return Err(e);
        },
    };
    let mut jobs: Option<RunPlan> = None;
    if run {
        let wanted = match needed_tests(tests, name, true) {
            Ok(wanted) => wanted,
            Err(e) => {
                return Err(e);
            },
        };
        proof {
            lemma_needed_wf(*tests, name@, true);
            lemma_needed_form_dag(*tests, name@, true);
        }
        jobs = match ensure_tests_run(num_worktrees, &wanted, &rev, repo_path) {
            Ok(plan) => Some(plan),
            Err(_) => vstd::pervasive::unreached(),
        };
    }
    match tests.node(name) {
        Some(found) => {
            let found = crate::test::share(found);
            Ok(LookupPlan { run: jobs, test_case: TestCase::new(rev, found) })
        },
        None => Err(CliError::NoSuchTest(name.clone())),
    }
}

/// The error for the outcome of a job that others depend on.
pub open spec fn job_error(name: Seq<char>, outcome: TestOutcome, e: CliError) -> bool {
    match outcome {
        Ok(entry) => {
            &&& entry.entry().result.exit_code != 0
            &&& e matches CliError::JobFailed { name: failed, exit_code }
            &&& failed@ == name
            &&& exit_code == entry.entry().result.exit_code
        },
        Err(reason) => e matches CliError::JobInconclusive { name: failed, reason: why }
            && failed@ == name && why == reason,
    }
}

/// Judges the outcome of a job that others depend on: anything but success is
/// an error.
pub fn ensure_job_success(name: &TestName, outcome: TestOutcome) -> (r: Result<
    Arc<DatabaseEntry>,
    CliError,
>)
    ensures
        r is Ok <==> is_success(outcome),
        match r {
            Ok(found) => outcome matches Ok(entry) && found == entry,
            Err(e) => job_error(name@, outcome, e),
        },
{
    match outcome {
        Ok(entry) => {
            let exit_code: i32 = entry.exit_code();
            if exit_code != 0 {
                Err(CliError::JobFailed { name: name.clone(), exit_code })
            } else {
                Ok(entry)
            }
        },
        Err(reason) => Err(CliError::JobInconclusive { name: name.clone(), reason }),
    }
}

/// What a lookup for the user comes to.
#[derive(Debug)]
pub enum Lookup {
    /// There is a result.
    Found(DatabaseEntry),
    /// There is none, and none was to be made.
    Nothing,
    /// The lookup is not over.
    GoOn,
}

/// What a step of a lookup comes to.
pub open spec fn judged(
    step: LookupStep,
    ran: bool,
    name: Seq<char>,
    rev: Seq<char>,
    hash: Seq<char>,
    r: Result<Lookup, CliError>,
) -> bool {
    match step {
        LookupStep::FoundResult(entry) => r matches Ok(Lookup::Found(found)) && found == entry,
        LookupStep::YouRunIt(_) => if ran {
            r matches Err(CliError::NoEntry { name: n, rev: v, hash: h }) && n@ == name && v@ == rev
                && h@ == hash
        } else {
            r matches Ok(Lookup::Nothing)
        },
        LookupStep::Upgrade | LookupStep::Retry => r matches Ok(Lookup::GoOn),
        LookupStep::Contention => r matches Err(CliError::Contention),
    }
}

/// Judges a step of a lookup. `ran` tells whether the test was run before, if
/// there was no result for it: then there has to be one now.
pub fn judge_lookup(
    step: LookupStep,
    ran: bool,
    name: &TestName,
    rev: &str,
    hash: &CommitHash,
) -> (r: Result<Lookup, CliError>)
    ensures
        judged(step, ran, name@, rev@, hash@, r),
{
    match step {
        LookupStep::FoundResult(entry) => Ok(Lookup::Found(entry)),
        LookupStep::YouRunIt(_) => {
            if ran {
                Err(
                    CliError::NoEntry {
                        name: name.clone(),
                        rev: String::from_str(rev),
                        hash: hash.clone(),
                    },
                )
            } else {
                Ok(Lookup::Nothing)
            }
        },
        LookupStep::Upgrade | LookupStep::Retry => Ok(Lookup::GoOn),
        LookupStep::Contention => Err(CliError::Contention),
    }
}

/// The exit code that tells that there is no result.
pub const NO_RESULT_FOUND_EXIT_CODE: u8 = 50;

/// What a command prints, and the code that it exits with.
#[derive(Debug, PartialEq, Eq)]
pub struct Reply {
    pub line: Option<String>,
    pub exit_code: u8,
}

/// The file of an output, below the directory of its entry.
pub open spec fn output_file(output: GetOutput) -> Seq<char> {
    match output {
        GetOutput::Stdout => "stdout.txt"@,
        GetOutput::Stderr => "stderr.txt"@,
    }
}

/// Answers the request for the path of an output.
pub fn get(entry: Option<&DatabaseEntry>, output: GetOutput) -> (r: Reply)
    ensures
        match entry {
            None => r.line is None && r.exit_code == NO_RESULT_FOUND_EXIT_CODE,
            Some(entry) => (r.line matches Some(path) && path@ == strings::path_joined(
                entry.base(),
                output_file(output),
            )) && r.exit_code == 0,
        },
{
    match entry {
        None => Reply { line: None, exit_code: NO_RESULT_FOUND_EXIT_CODE },
        Some(entry) => {
            let path = match output {
                GetOutput::Stdout => entry.stdout_path(),
                GetOutput::Stderr => entry.stderr_path(),
            };
            Reply { line: Some(path), exit_code: 0 }
        },
    }
}

/// Answers the request for the path to the artifacts.
pub fn artifacts(entry: Option<&DatabaseEntry>) -> (r: Reply)
    ensures
        match entry {
            None => r.line is None && r.exit_code == NO_RESULT_FOUND_EXIT_CODE,
            Some(entry) => (r.line matches Some(path) && path@ == strings::path_joined(
                entry.base(),
                "artifacts"@,
            )) && r.exit_code == 0,
        },
{
    match entry {
        None => Reply { line: None, exit_code: NO_RESULT_FOUND_EXIT_CODE },
        Some(entry) => Reply { line: Some(entry.artifacts_dir()), exit_code: 0 },
    }
}

/// Something that happens while a repository is watched.
#[derive(Debug, Clone, Copy, PartialEq, Eq, Structural)]
pub enum LoopEvent {
    /// The range of commits changed.
    Revisions,
    /// There is news about a test case.
    Notification,
    /// The terminal has another size.
    Resize,
    /// The program is to end.
    Shutdown,
}

/// What is done about it.
#[derive(Debug, Clone, Copy, PartialEq, Eq, Structural)]
pub enum LoopAction {
    /// Let the manager test the new revisions.
    SetRevisions,
    /// Let the view show the new range.
    SetRange,
    /// Let the view absorb the news.
    UpdateView,
    /// Paint the view.
    Repaint,
    /// Stop all jobs.
    CancelRunning,
    /// Stop showing the view.
    CloseView,
    /// Wait until no job is left, then end.
    Settle,
}

/// What is done about an event, in order.
pub open spec fn reaction(event: LoopEvent) -> Seq<LoopAction> {
    match event {
        LoopEvent::Revisions => seq![
            LoopAction::SetRevisions,
            LoopAction::SetRange,
            LoopAction::Repaint,
        ],
        LoopEvent::Notification => seq![LoopAction::UpdateView, LoopAction::Repaint],
        LoopEvent::Resize => seq![LoopAction::Repaint],
        LoopEvent::Shutdown => seq![
            LoopAction::CancelRunning,
            LoopAction::CloseView,
            LoopAction::Settle,
        ],
    }
}

/// What the main loop of the program does about an event: take notifications
/// from the Git tree, feed them to the test manager, feed the test manager's
/// results to the status viewer.
pub fn watch_actions(event: LoopEvent) -> (r: Vec<LoopAction>)
    ensures
        r@ == reaction(event),
{
    let mut out: Vec<LoopAction> = Vec::new();
    match event {
        LoopEvent::Revisions => {
            out.push(LoopAction::SetRevisions);
            out.push(LoopAction::SetRange);
            out.push(LoopAction::Repaint);
        },
        LoopEvent::Notification => {
            out.push(LoopAction::UpdateView);
            out.push(LoopAction::Repaint);
        },
        LoopEvent::Resize => {
            out.push(LoopAction::Repaint);
        },
        LoopEvent::Shutdown => {
            out.push(LoopAction::CancelRunning);
            out.push(LoopAction::CloseView);
            out.push(LoopAction::Settle);
        },
    }
    assert(out@ =~= reaction(event));
    out
}

/// The tests that need a worktree are counted, each once, and no others.
pub proof fn lemma_worktree_users(
    a: Seq<Arc<crate::test::Test>>,
    b: Seq<Arc<crate::test::Test>>,
    test: Arc<crate::test::Test>,
)
    ensures
        worktree_users(a + b) == worktree_users(a) + worktree_users(b),
        test.worktree_needed() ==> worktree_users(seq![test]) == 1,
        !test.worktree_needed() ==> worktree_users(seq![test]) == 0,
    decreases b.len(),
{
    reveal_with_fuel(worktree_users, 2);
    assert(seq![test].drop_last() =~= Seq::empty());
    if b.len() == 0 {
        assert(a + b =~= a);
    } else {
        assert((a + b).drop_last() =~= a + b.drop_last());
        lemma_worktree_users(a, b.drop_last(), test);
    }
}

/// What a needed test depends on is needed too.
pub proof fn lemma_needed_are_dependencies(
    tests: TestDag,
    name: Seq<char>,
    itself: bool,
    k: int,
    d: int,
)
    requires
        tests.valid(),
        dag::ids(tests.node_seq()).contains(name),
        0 <= k < needed(tests, name, itself).len(),
        0 <= d < needed(tests, name, itself)[k].depends_on@.len(),
    ensures
        dag::ids(needed(tests, name, itself)).contains(
            needed(tests, name, itself)[k].depends_on@[d]@,
        ),
{
    let part = needed(tests, name, itself);
    lemma_needed_form_dag(tests, name, itself);
    assert(dag::all_present(dag::ids(part), part[k].node_children()));
    assert(part[k].node_children()[d] == part[k].depends_on@[d]@);
}

/// A test is among those that it needs exactly if it is to be run itself, and
/// then it comes first.
pub proof fn lemma_needed_with_itself(tests: TestDag, name: Seq<char>)
    requires
        tests.valid(),
        dag::ids(tests.node_seq()).contains(name),
    ensures
        needed(tests, name, true).len() == needed(tests, name, false).len() + 1,
        needed(tests, name, true)[0].name@ == name,
        needed(tests, name, true).drop_first() == needed(tests, name, false),
        !dag::ids(needed(tests, name, false)).contains(name),
{
    let all = dag::ids(tests.node_seq());
    lemma_first_is_named(tests, name);
    lemma_needed_form_dag(tests, name, true);
    ident::lemma_last_position(all, name);
    let with = needed(tests, name, true);
    let without = needed(tests, name, false);
    assert(all[ident::last_position(all, name)] == name);
    assert(with[0].node_id() == name);
    assert(with.drop_first() =~= without);
    if dag::ids(without).contains(name) {
        let i = dag::ids(without).index_of(name);
        assert(without[i].node_id() == name);
        assert(dag::ids(with)[i + 1] == name);
        assert(dag::ids(with)[0] == name);
    }
}

/// No more worktrees are made than are allowed, nor more than tests need one;
/// and not fewer than either.
pub proof fn lemma_worktrees_of_run(
    plan: RunPlan,
    tests: Seq<Arc<crate::test::Test>>,
    commit: Commit,
    repo_path: Seq<char>,
    num_worktrees: usize,
)
    requires
        runs_tests(plan, tests, commit, repo_path, num_worktrees),
    ensures
        plan.num_worktrees <= num_worktrees,
        plan.num_worktrees <= worktree_users(tests),
        plan.num_worktrees == num_worktrees || plan.num_worktrees == worktree_users(tests),
{
}

/// Every test of a run has one job, at the commit, which knows the repository.
pub proof fn lemma_run_is_complete(
    plan: RunPlan,
    tests: Seq<Arc<crate::test::Test>>,
    commit: Commit,
    repo_path: Seq<char>,
    num_worktrees: usize,
    t: int,
) -> (k: int)
    requires
        runs_tests(plan, tests, commit, repo_path, num_worktrees),
        0 <= t < tests.len(),
    ensures
        0 <= k < plan.jobs@.len(),
        plan.jobs@[k].case().node_id() == crate::test::case_id(commit.hash@, tests[t].name@),
        crate::job::passes(
            crate::test::env_texts(plan.jobs@[k].base_env()),
            "LIMMAT_ORIGIN"@,
            repo_path,
        ),
{
    let ids = manager::job_ids(plan.jobs@);
    let names = dag::ids(tests);
    let commits = seq![commit.hash@];
    assert(names[t] == tests[t].name@);
    let id = crate::test::case_id(commits[0], names[t]);
    assert(manager::is_case(commits, names, id));
    assert(ids.contains(id));
    let k = ids.index_of(id);
    assert(run_at(plan.jobs@[k], repo_path));
    assert(crate::test::env_texts(plan.jobs@[k].base_env())[0] == ("LIMMAT_ORIGIN"@, repo_path));
    k
}

/// Only a result with the exit code 0 is a success. For anything else the error
/// names the job, and the code or the reason.
pub proof fn lemma_success_or_error(name: Seq<char>, outcome: TestOutcome, e: CliError)
    ensures
        is_success(outcome) <==> (outcome matches Ok(entry) && entry.entry().result.exit_code == 0),
        is_success(outcome) ==> !job_error(name, outcome, e),
        job_error(name, outcome, e) ==> match e {
            CliError::JobFailed { name: failed, exit_code } => failed@ == name && exit_code != 0
                && (outcome matches Ok(entry) && entry.entry().result.exit_code == exit_code),
            CliError::JobInconclusive { name: failed, reason } => failed@ == name && outcome == Err::<
                Arc<DatabaseEntry>,
                TestInconclusive,
            >(reason),
            _ => false,
        },
{
}

/// Only results are among the results: for each there was a report that had it.
pub proof fn lemma_results_were_reported(
    finished: Seq<(TestName, TestOutcome)>,
    name: Seq<char>,
)
    requires
        results_of(finished).dom().contains(name),
    ensures
        exists|k: int|
            0 <= k < finished.len() && (#[trigger] finished[k]).0@ == name && finished[k].1 == Ok::<
                Arc<DatabaseEntry>,
                TestInconclusive,
            >(results_of(finished)[name]),
    decreases finished.len(),
{
    let rest = finished.drop_last();
    let last: int = finished.len() - 1;
    if finished[last].0@ == name && finished[last].1 is Ok {
        assert(finished[last].1 == Ok::<Arc<DatabaseEntry>, TestInconclusive>(
            results_of(finished)[name],
        ));
    } else {
        lemma_results_were_reported(rest, name);
        let k = choose|k: int|
            0 <= k < rest.len() && (#[trigger] rest[k]).0@ == name && rest[k].1 == Ok::<
                Arc<DatabaseEntry>,
                TestInconclusive,
            >(results_of(rest)[name]);
        assert(finished[k] == rest[k]);
    }
}

/// Whatever changes what is shown is followed by a repaint, and is done before
/// it; only the end of the program stops the jobs, and it waits for them last.
pub proof fn lemma_reaction(event: LoopEvent)
    ensures
        reaction(event).len() > 0,
        reaction(event).no_duplicates(),
        !(event is Shutdown) ==> reaction(event).last() is Repaint,
        event is Revisions <==> reaction(event).contains(LoopAction::SetRevisions),
        event is Revisions <==> reaction(event).contains(LoopAction::SetRange),
        event is Notification <==> reaction(event).contains(LoopAction::UpdateView),
        event is Shutdown <==> reaction(event).contains(LoopAction::CancelRunning),
        event is Shutdown <==> reaction(event).contains(LoopAction::CloseView),
        event is Shutdown <==> reaction(event).contains(LoopAction::Settle),
        event is Shutdown ==> reaction(event)[0] is CancelRunning && reaction(event).last()
            is Settle,
        event is Revisions ==> reaction(event)[0] is SetRevisions,
{
    let r = reaction(event);
    match event {
        LoopEvent::Revisions => {
            assert(r[0] == LoopAction::SetRevisions && r[1] == LoopAction::SetRange);
        },
        LoopEvent::Notification => {
            assert(r[0] == LoopAction::UpdateView);
        },
        LoopEvent::Resize => {},
        LoopEvent::Shutdown => {
            assert(r[0] == LoopAction::CancelRunning && r[1] == LoopAction::CloseView && r[2]
                == LoopAction::Settle);
        },
    }
}

/// The message about a job names it, and the code with which it failed.
pub proof fn lemma_message_names_job(e: CliError)
    ensures
        e matches CliError::JobFailed { name, exit_code } ==> strings::has_part(e.message(), name@)
            && crate::job::ends_with(e.message(), strings::decimal(exit_code as int)),
        e matches CliError::JobInconclusive { name, reason } ==> strings::has_part(
            e.message(),
            name@,
        ) && crate::job::ends_with(e.message(), reason.text()),
        e matches CliError::NoSuchTest(name) ==> crate::job::ends_with(
            e.message(),
            strings::debug_text(name@),
        ),
        e matches CliError::NoRevision(name) ==> strings::has_part(
            e.message(),
            strings::debug_text(name@),
        ),
        e matches CliError::NoEntry { name, rev, hash } ==> strings::has_part(
            e.message(),
            strings::debug_text(name@),
        ) && strings::has_part(e.message(), strings::debug_text(rev@)) && strings::has_part(
            e.message(),
            hash@,
        ),
{
    let s = e.message();
    match e {
        CliError::JobFailed { name, exit_code } => {
            let m = "dependency job "@.len() as int;
            assert(s.subrange(m, m + name@.len()) =~= name@);
            let end = strings::decimal(exit_code as int);
            assert(s.skip(s.len() - end.len()) =~= end);
        },
        CliError::JobInconclusive { name, reason } => {
            let m = "running dependency job "@.len() as int;
            assert(s.subrange(m, m + name@.len()) =~= name@);
            let end = reason.text();
            assert(s.skip(s.len() - end.len()) =~= end);
        },
        CliError::NoSuchTest(name) => {
            let end = strings::debug_text(name@);
            assert(s.skip(s.len() - end.len()) =~= end);
        },
        CliError::NoRevision(name) => {
            let part = strings::debug_text(name@);
            let m = "revision "@.len() as int;
            assert(s.subrange(m, m + part.len()) =~= part);
        },
        CliError::NoEntry { name, rev, hash } => {
            let part = strings::debug_text(name@);
            let m = "no database entry for test "@.len() as int;
            assert(s.subrange(m, m + part.len()) =~= part);
            let front = "no database entry for test "@ + part + " at revision "@;
            let part = strings::debug_text(rev@);
            let m = front.len() as int;
            assert(s.subrange(m, m + part.len()) =~= part);
            let front = front + part + " after running ("@;
            let m = front.len() as int;
            assert(s.subrange(m, m + hash@.len()) =~= hash@);
        },
        _ => {},
    }
}

/// The output of a one-shot run is not kept, and goes to the given directory.
pub proof fn lemma_once_target(case: TestCase, output_dir: Seq<char>, result: crate::test::TestResult)
    ensures
        once_target(case, output_dir).dir == output_dir,
        crate::database::written(once_target(case, output_dir), result) is None,
        once_target(case, output_dir).config_hash == case.test.config_hash@,
{
}

/// For a one-shot run all that the test needs is got but a worktree, and its job
/// goes on without waiting for anything, in an environment that names the
/// repository.
pub proof fn lemma_one_shot_plan(
    plan: TestPlan,
    tests: TestDag,
    name: Seq<char>,
    head: Commit,
    repo_path: Seq<char>,
    num_worktrees: usize,
    key: crate::resource::KeyView,
)
    requires
        planned(plan, tests, name, head, repo_path, num_worktrees),
    ensures
        ({
            let wants = assoc::map_of(plan.wants@);
            let needs = named(tests, name).needs_resources@;
            &&& !wants.dom().contains(crate::resource::KeyView::Worktree)
            &&& !(key is Worktree) ==> (wants.dom().contains(key) <==> needs.dom().contains(key))
            &&& !(key is Worktree) && needs.dom().contains(key) ==> wants[key] == needs[key]
        }),
        plan.job.case().test == named(tests, name),
        plan.job.case().commit_hash@ == head.hash@,
        plan.job.awaited().len() == 0,
        plan.deps is None <==> needed(tests, name, false).len() == 0,
        crate::job::passes(
            crate::test::env_texts(plan.job.base_env()),
            "LIMMAT_ORIGIN"@,
            repo_path,
        ),
{
    assert(crate::test::env_texts(plan.job.base_env())[0] == ("LIMMAT_ORIGIN"@, repo_path));
}

/// What was asked for counts before all else, then the environment unless it is
/// empty, then the files, the one that is not hidden first; and there is no
/// configuration only if none of them is there.
pub proof fn lemma_config_place(arg: Option<String>, env: Option<String>, toml: bool, dot: bool)
    ensures
        arg matches Some(path) ==> config_place(arg, env, toml, dot) == Some(path@),
        arg is None ==> (env matches Some(path) ==> path@.len() > 0 ==> config_place(
            arg,
            env,
            toml,
            dot,
        ) == Some(path@)),
        arg is None && (env matches Some(path) ==> path@.len() == 0) ==> {
            &&& toml ==> config_place(arg, env, toml, dot) == Some("./limmat.toml"@)
            &&& !toml && dot ==> config_place(arg, env, toml, dot) == Some("./.limmat.toml"@)
            &&& !toml && !dot ==> config_place(arg, env, toml, dot) is None
        },
{
}

/// What was found is handed on as it is. There is nothing to hand on exactly if
/// the test would have to be run, and that is an error if it was run already.
pub proof fn lemma_judged(
    step: LookupStep,
    ran: bool,
    name: Seq<char>,
    rev: Seq<char>,
    hash: Seq<char>,
    r: Result<Lookup, CliError>,
)
    requires
        judged(step, ran, name, rev, hash, r),
    ensures
        r matches Ok(Lookup::Found(entry)) ==> step == LookupStep::FoundResult(entry),
        (r matches Ok(Lookup::Found(_))) <==> step is FoundResult,
        (r matches Ok(Lookup::Nothing)) <==> step is YouRunIt && !ran,
        (r matches Err(CliError::NoEntry { .. })) <==> step is YouRunIt && ran,
        r matches Err(CliError::NoEntry { name: n, rev: v, hash: h }) ==> n@ == name && v@ == rev
            && h@ == hash,
        (r matches Ok(Lookup::GoOn)) <==> step is Upgrade || step is Retry,
        (r matches Err(CliError::Contention)) <==> step is Contention,
{
}

/// An output is asked for in the file that it was written to: the standard
/// output in one, the error output in another.
pub proof fn lemma_output_files(a: GetOutput, b: GetOutput)
    ensures
        a is Stdout ==> output_file(a) == "stdout.txt"@,
        a is Stderr ==> output_file(a) == "stderr.txt"@,
        output_file(a) == output_file(b) <==> a == b,
{
    reveal_strlit("stdout.txt");
    reveal_strlit("stderr.txt");
    assert("stdout.txt"@[3] == 'o' && "stderr.txt"@[3] == 'e');
}

} // verus!

//! The configuration: the tests and the resources that the user has defined.
use std::sync::Arc;

use crate::assoc;
use crate::assoc::Assoc;
use crate::dag;
use crate::dag::{Dag, DagError, GraphNode};
use crate::digest;
use crate::digest::DigestHasher;
use crate::ident;
use crate::resource;
use crate::resource::{KeyView, Pools, ResourceKey};
use crate::strings;
use crate::test::{CachePolicy, TestDag, TestName};
use vstd::prelude::*;

verus! {

/// A resource, as it is defined or referred to in the configuration.
#[derive(Debug)]
pub enum Resource {
    /// Shorthand for describing a singular resource, equivalent to setting count=1.
    Bare(String),
    /// Specify resources where you don't care about the value of the token.
    Counted { name: String, count: usize },
    /// Specify resources with explicitly set token values. These will be passed
    /// into the job environment via LIMMAT_RESOURCE_<name>_<n> where n is 0-indexed.
    Explicit { name: String, tokens: Vec<String> },
}

/// A resource in the configuration, as texts.
pub enum ResourceView {
    Bare(Seq<char>),
    Counted(Seq<char>, usize),
    Explicit(Seq<char>, Seq<Seq<char>>),
}

impl View for Resource {
    type V = ResourceView;

    open spec fn view(&self) -> ResourceView {
        match self {
            Resource::Bare(name) => ResourceView::Bare(name@),
            Resource::Counted { name, count } => ResourceView::Counted(name@, *count),
            Resource::Explicit { name, tokens } => ResourceView::Explicit(
                name@,
                strings::texts(tokens@),
            ),
        }
    }
}

impl ResourceView {
    pub open spec fn name(self) -> Seq<char> {
        match self {
            ResourceView::Bare(name) => name,
            ResourceView::Counted(name, _) => name,
            ResourceView::Explicit(name, _) => name,
        }
    }

    pub open spec fn count(self) -> nat {
        match self {
            ResourceView::Bare(_) => 1,
            ResourceView::Counted(_, count) => count as nat,
            ResourceView::Explicit(_, tokens) => tokens.len(),
        }
    }

    /// The tokens of the resource: those that are given, or its name with
    /// numbers from 0 on.
    pub open spec fn tokens(self) -> Seq<Seq<char>> {
        match self {
            ResourceView::Explicit(_, tokens) => tokens,
            _ => Seq::new(
                self.count(),
                |i: int| self.name() + seq!['-'] + strings::decimal(i),
            ),
        }
    }

    /// The bytes that stand for the resource.
    pub open spec fn bytes(self) -> Seq<u8> {
        match self {
            ResourceView::Bare(name) => digest::number_bytes(0) + digest::text_bytes(name),
            ResourceView::Counted(name, count) => digest::number_bytes(1) + digest::text_bytes(name)
                + digest::number_bytes(count as nat),
            ResourceView::Explicit(name, tokens) => digest::number_bytes(2) + digest::text_bytes(
                name,
            ) + digest::list_bytes(tokens, digest::text_encoder()),
        }
    }
}

/// The names of resources.
pub open spec fn resource_names(resources: Seq<Resource>) -> Seq<Seq<char>> {
    Seq::new(resources.len(), |i: int| resources[i]@.name())
}

/// The resources of an optional list.
pub open spec fn resource_list(resources: Option<Vec<Resource>>) -> Seq<Resource> {
    match resources {
        Some(list) => list@,
        None => Seq::empty(),
    }
}

impl Resource {
    pub fn name(&self) -> (r: &str)
        ensures
            r@ == self@.name(),
    {
        match self {
            Resource::Bare(name) => name.as_str(),
            Resource::Counted { name, count: _ } => name.as_str(),
            Resource::Explicit { name, tokens: _ } => name.as_str(),
        }
    }

    pub fn count(&self) -> (r: usize)
        ensures
            r == self@.count(),
    {
        match self {
            Resource::Bare(_) => 1,
            Resource::Counted { name: _, count } => *count,
            Resource::Explicit { name: _, tokens } => tokens.len(),
        }
    }

    /// The tokens of the resource.
    fn tokens(&self) -> (r: Vec<String>)
        ensures
            strings::texts(r@) == self@.tokens(),
    {
        match self {
            Resource::Explicit { name: _, tokens } => strings::copy_texts(tokens),
            _ => {
                let count: usize = self.count();
                let mut out: Vec<String> = Vec::new();
                let mut i: usize = 0;
                while i < count
                    invariant
                        i <= count,
                        count == self@.count(),
                        !(self is Explicit),
                        strings::texts(out@) =~= self@.tokens().take(i as int),
                    decreases count - i,
                {
                    let mut token: String = String::from_str(self.name());
                    token.push('-');
                    token.append(strings::decimal_text(i as u64).as_str());
                    let ghost before = strings::texts(out@);
                    assert(token@ =~= self@.tokens()[i as int]);
                    out.push(token);
                    assert(strings::texts(out@) =~= before.push(token@));
                    i += 1;
                }
                assert(self@.tokens().take(i as int) =~= self@.tokens());
                out
            },
        }
    }

    /// Writes the bytes that stand for the resource.
    fn hash(&self, hasher: &mut DigestHasher)
        ensures
            final(hasher)@ == old(hasher)@ + self@.bytes(),
    {
        match self {
            Resource::Bare(name) => {
                hasher.write_number(0);
                hasher.write_text(name.as_str());
            },
            Resource::Counted { name, count } => {
                hasher.write_number(1);
                hasher.write_text(name.as_str());
                hasher.write_number(*count as u64);
            },
            Resource::Explicit { name, tokens } => {
                hasher.write_number(2);
                hasher.write_text(name.as_str());
                hasher.write_texts(tokens);
            },
        }
        assert(hasher@ =~= old(hasher)@ + self@.bytes());
    }
}

/// Tokens made up for a resource are all different.
pub proof fn lemma_counted_tokens_distinct(resource: ResourceView)
    requires
        !(resource is Explicit),
    ensures
        resource.tokens().no_duplicates(),
{
    let tokens = resource.tokens();
    assert forall|i: int, j: int|
        0 <= i < tokens.len() && 0 <= j < tokens.len() && i != j implies tokens[i]
        != tokens[j] by {
        if tokens[i] == tokens[j] {
            let n = resource.name().len() as int + 1;
            assert(tokens[i].skip(n) =~= strings::decimal(i));
            assert(tokens[j].skip(n) =~= strings::decimal(j));
            strings::lemma_decimal_injective(i, j);
        }
    }
}

/// The command of a test.
#[derive(Debug)]
pub enum Command {
    /// To be run by a shell.
    Shell(String),
    /// The program and its arguments.
    Raw(Vec<String>),
}

/// The command of a test, as texts.
pub enum CommandView {
    Shell(Seq<char>),
    Raw(Seq<Seq<char>>),
}

impl View for Command {
    type V = CommandView;

    open spec fn view(&self) -> CommandView {
        match self {
            Command::Shell(text) => CommandView::Shell(text@),
            Command::Raw(args) => CommandView::Raw(strings::texts(args@)),
        }
    }
}

impl CommandView {
    /// There is a program.
    pub open spec fn wf(self) -> bool {
        self matches CommandView::Raw(args) ==> args.len() > 0
    }

    pub open spec fn program(self) -> Seq<char> {
        match self {
            CommandView::Shell(_) => "bash"@,
            CommandView::Raw(args) => args[0],
        }
    }

    pub open spec fn args(self) -> Seq<Seq<char>> {
        match self {
            CommandView::Shell(text) => seq!["-c"@, text],
            CommandView::Raw(args) => args.skip(1),
        }
    }

    /// The bytes that stand for the command.
    pub open spec fn bytes(self) -> Seq<u8> {
        match self {
            CommandView::Shell(text) => digest::number_bytes(0) + digest::text_bytes(text),
            CommandView::Raw(args) => digest::number_bytes(1) + digest::list_bytes(
                args,
                digest::text_encoder(),
            ),
        }
    }
}

impl Command {
    /// Whether there is a program.
    pub fn has_program(&self) -> (r: bool)
        ensures
            r == self@.wf(),
    {
        match self {
            Command::Shell(_) => true,
            Command::Raw(args) => args.len() > 0,
        }
    }

    pub fn program(&self) -> (r: String)
        requires
            self@.wf(),
        ensures
            r@ == self@.program(),
    {
        match self {
            Command::Shell(_) => String::from_str("bash"),
            Command::Raw(args) => {
                assert(strings::texts(args@)[0] == args@[0]@);
                args[0].clone()
            },
        }
    }

    pub fn args(&self) -> (r: Vec<String>)
        requires
            self@.wf(),
        ensures
            strings::texts(r@) == self@.args(),
    {
        let mut out: Vec<String> = Vec::new();
        match self {
            Command::Shell(text) => {
                out.push(String::from_str("-c"));
                out.push(text.clone());
                assert(strings::texts(out@) =~= self@.args());
            },
            Command::Raw(args) => {
                let mut i: usize = 1;
                let ghost all = strings::texts(args@);
                while i < args.len()
                    invariant
                        1 <= i <= args@.len(),
                        all == strings::texts(args@),
                        strings::texts(out@) =~= all.subrange(1, i as int),
                    decreases args@.len() - i,
                {
                    let ghost before = strings::texts(out@);
                    out.push(args[i].clone());
                    assert(strings::texts(out@) =~= before.push(all[i as int]));
                    i += 1;
                }
                assert(strings::texts(out@) =~= self@.args());
            },
        }
        out
    }

    /// Writes the bytes that stand for the command.
    fn hash(&self, hasher: &mut DigestHasher)
        ensures
            final(hasher)@ == old(hasher)@ + self@.bytes(),
    {
        match self {
            Command::Shell(text) => {
                hasher.write_number(0);
                hasher.write_text(text.as_str());
            },
            Command::Raw(args) => {
                hasher.write_number(1);
                hasher.write_texts(args);
            },
        }
        assert(hasher@ =~= old(hasher)@ + self@.bytes());
    }
}

/// A test, as it is defined in the configuration.
#[derive(Debug)]
pub struct Test {
    pub name: String,
    pub command: Command,
    pub requires_worktree: bool,
    pub resources: Option<Vec<Resource>>,
    /// When a job is no longer needed it's SIGTERMed. If it doesn't respond (by
    /// dying) after this duration it will then be SIGKILLed. This also affects
    /// the overall shutdown of limmat so do not set this to longer than you are
    /// willing to wait when you terminate this program.
    pub shutdown_grace_period_s: u64,
    pub cache: CachePolicy,
    pub depends_on: Vec<String>,
    /// If the command exits with an error code listed in this field, instead of
    /// being considered a "failure", it's considered an "error". Errors are not
    /// cached - the erroring test will be re-run when Limmat restarts. You can
    /// use this to report environmental failures such as dependencies missing
    /// from the host system. 0 is not allowed.
    pub error_exit_codes: Vec<i32>,
}

/// A test in the configuration, as texts.
pub struct TestView {
    pub name: Seq<char>,
    pub command: CommandView,
    pub requires_worktree: bool,
    pub resources: Option<Seq<ResourceView>>,
    pub shutdown_grace_period_s: u64,
    pub cache: CachePolicy,
    pub depends_on: Seq<Seq<char>>,
    pub error_exit_codes: Seq<i32>,
}

/// An optional list of resources, as texts.
pub open spec fn resources_view(resources: Option<Vec<Resource>>) -> Option<Seq<ResourceView>> {
    match resources {
        Some(list) => Some(ident::views(list@)),
        None => None,
    }
}

impl View for Test {
    type V = TestView;

    open spec fn view(&self) -> TestView {
        TestView {
            name: self.name@,
            command: self.command@,
            requires_worktree: self.requires_worktree,
            resources: resources_view(self.resources),
            shutdown_grace_period_s: self.shutdown_grace_period_s,
            cache: self.cache,
            depends_on: strings::texts(self.depends_on@),
            error_exit_codes: self.error_exit_codes@,
        }
    }
}

/// The encoder of resources.
pub open spec fn resource_encoder() -> spec_fn(ResourceView) -> Seq<u8> {
    |r: ResourceView| r.bytes()
}

/// The number that stands for a caching policy.
pub open spec fn policy_number(cache: CachePolicy) -> nat {
    match cache {
        CachePolicy::NoCaching => 0,
        CachePolicy::ByCommit => 1,
        CachePolicy::ByTree => 2,
    }
}

impl TestView {
    /// The bytes that stand for the resources.
    pub open spec fn resource_bytes(self) -> Seq<u8> {
        match self.resources {
            None => digest::number_bytes(0),
            Some(list) => digest::number_bytes(1) + digest::list_bytes(list, resource_encoder()),
        }
    }

    /// The bytes that stand for the test.
    pub open spec fn bytes(self) -> Seq<u8> {
        digest::text_bytes(self.name) + (self.command.bytes() + (digest::flag_bytes(
            self.requires_worktree,
        ) + (self.resource_bytes() + (digest::number_bytes(self.shutdown_grace_period_s as nat) + (
        digest::number_bytes(policy_number(self.cache)) + (digest::list_bytes(
            self.depends_on,
            digest::text_encoder(),
        ) + digest::list_bytes(self.error_exit_codes, digest::signed_encoder())))))))
    }

    /// Lengths fit in machine words, as those of real lists do.
    pub open spec fn sized(self) -> bool {
        &&& self.depends_on.len() <= usize::MAX
        &&& self.error_exit_codes.len() <= usize::MAX
        &&& self.resources matches Some(list) ==> list.len() <= usize::MAX && forall|i: int|
            0 <= i < list.len() ==> sized_resource(#[trigger] list[i])
        &&& self.command matches CommandView::Raw(args) ==> args.len() <= usize::MAX
    }
}

/// The length of a list of tokens fits in a machine word.
pub open spec fn sized_resource(r: ResourceView) -> bool {
    r matches ResourceView::Explicit(_, tokens) ==> tokens.len() <= usize::MAX
}

/// The bytes of resources are self-delimiting.
proof fn lemma_resource_bytes()
    ensures
        digest::self_delimiting(|r: ResourceView| sized_resource(r), resource_encoder()),
{
    let enc = resource_encoder();
    assert forall|a: ResourceView, b: ResourceView, x: Seq<u8>, y: Seq<u8>|
        #![trigger enc(a) + x, enc(b) + y]
        sized_resource(a) && sized_resource(b) && enc(a) + x == enc(b) + y implies a == b && x
        == y by {
        let text = digest::text_encoder();
        let tail_a = resource_tail(a);
        let tail_b = resource_tail(b);
        let kind_a = resource_kind(a);
        let kind_b = resource_kind(b);
        assert(a.bytes() + x =~= digest::number_bytes(kind_a) + (text(a.name()) + (tail_a + x)));
        assert(b.bytes() + y =~= digest::number_bytes(kind_b) + (text(b.name()) + (tail_b + y)));
        digest::lemma_numbers(
            kind_a,
            kind_b,
            text(a.name()) + (tail_a + x),
            text(b.name()) + (tail_b + y),
        );
        digest::lemma_text(a.name(), b.name(), tail_a + x, tail_b + y);
        match (a, b) {
            (ResourceView::Counted(_, m), ResourceView::Counted(_, n)) => {
                digest::lemma_numbers(m as nat, n as nat, x, y);
            },
            (ResourceView::Explicit(_, s), ResourceView::Explicit(_, t)) => {
                digest::lemma_text_lists(s, t, x, y);
            },
            _ => {
                assert(tail_a + x =~= x);
                assert(tail_b + y =~= y);
            },
        }
    }
}

spec fn resource_kind(r: ResourceView) -> nat {
    match r {
        ResourceView::Bare(_) => 0,
        ResourceView::Counted(_, _) => 1,
        ResourceView::Explicit(_, _) => 2,
    }
}

spec fn resource_tail(r: ResourceView) -> Seq<u8> {
    match r {
        ResourceView::Bare(_) => Seq::empty(),
        ResourceView::Counted(_, count) => digest::number_bytes(count as nat),
        ResourceView::Explicit(_, tokens) => digest::list_bytes(tokens, digest::text_encoder()),
    }
}

proof fn lemma_command_bytes(a: CommandView, b: CommandView, x: Seq<u8>, y: Seq<u8>)
    requires
        a matches CommandView::Raw(args) ==> args.len() <= usize::MAX,
        b matches CommandView::Raw(args) ==> args.len() <= usize::MAX,
        a.bytes() + x == b.bytes() + y,
    ensures
        a == b,
        x == y,
{
    let text = digest::text_encoder();
    let tail_a = match a {
        CommandView::Shell(s) => text(s),
        CommandView::Raw(args) => digest::list_bytes(args, text),
    };
    let tail_b = match b {
        CommandView::Shell(s) => text(s),
        CommandView::Raw(args) => digest::list_bytes(args, text),
    };
    let kind_a: nat = if a is Shell { 0 } else { 1 };
    let kind_b: nat = if b is Shell { 0 } else { 1 };
    assert(a.bytes() + x =~= digest::number_bytes(kind_a) + (tail_a + x));
    assert(b.bytes() + y =~= digest::number_bytes(kind_b) + (tail_b + y));
    digest::lemma_numbers(kind_a, kind_b, tail_a + x, tail_b + y);
    match (a, b) {
        (CommandView::Shell(s), CommandView::Shell(t)) => {
            digest::lemma_text(s, t, x, y);
        },
        (CommandView::Raw(s), CommandView::Raw(t)) => {
            digest::lemma_text_lists(s, t, x, y);
        },
        _ => {},
    }
}

proof fn lemma_resources_bytes(a: TestView, b: TestView, x: Seq<u8>, y: Seq<u8>)
    requires
        a.sized(),
        b.sized(),
        a.resource_bytes() + x == b.resource_bytes() + y,
    ensures
        a.resources == b.resources,
        x == y,
{
    lemma_resource_bytes();
    let enc = resource_encoder();
    let tail_a = match a.resources {
        None => Seq::empty(),
        Some(list) => digest::list_bytes(list, enc),
    };
    let tail_b = match b.resources {
        None => Seq::empty(),
        Some(list) => digest::list_bytes(list, enc),
    };
    let kind_a: nat = if a.resources is None { 0 } else { 1 };
    let kind_b: nat = if b.resources is None { 0 } else { 1 };
    assert(a.resource_bytes() + x =~= digest::number_bytes(kind_a) + (tail_a + x));
    assert(b.resource_bytes() + y =~= digest::number_bytes(kind_b) + (tail_b + y));
    digest::lemma_numbers(kind_a, kind_b, tail_a + x, tail_b + y);
    match (a.resources, b.resources) {
        (Some(s), Some(t)) => {
            digest::lemma_lists(|r: ResourceView| sized_resource(r), enc, s, t, x, y);
        },
        _ => {
            assert(tail_a + x =~= x);
            assert(tail_b + y =~= y);
        },
    }
}

/// The bytes of tests are self-delimiting.
pub proof fn lemma_test_bytes(a: TestView, b: TestView, x: Seq<u8>, y: Seq<u8>)
    requires
        a.sized(),
        b.sized(),
        a.bytes() + x == b.bytes() + y,
    ensures
        a == b,
        x == y,
{
    let text = digest::text_encoder();
    let codes = digest::signed_encoder();
    // What is left of the bytes after each of the fields.
    let a8 = digest::list_bytes(a.error_exit_codes, codes);
    let b8 = digest::list_bytes(b.error_exit_codes, codes);
    let a7 = digest::list_bytes(a.depends_on, text) + a8;
    let b7 = digest::list_bytes(b.depends_on, text) + b8;
    let a6 = digest::number_bytes(policy_number(a.cache)) + a7;
    let b6 = digest::number_bytes(policy_number(b.cache)) + b7;
    let a5 = digest::number_bytes(a.shutdown_grace_period_s as nat) + a6;
    let b5 = digest::number_bytes(b.shutdown_grace_period_s as nat) + b6;
    let a4 = a.resource_bytes() + a5;
    let b4 = b.resource_bytes() + b5;
    let a3 = digest::flag_bytes(a.requires_worktree) + a4;
    let b3 = digest::flag_bytes(b.requires_worktree) + b4;
    let a2 = a.command.bytes() + a3;
    let b2 = b.command.bytes() + b3;
    digest::lemma_regroup(digest::text_bytes(a.name), a2, x);
    digest::lemma_regroup(digest::text_bytes(b.name), b2, y);
    digest::lemma_text(a.name, b.name, a2 + x, b2 + y);
    digest::lemma_regroup(a.command.bytes(), a3, x);
    digest::lemma_regroup(b.command.bytes(), b3, y);
    lemma_command_bytes(a.command, b.command, a3 + x, b3 + y);
    digest::lemma_regroup(digest::flag_bytes(a.requires_worktree), a4, x);
    digest::lemma_regroup(digest::flag_bytes(b.requires_worktree), b4, y);
    digest::lemma_flags(a.requires_worktree, b.requires_worktree, a4 + x, b4 + y);
    digest::lemma_regroup(a.resource_bytes(), a5, x);
    digest::lemma_regroup(b.resource_bytes(), b5, y);
    lemma_resources_bytes(a, b, a5 + x, b5 + y);
    digest::lemma_regroup(digest::number_bytes(a.shutdown_grace_period_s as nat), a6, x);
    digest::lemma_regroup(digest::number_bytes(b.shutdown_grace_period_s as nat), b6, y);
    digest::lemma_numbers(
        a.shutdown_grace_period_s as nat,
        b.shutdown_grace_period_s as nat,
        a6 + x,
        b6 + y,
    );
    digest::lemma_regroup(digest::number_bytes(policy_number(a.cache)), a7, x);
    digest::lemma_regroup(digest::number_bytes(policy_number(b.cache)), b7, y);
    digest::lemma_numbers(policy_number(a.cache), policy_number(b.cache), a7 + x, b7 + y);
    digest::lemma_regroup(digest::list_bytes(a.depends_on, text), a8, x);
    digest::lemma_regroup(digest::list_bytes(b.depends_on, text), b8, y);
    digest::lemma_text_lists(a.depends_on, b.depends_on, a8 + x, b8 + y);
    digest::lemma_signed_lists(a.error_exit_codes, b.error_exit_codes, x, y);
}

/// What is hashed for a test: its own definition, and the hashes of the tests
/// that it depends on.
pub open spec fn config_bytes(test: TestView, dep_hashes: Seq<Seq<char>>) -> Seq<u8> {
    test.bytes() + digest::each(dep_hashes, digest::text_encoder())
}

/// The hash of the configuration of a test.
pub open spec fn config_hash(test: TestView, dep_hashes: Seq<Seq<char>>) -> Seq<char> {
    digest::hex_text(digest::sha3_256(config_bytes(test, dep_hashes)))
}

/// A change to the definition of a test, or to that of a test that it depends
/// on (which changes the hash of that one), changes what is hashed for it.
pub proof fn lemma_config_change_is_seen(
    a: TestView,
    a_hashes: Seq<Seq<char>>,
    b: TestView,
    b_hashes: Seq<Seq<char>>,
)
    requires
        a.sized(),
        b.sized(),
        a_hashes.len() == a.depends_on.len(),
        b_hashes.len() == b.depends_on.len(),
        config_bytes(a, a_hashes) == config_bytes(b, b_hashes),
    ensures
        a == b,
        a_hashes == b_hashes,
{
    let text = digest::text_encoder();
    let x = digest::each(a_hashes, text);
    let y = digest::each(b_hashes, text);
    lemma_test_bytes(a, b, x, y);
    digest::lemma_texts();
    let none = Seq::<u8>::empty();
    assert(x + none =~= x);
    assert(y + none =~= y);
    digest::lemma_each(digest::all_values(), text, a_hashes, b_hashes, none, none);
}

// This implementation is only valid for tests among those registered for a single Manager.
impl GraphNode for Test {
    type NodeId = String;

    open spec fn node_id(&self) -> Seq<char> {
        self.name@
    }

    open spec fn node_children(&self) -> Seq<Seq<char>> {
        strings::texts(self.depends_on@)
    }

    fn id(&self) -> (r: String) {
        self.name.clone()
    }

    fn child_ids(&self) -> (r: Vec<String>) {
        strings::copy_texts(&self.depends_on)
    }
}

/// Why the definition of a test is not accepted.
#[derive(Debug, PartialEq, Eq)]
pub enum TestError {
    /// It refers to a resource twice.
    DuplicateResource(String),
    /// The exit code 0 cannot mean an error.
    ZeroErrorCode,
}

impl TestError {
    /// The message for this error.
    pub open spec fn message(&self) -> Seq<char> {
        match self {
            TestError::DuplicateResource(name) => "duplicate resource reference "@
                + strings::debug_text(name@),
            TestError::ZeroErrorCode => "error_exit_codes must not contain 0"@,
        }
    }

    /// The message for this error.
    pub fn to_string(&self) -> (r: String)
        ensures
            r@ == self.message(),
    {
        match self {
            TestError::DuplicateResource(name) => {
                let mut out: String = String::from_str("duplicate resource reference ");
                out.append(strings::debug_string(name.as_str()).as_str());
                out
            },
            TestError::ZeroErrorCode => String::from_str("error_exit_codes must not contain 0"),
        }
    }
}

/// The names of the resources that a test refers to.
pub open spec fn referred(conf: Test) -> Seq<Seq<char>> {
    resource_names(resource_list(conf.resources))
}

/// The definition of a test is accepted.
pub open spec fn acceptable(conf: Test) -> bool {
    &&& referred(conf).no_duplicates()
    &&& !conf.error_exit_codes@.contains(0)
}

/// The reason why the definition of a test is not accepted.
pub open spec fn is_test_error(conf: Test, e: TestError) -> bool {
    match e {
        TestError::DuplicateResource(name) => exists|k: int| #[trigger]
            dag::first_duplicate(referred(conf), k) && name@ == referred(conf)[k],
        TestError::ZeroErrorCode => referred(conf).no_duplicates()
            && conf.error_exit_codes@.contains(0),
    }
}

/// How many tokens of user-defined resources are needed.
pub open spec fn needed_tokens(resources: Seq<Resource>) -> Map<KeyView, usize>
    decreases resources.len(),
{
    if resources.len() == 0 {
        Map::empty()
    } else {
        needed_tokens(resources.drop_last()).insert(
            KeyView::UserToken(resources.last()@.name()),
            resources.last()@.count() as usize,
        )
    }
}

/// How many resources of each kind a test needs.
pub open spec fn needed(conf: Test) -> Map<KeyView, usize> {
    let tokens = needed_tokens(resource_list(conf.resources));
    if conf.requires_worktree {
        tokens.insert(KeyView::Worktree, 1)
    } else {
        tokens
    }
}

/// The hashes of the configurations of the named tests.
pub open spec fn dep_hashes(
    names: Seq<Seq<char>>,
    tests: Seq<Arc<crate::test::Test>>,
) -> Seq<Seq<char>> {
    Seq::new(
        names.len(),
        |i: int| tests[ident::last_position(dag::ids(tests), names[i])].config_hash@,
    )
}

/// `test` is what the definition `conf` stands for, where `others` are tests
/// among which are those that it depends on.
pub open spec fn parses_to(
    conf: Test,
    others: Seq<Arc<crate::test::Test>>,
    test: crate::test::Test,
) -> bool {
    &&& test.wf()
    &&& test.name@ == conf.name@
    &&& test.program@ == conf.command@.program()
    &&& strings::texts(test.args@) == conf.command@.args()
    &&& test.needs_resources@ == needed(conf)
    &&& test.shutdown_grace_period == conf.shutdown_grace_period_s
    &&& test.cache_policy == conf.cache
    &&& test.config_hash@ == config_hash(
        conf@,
        dep_hashes(strings::texts(conf.depends_on@), others),
    )
    &&& ident::views(test.depends_on@) == strings::texts(conf.depends_on@)
    &&& test.error_exit_codes@ == conf.error_exit_codes@
}

/// The position of the first resource that was referred to before.
fn repeated(resources: &Vec<Resource>) -> (r: Option<usize>)
    ensures
        match r {
            Some(k) => dag::first_duplicate(resource_names(resources@), k as int),
            None => resource_names(resources@).no_duplicates(),
        },
{
    let ghost names = resource_names(resources@);
    let mut k: usize = 0;
    while k < resources.len()
        invariant
            k <= resources@.len(),
            names == resource_names(resources@),
            names.take(k as int).no_duplicates(),
        decreases resources@.len() - k,
    {
        let name: String = String::from_str(resources[k].name());
        let mut j: usize = 0;
        while j < k
            invariant
                j <= k < resources@.len(),
                names == resource_names(resources@),
                name@ == names[k as int],
                names.take(k as int).no_duplicates(),
                forall|m: int| 0 <= m < j ==> names[m] != names[k as int],
            decreases k - j,
        {
            if strings::is_text(&name, resources[j].name()) {
                assert(names.take(k as int)[j as int] == names[k as int]);
                return Some(k);
            }
            j += 1;
        }
        k += 1;
    }
    assert(names.take(k as int) =~= names);
    None
}

impl Test {
    /// The resources that it refers to.
    fn needs(&self) -> (r: Assoc<ResourceKey, usize>)
        ensures
            r.wf(),
            r@ == needed(*self),
    {
        let mut needs: Assoc<ResourceKey, usize> = Assoc::new();
        match &self.resources {
            Some(list) => {
                let mut i: usize = 0;
                assert(list@.take(0) =~= Seq::empty());
                while i < list.len()
                    invariant
                        i <= list@.len(),
                        needs.wf(),
                        needs@ == needed_tokens(list@.take(i as int)),
                    decreases list@.len() - i,
                {
                    assert(list@.take(i + 1).drop_last() =~= list@.take(i as int));
                    needs.insert(
                        ResourceKey::UserToken(String::from_str(list[i].name())),
                        list[i].count(),
                    );
                    i += 1;
                }
                assert(list@.take(i as int) =~= list@);
            },
            None => {},
        }
        if self.requires_worktree {
            needs.insert(ResourceKey::Worktree, 1);
        }
        needs
    }

    /// Writes the bytes that stand for the resources.
    fn hash_resources(&self, hasher: &mut DigestHasher)
        ensures
            final(hasher)@ == old(hasher)@ + self@.resource_bytes(),
    {
        match &self.resources {
            None => {
                hasher.write_number(0);
            },
            Some(list) => {
                hasher.write_number(1);
                let ghost start = hasher@ + digest::number_bytes(list@.len());
                let ghost all = ident::views(list@);
                let ghost enc = resource_encoder();
                hasher.write_number(list.len() as u64);
                let mut i: usize = 0;
                assert(all.take(0) =~= Seq::empty());
                assert(hasher@ =~= start + digest::each(all.take(0), enc));
                while i < list.len()
                    invariant
                        i <= list@.len(),
                        all == ident::views(list@),
                        enc == resource_encoder(),
                        hasher@ == start + digest::each(all.take(i as int), enc),
                    decreases list@.len() - i,
                {
                    assert(all.take(i + 1).drop_last() =~= all.take(i as int));
                    assert(all.take(i + 1).last() == all[i as int]);
                    list[i].hash(hasher);
                    assert(hasher@ =~= start + digest::each(all.take(i + 1), enc));
                    i += 1;
                }
                assert(all.take(i as int) =~= all);
            },
        }
        assert(hasher@ =~= old(hasher)@ + self@.resource_bytes());
    }

    /// Writes the bytes that stand for the test.
    fn hash(&self, hasher: &mut DigestHasher)
        ensures
            final(hasher)@ == old(hasher)@ + self@.bytes(),
    {
        let ghost h0 = hasher@;
        hasher.write_text(self.name.as_str());
        let ghost h1 = hasher@;
        self.command.hash(hasher);
        let ghost h2 = hasher@;
        hasher.write_flag(self.requires_worktree);
        let ghost h3 = hasher@;
        self.hash_resources(hasher);
        let ghost h4 = hasher@;
        hasher.write_number(self.shutdown_grace_period_s);
        let ghost h5 = hasher@;
        let cache: u64 = match self.cache {
            CachePolicy::NoCaching => 0,
            CachePolicy::ByCommit => 1,
            CachePolicy::ByTree => 2,
        };
        hasher.write_number(cache);
        let ghost h6 = hasher@;
        hasher.write_texts(&self.depends_on);
        let ghost h7 = hasher@;
        hasher.write_signed_numbers(&self.error_exit_codes);
        proof {
            let view = self@;
            let p1 = digest::text_bytes(view.name);
            let p2 = view.command.bytes();
            let p3 = digest::flag_bytes(view.requires_worktree);
            let p4 = view.resource_bytes();
            let p5 = digest::number_bytes(view.shutdown_grace_period_s as nat);
            let p6 = digest::number_bytes(policy_number(view.cache));
            let p7 = digest::list_bytes(view.depends_on, digest::text_encoder());
            let p8 = digest::list_bytes(view.error_exit_codes, digest::signed_encoder());
            digest::lemma_regroup(h6, p7, p8);
            digest::lemma_regroup(h5, p6, p7 + p8);
            digest::lemma_regroup(h4, p5, p6 + (p7 + p8));
            digest::lemma_regroup(h3, p4, p5 + (p6 + (p7 + p8)));
            digest::lemma_regroup(h2, p3, p4 + (p5 + (p6 + (p7 + p8))));
            digest::lemma_regroup(h1, p2, p3 + (p4 + (p5 + (p6 + (p7 + p8)))));
            digest::lemma_regroup(h0, p1, p2 + (p3 + (p4 + (p5 + (p6 + (p7 + p8))))));
        }
    }

    /// Whether the definition is accepted.
    pub fn is_acceptable(&self) -> (r: bool)
        ensures
            r == acceptable(*self),
    {
        if let Some(list) = &self.resources {
            if let Some(k) = repeated(list) {
                proof {
                    let names = referred(*self);
                    let j = names.take(k as int).index_of(names[k as int]);
                    assert(names[j] == names[k as int]);
                }
                return false;
            }
        }
        let mut i: usize = 0;
        while i < self.error_exit_codes.len()
            invariant
                i <= self.error_exit_codes@.len(),
                forall|k: int| 0 <= k < i ==> self.error_exit_codes@[k] != 0,
                referred(*self).no_duplicates(),
            decreases self.error_exit_codes@.len() - i,
        {
            if self.error_exit_codes[i] == 0 {
                assert(self.error_exit_codes@[i as int] == 0);
                return false;
            }
            i += 1;
        }
        true
    }

    /// Convert to the "real" object. `other_tests` is the set of other tests
    /// that have already been parsed, among which must be those that this test
    /// depends on.
    pub fn parse(&self, other_tests: &TestDag) -> (r: Result<crate::test::Test, TestError>)
        requires
            acceptable(*self) ==> self.command@.wf(),
            referred(*self).no_duplicates() ==> dag::all_present(
                dag::ids(other_tests.node_seq()),
                strings::texts(self.depends_on@),
            ),
        ensures
            r is Ok <==> acceptable(*self),
            match r {
                Ok(test) => parses_to(*self, other_tests.node_seq(), test),
                Err(e) => is_test_error(*self, e),
            },
    {
        match &self.resources {
            Some(list) => match repeated(list) {
                Some(k) => {
                    proof {
                        let names = referred(*self);
                        assert(dag::first_duplicate(names, k as int));
                        let j = names.take(k as int).index_of(names[k as int]);
                        assert(names[j] == names[k as int]);
                    }
                    return Err(TestError::DuplicateResource(String::from_str(list[k].name())));
                },
                None => {},
            },
            None => {},
        }
        let needs_resources = self.needs();
        // Hash the config, also taking into account the hashes of the
        // dependency test configs.
        let mut hasher = DigestHasher::new();
        self.hash(&mut hasher);
        let ghost own = self@.bytes();
        assert(hasher@ =~= own);
        let ghost names = strings::texts(self.depends_on@);
        let ghost others = other_tests.node_seq();
        let ghost hashes = dep_hashes(names, others);
        let ghost enc = digest::text_encoder();
        let mut depends_on: Vec<TestName> = Vec::new();
        let mut i: usize = 0;
        assert(hashes.take(0) =~= Seq::empty());
        assert(own + digest::each(hashes.take(0), enc) =~= own);
        while i < self.depends_on.len()
            invariant
                i <= self.depends_on@.len(),
                names == strings::texts(self.depends_on@),
                others == other_tests.node_seq(),
                dag::all_present(dag::ids(others), names),
                hashes == dep_hashes(names, others),
                enc == digest::text_encoder(),
                hasher@ == own + digest::each(hashes.take(i as int), enc),
                ident::views(depends_on@) =~= names.take(i as int),
            decreases self.depends_on@.len() - i,
        {
            let name = TestName::new(self.depends_on[i].clone());
            assert(name@ == names[i as int]);
            assert(dag::ids(others).contains(names[i as int]));
            assert(hashes.take(i + 1).drop_last() =~= hashes.take(i as int));
            assert(hashes.take(i + 1).last() == hashes[i as int]);
            match other_tests.node(&name) {
                Some(dep) => {
                    hasher.write_text(dep.config_hash.as_str());
                },
                None => {
                    assert(false);
                },
            }
            assert(hasher@ =~= own + digest::each(hashes.take(i + 1), enc));
            let ghost before = ident::views(depends_on@);
            depends_on.push(name);
            assert(ident::views(depends_on@) =~= before.push(names[i as int]));
            i += 1;
        }
        assert(hashes.take(i as int) =~= hashes);
        assert(names.take(i as int) =~= names);
        let config_hash = hasher.finish();
        let mut error_exit_codes: Vec<i32> = Vec::new();
        let mut i: usize = 0;
        while i < self.error_exit_codes.len()
            invariant
                i <= self.error_exit_codes@.len(),
                error_exit_codes@ =~= self.error_exit_codes@.take(i as int),
                !self.error_exit_codes@.take(i as int).contains(0),
                referred(*self).no_duplicates(),
            decreases self.error_exit_codes@.len() - i,
        {
            let code: i32 = self.error_exit_codes[i];
            if code == 0 {
                assert(self.error_exit_codes@[i as int] == 0);
                return Err(TestError::ZeroErrorCode);
            }
            error_exit_codes.push(code);
            assert(!self.error_exit_codes@.take(i + 1).contains(0)) by {
                let codes = self.error_exit_codes@;
                if codes.take(i + 1).contains(0) {
                    let k = codes.take(i + 1).index_of(0);
                    if k < i {
                        assert(codes.take(i as int)[k] == 0);
                    }
                }
            }
            i += 1;
        }
        assert(self.error_exit_codes@.take(i as int) =~= self.error_exit_codes@);
        Ok(
            crate::test::Test {
                name: TestName::new(self.name.clone()),
                program: self.command.program(),
                args: self.command.args(),
                needs_resources,
                shutdown_grace_period: self.shutdown_grace_period_s,
                cache_policy: self.cache,
                config_hash,
                depends_on,
                error_exit_codes,
            },
        )
    }
}

/// Whether a test needs a worktree, unless the configuration says so.
pub fn default_requires_worktree() -> (r: bool)
    ensures
        r,
{
    true
}

/// What results are filed under, unless the configuration says so. Almost all
/// of the time you want `ByTree`, but `ByCommit` will give you most of the
/// value.
pub fn default_cache_policy() -> (r: CachePolicy)
    ensures
        r == CachePolicy::ByCommit,
{
    CachePolicy::ByCommit
}

/// How many seconds a test gets for shutting down, unless the configuration
/// says so.
pub fn default_shutdown_grace_period() -> (r: u64)
    ensures
        r == 60,
{
    60
}

/// How many worktrees there are, unless the configuration says so.
pub fn default_num_worktrees() -> (r: usize)
    ensures
        r == 8,
{
    8
}

/// The configuration.
#[derive(Debug)]
pub struct Config {
    pub num_worktrees: usize,
    pub resources: Option<Vec<Resource>>,
    pub tests: Vec<Test>,
}

/// Tokens of resources.
pub type ResourceTokens = Assoc<ResourceKey, Vec<String>>;

/// The tokens of each resource. Of two resources with the same name the later
/// one counts.
pub open spec fn tokens_map(resources: Seq<Resource>) -> Map<KeyView, Seq<Seq<char>>>
    decreases resources.len(),
{
    if resources.len() == 0 {
        Map::empty()
    } else {
        tokens_map(resources.drop_last()).insert(
            KeyView::UserToken(resources.last()@.name()),
            resources.last()@.tokens(),
        )
    }
}

/// A map to lists of strings, as texts.
pub open spec fn token_texts(m: Map<KeyView, Vec<String>>) -> Map<KeyView, Seq<Seq<char>>> {
    Map::new(|k: KeyView| m.dom().contains(k), |k: KeyView| strings::texts(m[k]@))
}

/// Why a configuration is not accepted.
#[derive(Debug, PartialEq, Eq)]
pub enum ConfigError {
    /// The tests cannot be put in order.
    Graph(DagError<String>),
    /// The definition of a test is not accepted.
    Test(TestError),
    /// A test refers to a resource that is not defined.
    UndefinedResource { resource: String, test: TestName },
}

impl ConfigError {
    /// The message for this error.
    pub open spec fn message(&self) -> Seq<char> {
        match self {
            ConfigError::Graph(e) => "parsing test dependency graph: "@ + e.message(),
            ConfigError::Test(e) => "parsing tests: "@ + e.message(),
            ConfigError::UndefinedResource { resource, test } => "undefined resource "@
                + strings::debug_text(resource@) + " referenced in test "@ + strings::debug_text(
                test@,
            ),
        }
    }

    /// The message for this error.
    pub fn to_string(&self) -> (r: String)
        ensures
            r@ == self.message(),
    {
        match self {
            ConfigError::Graph(e) => {
                let mut out: String = String::from_str("parsing test dependency graph: ");
                out.append(e.to_string().as_str());
                out
            },
            ConfigError::Test(e) => {
                let mut out: String = String::from_str("parsing tests: ");
                out.append(e.to_string().as_str());
                out
            },
            ConfigError::UndefinedResource { resource, test } => {
                let mut out: String = String::from_str("undefined resource ");
                out.append(strings::debug_string(resource.as_str()).as_str());
                out.append(" referenced in test ");
                out.append(strings::debug_string(test.as_str()).as_str());
                out
            },
        }
    }
}

/// The tests can be put in order.
pub open spec fn orderly(tests: Seq<Test>) -> bool {
    &&& dag::ids(tests).no_duplicates()
    &&& dag::children_present(tests)
    &&& dag::acyclic(dag::adjacency(tests))
}

/// The order in which tests are parsed: those that a test depends on before
/// it.
pub open spec fn parse_order(tests: Seq<Test>) -> Seq<usize> {
    dag::search(dag::adjacency(tests), dag::all_nodes(tests.len())).order
}

/// There is a program for every test whose definition is made sense of: for
/// each that is accepted, up to the first that is not.
pub open spec fn programs_given(tests: Seq<Test>) -> bool {
    let order = parse_order(tests);
    orderly(tests) ==> forall|k: int|
        0 <= k < order.len() && (forall|j: int|
            0 <= j <= k ==> acceptable(tests[#[trigger] order[j] as int]))
            ==> (#[trigger] tests[order[k] as int]).command@.wf()
}

/// The resources that a test refers to are defined.
pub open spec fn all_defined(conf: Test, defined: Set<KeyView>) -> bool {
    forall|i: int|
        0 <= i < referred(conf).len() ==> defined.contains(
            KeyView::UserToken(#[trigger] referred(conf)[i]),
        )
}

/// `parsed` are the tests that the definitions stand for, in the order in
/// which they are parsed.
pub open spec fn all_parsed(tests: Seq<Test>, parsed: Seq<Arc<crate::test::Test>>) -> bool {
    let order = parse_order(tests);
    &&& parsed.len() == tests.len() == order.len()
    &&& forall|k: int|
        0 <= k < parsed.len() ==> parses_to(
            tests[order[k] as int],
            parsed.take(k),
            *#[trigger] parsed[k],
        )
}

/// The reason why a configuration with these tests is not accepted, where
/// `defined` are the resources that it defines: what is wrong first, of the
/// graph, of the definitions in the order in which they are parsed, and of the
/// references in that order.
pub open spec fn is_config_error(
    tests: Seq<Test>,
    defined: Set<KeyView>,
    e: ConfigError,
) -> bool {
    let order = parse_order(tests);
    match e {
        ConfigError::Graph(e) => !orderly(tests) && dag::is_reason(tests, e),
        ConfigError::Test(e) => {
            &&& orderly(tests)
            &&& exists|k: int|
                0 <= k < order.len() && is_test_error(tests[#[trigger] order[k] as int], e)
                    && forall|j: int|
                    0 <= j < k ==> acceptable(tests[#[trigger] order[j] as int])
        },
        ConfigError::UndefinedResource { resource, test } => {
            &&& orderly(tests)
            &&& forall|i: int| 0 <= i < tests.len() ==> acceptable(#[trigger] tests[i])
            &&& exists|k: int|
                0 <= k < order.len() && test@ == tests[#[trigger] order[k] as int].name@
                    && referred(tests[order[k] as int]).contains(resource@) && !defined.contains(
                    KeyView::UserToken(resource@),
                ) && forall|j: int|
                    0 <= j < k ==> all_defined(tests[#[trigger] order[j] as int], defined)
        },
    }
}

/// The tokens that are needed are those of the resources referred to.
proof fn lemma_needed_tokens(resources: Seq<Resource>, key: KeyView)
    ensures
        needed_tokens(resources).dom().contains(key) <==> (key matches KeyView::UserToken(name)
            && resource_names(resources).contains(name)),
    decreases resources.len(),
{
    let names = resource_names(resources);
    if resources.len() > 0 {
        let rest = resources.drop_last();
        lemma_needed_tokens(rest, key);
        assert(resource_names(rest) =~= names.drop_last());
        if let KeyView::UserToken(name) = key {
            if names.contains(name) {
                let i = names.index_of(name);
                if i < rest.len() {
                    assert(resource_names(rest)[i] == name);
                }
            }
            if resource_names(rest).contains(name) {
                let i = resource_names(rest).index_of(name);
                assert(names[i] == name);
            }
            if resources.last()@.name() == name {
                assert(names[resources.len() - 1] == name);
            }
        }
    }
}

/// The name of a resource that a test needs and that is not defined.
fn undefined_resource(
    test: &crate::test::Test,
    resource_tokens: &ResourceTokens,
) -> (r: Option<String>)
    requires
        test.wf(),
        resource_tokens.wf(),
    ensures
        match r {
            Some(name) => test.needs_resources@.dom().contains(KeyView::UserToken(name@))
                && !resource_tokens@.dom().contains(KeyView::UserToken(name@)),
            None => forall|name: Seq<char>| #[trigger]
                test.needs_resources@.dom().contains(KeyView::UserToken(name))
                    ==> resource_tokens@.dom().contains(KeyView::UserToken(name)),
        },
{
    let ghost list = test.needs_resources.list();
    let mut i: usize = 0;
    while i < test.needs_resources.len()
        invariant
            i <= list.len(),
            list == test.needs_resources.list(),
            test.wf(),
            resource_tokens.wf(),
            forall|k: int|
                0 <= k < i ==> ((#[trigger] list[k]).0@ is Worktree
                    || resource_tokens@.dom().contains(list[k].0@)),
        decreases list.len() - i,
    {
        let key = test.needs_resources.key_at(i);
        match key {
            ResourceKey::Worktree => {},
            ResourceKey::UserToken(name) => {
                if !resource_tokens.contains_key(key) {
                    proof {
                        assoc::lemma_distinct_entries(list, i as int);
                    }
                    return Some(name.clone());
                }
            },
        }
        i += 1;
    }
    assert forall|name: Seq<char>| #[trigger]
        test.needs_resources@.dom().contains(
            KeyView::UserToken(name),
        ) implies resource_tokens@.dom().contains(KeyView::UserToken(name)) by {
        let key = KeyView::UserToken(name);
        assoc::lemma_map_of(list, key);
        let k = assoc::entry_keys(list).index_of(key);
        assert(list[k].0@ == key);
    }
    None
}

/// The user-defined resources that a test needs are defined.
pub open spec fn needs_defined(test: Arc<crate::test::Test>, defined: Set<KeyView>) -> bool {
    forall|name: Seq<char>| #[trigger]
        test.needs_resources@.dom().contains(KeyView::UserToken(name)) ==> defined.contains(
            KeyView::UserToken(name),
        )
}

/// The needs of a test are the references in its definition.
proof fn lemma_needs_defined(conf: Test, test: Arc<crate::test::Test>, defined: Set<KeyView>)
    requires
        test.needs_resources@ == needed(conf),
    ensures
        needs_defined(test, defined) == all_defined(conf, defined),
        forall|name: Seq<char>| #[trigger]
            test.needs_resources@.dom().contains(KeyView::UserToken(name)) <==> referred(
                conf,
            ).contains(name),
{
    assert forall|name: Seq<char>| #[trigger]
        test.needs_resources@.dom().contains(KeyView::UserToken(name)) <==> referred(
            conf,
        ).contains(name) by {
        lemma_needed_tokens(resource_list(conf.resources), KeyView::UserToken(name));
    }
    if needs_defined(test, defined) {
        assert forall|i: int| 0 <= i < referred(conf).len() implies defined.contains(
            KeyView::UserToken(#[trigger] referred(conf)[i]),
        ) by {
            assert(referred(conf).contains(referred(conf)[i]));
            assert(test.needs_resources@.dom().contains(KeyView::UserToken(referred(conf)[i])));
        }
    }
    if all_defined(conf, defined) {
        assert forall|name: Seq<char>| #[trigger]
            test.needs_resources@.dom().contains(
                KeyView::UserToken(name),
            ) implies defined.contains(KeyView::UserToken(name)) by {
            assert(referred(conf).contains(name));
            let i = referred(conf).index_of(name);
            assert(referred(conf)[i] == name);
        }
    }
}

/// `name` is that of the first test that needs a resource that is not defined,
/// and `resource` is such a resource.
pub open spec fn first_undefined(
    tests: Seq<Arc<crate::test::Test>>,
    defined: Set<KeyView>,
    resource: Seq<char>,
    name: Seq<char>,
) -> bool {
    exists|k: int|
        0 <= k < tests.len() && name == (#[trigger] tests[k]).name@
            && tests[k].needs_resources@.dom().contains(KeyView::UserToken(resource))
            && !defined.contains(KeyView::UserToken(resource)) && forall|j: int|
            0 <= j < k ==> needs_defined(#[trigger] tests[j], defined)
}

/// The first test that needs a resource that is not defined, and the resource.
fn undefined_reference(tests: &TestDag, resource_tokens: &ResourceTokens) -> (r: Option<
    (String, TestName),
>)
    requires
        resource_tokens.wf(),
        forall|k: int| 0 <= k < tests.node_seq().len() ==> (#[trigger] tests.node_seq()[k]).wf(),
    ensures
        match r {
            Some((resource, name)) => first_undefined(
                tests.node_seq(),
                resource_tokens@.dom(),
                resource@,
                name@,
            ),
            None => forall|k: int|
                0 <= k < tests.node_seq().len() ==> needs_defined(
                    #[trigger] tests.node_seq()[k],
                    resource_tokens@.dom(),
                ),
        },
{
    let ghost defined = resource_tokens@.dom();
    let nodes = tests.nodes();
    let mut i: usize = 0;
    while i < nodes.len()
        invariant
            i <= nodes@.len(),
            nodes@ == tests.node_seq(),
            resource_tokens.wf(),
            defined == resource_tokens@.dom(),
            forall|k: int| 0 <= k < nodes@.len() ==> (#[trigger] nodes@[k]).wf(),
            forall|k: int| 0 <= k < i ==> needs_defined(#[trigger] nodes@[k], defined),
        decreases nodes@.len() - i,
    {
        assert(nodes@[i as int].wf());
        match undefined_resource(&nodes[i], resource_tokens) {
            Some(resource) => {
                assert(nodes@[i as int].needs_resources@.dom().contains(
                    KeyView::UserToken(resource@),
                ));
                return Some((resource, nodes[i].name.clone()));
            },
            None => {},
        }
        i += 1;
    }
    None
}

proof fn lemma_undefined_reference(
    confs: Seq<Test>,
    nodes: Seq<Arc<crate::test::Test>>,
    defined: Set<KeyView>,
    resource: String,
    test: TestName,
)
    requires
        orderly(confs),
        all_parsed(confs, nodes),
        forall|i: int| 0 <= i < confs.len() ==> acceptable(#[trigger] confs[i]),
        forall|k: int|
            0 <= k < parse_order(confs).len() ==> (#[trigger] parse_order(confs)[k]) < confs.len(),
        first_undefined(nodes, defined, resource@, test@),
    ensures
        is_config_error(confs, defined, ConfigError::UndefinedResource { resource, test }),
        exists|i: int| 0 <= i < confs.len() && !all_defined(#[trigger] confs[i], defined),
{
    let order = parse_order(confs);
    let k = choose|k: int|
        0 <= k < nodes.len() && test@ == (#[trigger] nodes[k]).name@
            && nodes[k].needs_resources@.dom().contains(KeyView::UserToken(resource@))
            && !defined.contains(KeyView::UserToken(resource@)) && forall|j: int|
            0 <= j < k ==> needs_defined(#[trigger] nodes[j], defined);
    let conf = confs[order[k] as int];
    assert(parses_to(conf, nodes.take(k), *nodes[k]));
    lemma_needs_defined(conf, nodes[k], defined);
    assert(referred(conf).contains(resource@));
    assert forall|j: int| 0 <= j < k implies all_defined(
        confs[#[trigger] order[j] as int],
        defined,
    ) by {
        assert(parses_to(confs[order[j] as int], nodes.take(j), *nodes[j]));
        lemma_needs_defined(confs[order[j] as int], nodes[j], defined);
    }
    assert(!needs_defined(nodes[k], defined));
    assert(test@ == confs[order[k] as int].name@);
}

impl Config {
    /// The tokens of the resources that are defined.
    pub fn parse_resource_tokens(&self) -> (r: ResourceTokens)
        ensures
            r.wf(),
            token_texts(r@) == tokens_map(resource_list(self.resources)),
    {
        let mut map: ResourceTokens = Assoc::new();
        assert(token_texts(Map::empty()) =~= Map::empty());
        match &self.resources {
            Some(list) => {
                let mut i: usize = 0;
                assert(list@.take(0) =~= Seq::empty());
                while i < list.len()
                    invariant
                        i <= list@.len(),
                        map.wf(),
                        token_texts(map@) == tokens_map(list@.take(i as int)),
                    decreases list@.len() - i,
                {
                    assert(list@.take(i + 1).drop_last() =~= list@.take(i as int));
                    let key = ResourceKey::UserToken(String::from_str(list[i].name()));
                    let tokens = list[i].tokens();
                    let ghost before = map@;
                    let ghost k = key@;
                    map.insert(key, tokens);
                    assert(token_texts(map@) =~= token_texts(before).insert(
                        k,
                        strings::texts(tokens@),
                    ));
                    i += 1;
                }
                assert(list@.take(i as int) =~= list@);
            },
            None => {},
        }
        map
    }

    /// The tests, in an order in which each comes after those that it depends
    /// on.
    pub fn parse_tests(tests: Vec<Test>, resource_tokens: &ResourceTokens) -> (r: Result<
        TestDag,
        ConfigError,
    >)
        requires
            resource_tokens.wf(),
            programs_given(tests@),
        ensures
            r is Ok <==> orderly(tests@) && (forall|i: int|
                0 <= i < tests@.len() ==> acceptable(#[trigger] tests@[i]) && all_defined(
                    tests@[i],
                    resource_tokens@.dom(),
                )),
            match r {
                Ok(dag) => dag.valid() && all_parsed(tests@, dag.node_seq()),
                Err(e) => is_config_error(tests@, resource_tokens@.dom(), e),
            },
    {
        match Config::parse_tests_checked(tests, resource_tokens) {
            Some(parsed) => parsed,
            None => vstd::pervasive::unreached(),
        }
    }

    /// The tests, as `parse_tests` gives them, or `None` if there is no program
    /// for one of them.
    #[verifier::rlimit(60)]
    #[verifier::spinoff_prover]
    pub fn parse_tests_checked(tests: Vec<Test>, resource_tokens: &ResourceTokens) -> (r: Option<
        Result<TestDag, ConfigError>,
    >)
        requires
            resource_tokens.wf(),
        ensures
            r is Some <==> programs_given(tests@),
            r matches Some(parsed) ==> (parsed is Ok <==> orderly(tests@) && (forall|i: int|
                0 <= i < tests@.len() ==> acceptable(#[trigger] tests@[i]) && all_defined(
                    tests@[i],
                    resource_tokens@.dom(),
                ))),
            match r {
                Some(Ok(dag)) => dag.valid() && all_parsed(tests@, dag.node_seq()),
                Some(Err(e)) => is_config_error(tests@, resource_tokens@.dom(), e),
                None => true,
            },
    {
        let ghost confs = tests@;
        let ghost defined = resource_tokens@.dom();
        let graph = match Dag::new(tests) {
            Ok(graph) => graph,
            Err(e) => {
                return Some(Err(ConfigError::Graph(e)));
            },
        };
        let ghost g = graph.graph();
        let ghost order = parse_order(confs);
        proof {
            dag::lemma_search_everything(g);
            assert forall|k: int| 0 <= k < dag::all_nodes(confs.len()).len() implies (
            #[trigger] dag::all_nodes(confs.len())[k]) < g.len() by {}
            dag::lemma_search(g, dag::all_nodes(confs.len()));
        }
        let sorted = graph.bottom_up().into_nodes();
        assert(order.skip(0) =~= order);
        let mut parsed: TestDag = Dag::empty();
        let mut i: usize = 0;
        while i < sorted.len()
            invariant
                i <= sorted@.len(),
                confs == tests@,
                defined == resource_tokens@.dom(),
                orderly(confs),
                g == dag::adjacency(confs),
                order == parse_order(confs),
                dag::nodes_at(sorted@, confs, order),
                dag::children_first(g, order),
                order.len() == confs.len() == g.len() <= usize::MAX,
                forall|k: int| 0 <= k < i ==> (#[trigger] confs[order[k] as int]).command@.wf(),
                parsed.valid(),
                parsed.node_seq().len() == i,
                forall|k: int|
                    0 <= k < i ==> parses_to(
                        confs[order[k] as int],
                        parsed.node_seq().take(k),
                        *#[trigger] parsed.node_seq()[k],
                    ),
                forall|k: int| 0 <= k < i ==> acceptable(confs[#[trigger] order[k] as int]),
            decreases sorted@.len() - i,
        {
            let ghost done = parsed.node_seq();
            let ghost at = order[i as int];
            let conf: &Test = sorted[i];
            proof {
                assert(*conf == confs[at as int]);
                lemma_parsed_dependencies(confs, order, done, i as int);
            }
            if !conf.command.has_program() && conf.is_acceptable() {
                assert(!confs[order[i as int] as int].command@.wf());
                return None;
            }
            let test = match conf.parse(&parsed) {
                Ok(test) => test,
                Err(e) => {
                    proof {
                        assert(is_test_error(confs[order[i as int] as int], e));
                        dag::lemma_full_order(order, confs.len());
                        assert(!acceptable(confs[order[i as int] as int]));
                        assert(programs_given(confs)) by {
                            assert forall|k: int|
                                0 <= k < order.len() && (forall|j: int|
                                    0 <= j <= k ==> acceptable(
                                        confs[#[trigger] order[j] as int],
                                    )) implies (#[trigger] confs[order[k] as int]).command@.wf() by {
                                if k >= i {
                                    assert(acceptable(confs[order[i as int] as int]));
                                }
                            }
                        }
                    }
                    return Some(Err(ConfigError::Test(e)));
                },
            };
            let node = Arc::new(test);
            proof {
                assert(node.node_id() == confs[at as int].name@);
                assert(node.node_children() == confs[at as int].node_children());
            }
            parsed =
            match parsed.with_node(node) {
                Ok(dag) => dag,
                Err(_) => vstd::pervasive::unreached(),
            };
            proof {
                assert forall|k: int| 0 <= k < i + 1 implies parses_to(
                    confs[order[k] as int],
                    parsed.node_seq().take(k),
                    *#[trigger] parsed.node_seq()[k],
                ) by {
                    assert(parsed.node_seq().take(k) =~= done.take(k));
                    if k == i {
                        assert(done.take(k) =~= done);
                    }
                }
            }
            i += 1;
        }
        proof {
            dag::lemma_full_order(order, confs.len());
            assert forall|k: int| 0 <= k < confs.len() implies acceptable(#[trigger] confs[k]) by {
                assert(order.contains(k as usize));
                let p = order.index_of(k as usize);
                assert(acceptable(confs[order[p] as int]));
            }
        }
        // Check for invalid resource references.
        let undefined = undefined_reference(&parsed, resource_tokens);
        proof {
            let nodes = parsed.node_seq();
            assert(all_parsed(confs, nodes));
            assert forall|k: int| 0 <= k < order.len() implies needs_defined(
                #[trigger] nodes[k],
                defined,
            ) == all_defined(confs[order[k] as int], defined) by {
                assert(parses_to(confs[order[k] as int], nodes.take(k), *nodes[k]));
                lemma_needs_defined(confs[order[k] as int], nodes[k], defined);
            }
        }
        if let Some((resource, test)) = undefined {
            proof {
                lemma_undefined_reference(confs, parsed.node_seq(), defined, resource, test);
            }
            return Some(Err(ConfigError::UndefinedResource { resource, test }));
        }
        proof {
            dag::lemma_full_order(order, confs.len());
            assert forall|k: int| 0 <= k < confs.len() implies all_defined(
                #[trigger] confs[k],
                defined,
            ) by {
                assert(order.contains(k as usize));
                let p = order.index_of(k as usize);
                assert(needs_defined(parsed.node_seq()[p], defined));
                assert(all_defined(confs[order[p] as int], defined));
            }
        }
        Some(Ok(parsed))
    }
}

/// When a test is parsed, the tests that it depends on have been parsed, and
/// none of the same name.
proof fn lemma_parsed_dependencies(
    confs: Seq<Test>,
    order: Seq<usize>,
    done: Seq<Arc<crate::test::Test>>,
    i: int,
)
    requires
        0 <= i < order.len(),
        done.len() == i,
        confs.len() <= usize::MAX,
        dag::ids(confs).no_duplicates(),
        dag::children_present(confs),
        dag::children_first(dag::adjacency(confs), order),
        forall|k: int|
            0 <= k < i ==> parses_to(
                confs[order[k] as int],
                done.take(k),
                *#[trigger] done[k],
            ),
    ensures
        dag::all_present(dag::ids(done), confs[order[i] as int].node_children()),
        !dag::ids(done).contains(confs[order[i] as int].name@),
{
    let g = dag::adjacency(confs);
    let all = dag::ids(confs);
    let names = dag::ids(done);
    let at = order[i];
    assert(order[i] < g.len());
    assert forall|k: int| 0 <= k < i implies #[trigger] names[k] == all[order[k] as int] && order[k]
        < confs.len() by {
        assert(parses_to(confs[order[k] as int], done.take(k), *done[k]));
        assert(order[k] < g.len());
    }
    let wanted = confs[at as int].node_children();
    assert(dag::all_present(all, wanted));
    assert forall|j: int| 0 <= j < wanted.len() implies names.contains(#[trigger] wanted[j]) by {
        assert(all.contains(wanted[j]));
        ident::lemma_last_position(all, wanted[j]);
        let b = ident::last_position(all, wanted[j]) as usize;
        assert(g[at as int][j] == b);
        assert(dag::has_edge(g, order[i], b));
        assert(order.take(i).contains(b));
        let p = order.take(i).index_of(b);
        assert(names[p] == all[order[p] as int]);
    }
    if names.contains(confs[at as int].name@) {
        let p = names.index_of(confs[at as int].name@);
        assert(names[p] == all[order[p] as int]);
        assert(all[at as int] == all[order[p] as int]);
        assert(order[p] != order[i]);
    }
}

/// What is needed to run jobs: how many worktrees to make, the other
/// resources, and the tests.
#[derive(Debug)]
pub struct ParsedConfig {
    pub num_worktrees: usize,
    pub resource_pools: Pools,
    pub tests: TestDag,
}

/// Tokens as resources.
pub open spec fn user_tokens(tokens: Seq<String>) -> Seq<resource::Resource> {
    Seq::new(tokens.len(), |i: int| resource::Resource::UserToken(tokens[i]))
}

/// The pools hold exactly the given tokens.
pub open spec fn holds_tokens(
    pools: Map<KeyView, Seq<resource::Resource>>,
    tokens: Map<KeyView, Seq<Seq<char>>>,
) -> bool {
    &&& pools.dom() == tokens.dom()
    &&& forall|k: KeyView| #[trigger]
        pools.dom().contains(k) ==> pools[k].len() == tokens[k].len() && resource::tokens_in(
            pools[k],
        ) == tokens[k]
}

#[verifier::spinoff_prover]
proof fn lemma_user_tokens(tokens: Seq<String>)
    ensures
        resource::tokens_in(user_tokens(tokens)) == strings::texts(tokens),
    decreases tokens.len(),
{
    if tokens.len() > 0 {
        let rest = tokens.drop_last();
        lemma_user_tokens(rest);
        assert(user_tokens(tokens).drop_last() =~= user_tokens(rest));
        assert(strings::texts(tokens) =~= strings::texts(rest).push(tokens.last()@));
    } else {
        assert(strings::texts(tokens) =~= Seq::empty());
    }
}

/// The pools for the given tokens.
fn token_pools(resource_tokens: &ResourceTokens) -> (r: Pools)
    requires
        resource_tokens.wf(),
    ensures
        r.wf(),
        holds_tokens(r@, token_texts(resource_tokens@)),
{
    let ghost list = resource_tokens.list();
    let mut pools: Vec<(ResourceKey, Vec<resource::Resource>)> = Vec::new();
    let mut i: usize = 0;
    while i < resource_tokens.len()
        invariant
            i <= list.len(),
            list == resource_tokens.list(),
            pools@.len() == i,
            forall|j: int|
                0 <= j < i ==> (#[trigger] pools@[j]).0 == list[j].0 && pools@[j].1@ == user_tokens(
                    list[j].1@,
                ),
        decreases list.len() - i,
    {
        let tokens = resource_tokens.value_at(i);
        let mut resources: Vec<resource::Resource> = Vec::new();
        let mut j: usize = 0;
        while j < tokens.len()
            invariant
                j <= tokens@.len(),
                resources@ =~= user_tokens(tokens@).take(j as int),
            decreases tokens@.len() - j,
        {
            resources.push(resource::Resource::UserToken(tokens[j].clone()));
            j += 1;
        }
        assert(user_tokens(tokens@).take(j as int) =~= user_tokens(tokens@));
        pools.push((resource_tokens.key_at(i).clone(), resources));
        i += 1;
    }
    proof {
        let pairs = pools@;
        let m = resource::contents(assoc::map_of(pairs));
        let t = token_texts(resource_tokens@);
        assert(assoc::entry_keys(pairs) =~= assoc::entry_keys(list));
        assert forall|k: KeyView| #[trigger] m.dom().contains(k) <==> t.dom().contains(k) by {
            assoc::lemma_map_of(pairs, k);
            assoc::lemma_map_of(list, k);
        }
        assert(m.dom() =~= t.dom());
        assert forall|k: KeyView| #[trigger] m.dom().contains(k) implies m[k].len() == t[k].len()
            && resource::tokens_in(m[k]) == t[k] by {
            assoc::lemma_map_of(pairs, k);
            assoc::lemma_map_of(list, k);
            let p = ident::last_position(assoc::entry_keys(list), k);
            assert(pairs[p].1@ == user_tokens(list[p].1@));
            lemma_user_tokens(list[p].1@);
        }
    }
    Pools::new(pools)
}

impl ParsedConfig {
    /// Makes sense of a configuration. This does NOT create worktrees, it only
    /// tells how many you'll need to create and insert into the pools.
    pub fn from(config: Config) -> (r: Result<Self, ConfigError>)
        requires
            programs_given(config.tests@),
        ensures
            r is Ok <==> orderly(config.tests@) && (forall|i: int|
                0 <= i < config.tests@.len() ==> acceptable(#[trigger] config.tests@[i])
                    && all_defined(
                    config.tests@[i],
                    tokens_map(resource_list(config.resources)).dom(),
                )),
            match r {
                Ok(parsed) => {
                    &&& parsed.num_worktrees == config.num_worktrees
                    &&& parsed.resource_pools.wf()
                    &&& holds_tokens(
                        parsed.resource_pools@,
                        tokens_map(resource_list(config.resources)),
                    )
                    &&& parsed.tests.valid()
                    &&& all_parsed(config.tests@, parsed.tests.node_seq())
                },
                Err(e) => is_config_error(
                    config.tests@,
                    tokens_map(resource_list(config.resources)).dom(),
                    e,
                ),
            },
    {
        match ParsedConfig::from_checked(config) {
            Some(parsed) => parsed,
            None => vstd::pervasive::unreached(),
        }
    }

    /// Makes sense of a configuration, as `from` does. `None` means that there
    /// is no program for one of the tests.
    pub fn from_checked(config: Config) -> (r: Option<Result<Self, ConfigError>>)
        ensures
            r is Some <==> programs_given(config.tests@),
            r matches Some(parsed) ==> (parsed is Ok <==> orderly(config.tests@) && (forall|i: int|
                0 <= i < config.tests@.len() ==> acceptable(#[trigger] config.tests@[i])
                    && all_defined(
                    config.tests@[i],
                    tokens_map(resource_list(config.resources)).dom(),
                ))),
            match r {
                Some(Ok(parsed)) => {
                    &&& parsed.num_worktrees == config.num_worktrees
                    &&& parsed.resource_pools.wf()
                    &&& holds_tokens(
                        parsed.resource_pools@,
                        tokens_map(resource_list(config.resources)),
                    )
                    &&& parsed.tests.valid()
                    &&& all_parsed(config.tests@, parsed.tests.node_seq())
                },
                Some(Err(e)) => is_config_error(
                    config.tests@,
                    tokens_map(resource_list(config.resources)).dom(),
                    e,
                ),
                None => true,
            },
    {
        let resource_tokens = config.parse_resource_tokens();
        assert(token_texts(resource_tokens@).dom() =~= resource_tokens@.dom());
        let num_worktrees: usize = config.num_worktrees;
        match Config::parse_tests_checked(config.tests, &resource_tokens) {
            Some(Ok(tests)) => Some(
                Ok(
                    ParsedConfig {
                        num_worktrees,
                        resource_pools: token_pools(&resource_tokens),
                        tests,
                    },
                ),
            ),
            Some(Err(e)) => Some(Err(e)),
            None => None,
        }
    }
}

/// A command without a shell is run as it is given: the program, and then all
/// of its arguments, are the list again.
pub proof fn lemma_raw_command_is_kept(args: Seq<Seq<char>>)
    requires
        args.len() > 0,
    ensures
        seq![CommandView::Raw(args).program()] + CommandView::Raw(args).args() == args,
{
    assert(seq![CommandView::Raw(args).program()] + CommandView::Raw(args).args() =~= args);
}

/// A command for a shell is handed to bash as a whole, as the one script to run.
pub proof fn lemma_shell_command_is_kept(text: Seq<char>)
    ensures
        CommandView::Shell(text).program() == "bash"@,
        CommandView::Shell(text).args().len() == 2,
        CommandView::Shell(text).args()[0] == "-c"@,
        CommandView::Shell(text).args()[1] == text,
{
}

/// What a test runs is what its definition says: the list that is given, or the
/// text that is given, in a shell.
pub proof fn lemma_parsed_command(
    conf: Test,
    others: Seq<Arc<crate::test::Test>>,
    test: crate::test::Test,
)
    requires
        parses_to(conf, others, test),
        conf.command matches Command::Raw(args) ==> args@.len() > 0,
    ensures
        match conf.command {
            Command::Raw(args) => seq![test.program@] + strings::texts(test.args@)
                == strings::texts(args@),
            Command::Shell(text) => test.program@ == "bash"@ && strings::texts(test.args@) == seq![
                "-c"@,
                text@,
            ],
        },
{
    match conf.command {
        Command::Raw(args) => {
            lemma_raw_command_is_kept(strings::texts(args@));
        },
        Command::Shell(text) => {
            lemma_shell_command_is_kept(text@);
            assert(strings::texts(test.args@) =~= seq!["-c"@, text@]);
        },
    }
}

/// A test keeps what its definition says about it.
pub proof fn lemma_parsed_as_defined(
    conf: Test,
    others: Seq<Arc<crate::test::Test>>,
    test: crate::test::Test,
)
    requires
        parses_to(conf, others, test),
    ensures
        test.name@ == conf.name@,
        test.shutdown_grace_period == conf.shutdown_grace_period_s,
        test.cache_policy == conf.cache,
        test.depends_on@.len() == conf.depends_on@.len(),
        forall|i: int|
            0 <= i < conf.depends_on@.len() ==> (#[trigger] test.depends_on@[i])@
                == conf.depends_on@[i]@,
        forall|code: i32| #[trigger]
            test.error_exit_codes@.contains(code) <==> conf.error_exit_codes@.contains(code),
        test.worktree_needed() <==> conf.requires_worktree,
{
    assert(ident::views(test.depends_on@).len() == strings::texts(conf.depends_on@).len());
    assert forall|i: int| 0 <= i < conf.depends_on@.len() implies (
    #[trigger] test.depends_on@[i])@ == conf.depends_on@[i]@ by {
        assert(ident::views(test.depends_on@)[i] == strings::texts(conf.depends_on@)[i]);
    }
    lemma_no_worktree_token(resource_list(conf.resources));
}

/// No user-defined resource is taken for a worktree.
proof fn lemma_no_worktree_token(resources: Seq<Resource>)
    ensures
        !needed_tokens(resources).dom().contains(KeyView::Worktree),
    decreases resources.len(),
{
    if resources.len() > 0 {
        lemma_no_worktree_token(resources.drop_last());
    }
}

/// A reference to a resource says its name, and how much of it there is.
pub open spec fn refers(resource: Resource, name: Seq<char>, count: nat) -> bool {
    match resource {
        Resource::Bare(text) => name == text@ && count == 1,
        Resource::Counted { name: text, count: n } => name == text@ && count == n,
        Resource::Explicit { name: text, tokens } => name == text@ && count == tokens@.len(),
    }
}

/// Each reference to a resource is counted by its own count.
proof fn lemma_tokens_counted(resources: Seq<Resource>, i: int)
    requires
        0 <= i < resources.len(),
        resource_names(resources).no_duplicates(),
    ensures
        needed_tokens(resources).dom().contains(KeyView::UserToken(resources[i]@.name())),
        needed_tokens(resources)[KeyView::UserToken(resources[i]@.name())]
            == resources[i]@.count() as usize,
    decreases resources.len(),
{
    let rest = resources.drop_last();
    let names = resource_names(resources);
    if i < rest.len() {
        assert(resource_names(rest) =~= names.drop_last());
        assert(names[i] != names[names.len() - 1]);
        lemma_tokens_counted(rest, i);
        assert(rest[i] == resources[i]);
    }
}

/// A test that is accepted needs of each resource what the reference to it says.
pub proof fn lemma_needs_what_it_refers_to(conf: Test, i: int, name: Seq<char>, count: nat)
    requires
        acceptable(conf),
        0 <= i < resource_list(conf.resources).len(),
        refers(resource_list(conf.resources)[i], name, count),
    ensures
        needed(conf).dom().contains(KeyView::UserToken(name)),
        needed(conf)[KeyView::UserToken(name)] == count,
{
    let list = resource_list(conf.resources);
    lemma_tokens_counted(list, i);
    match list[i] {
        Resource::Explicit { name: _, tokens } => {
            assert(strings::texts(tokens@).len() == tokens@.len());
            assert(tokens@.len() <= usize::MAX) by {
                lemma_vec_len(tokens);
            }
        },
        _ => {},
    }
}

/// The length of a list fits in a machine word.
proof fn lemma_vec_len(v: Vec<String>)
    ensures
        v@.len() <= usize::MAX,
{
    assert(v.len() == v@.len());
}

/// A test needs nothing but what it refers to, and one worktree if it asks for
/// that.
pub proof fn lemma_needs_nothing_else(conf: Test, key: KeyView)
    requires
        needed(conf).dom().contains(key),
    ensures
        match key {
            KeyView::Worktree => conf.requires_worktree && needed(conf)[key] == 1,
            KeyView::UserToken(name) => exists|i: int|
                0 <= i < resource_list(conf.resources).len() && exists|count: nat|
                    refers(#[trigger] resource_list(conf.resources)[i], name, count),
        },
{
    let list = resource_list(conf.resources);
    lemma_no_worktree_token(list);
    match key {
        KeyView::UserToken(name) => {
            lemma_needed_tokens(list, key);
            let i = resource_names(list).index_of(name);
            assert(resource_names(list)[i] == name);
            assert(list[i]@.name() == name);
            assert(refers(list[i], name, list[i]@.count()));
        },
        _ => {},
    }
}

/// A definition is accepted unless two of its references are to one resource or
/// success is among the exit codes that mean an error.
pub proof fn lemma_what_is_accepted(conf: Test)
    ensures
        acceptable(conf) <==> {
            &&& forall|i: int, j: int|
                0 <= i < j < resource_list(conf.resources).len() ==> (
                #[trigger] resource_list(conf.resources)[i])@.name() != (
                #[trigger] resource_list(conf.resources)[j])@.name()
            &&& forall|k: int|
                0 <= k < conf.error_exit_codes@.len() ==> #[trigger] conf.error_exit_codes@[k] != 0
        },
{
    let list = resource_list(conf.resources);
    let names = referred(conf);
    assert(names.len() == list.len());
    if names.no_duplicates() {
        assert forall|i: int, j: int| 0 <= i < j < list.len() implies (#[trigger] list[i])@.name()
            != (#[trigger] list[j])@.name() by {
            assert(names[i] != names[j]);
        }
    } else {
        let (i, j) = choose|i: int, j: int|
            0 <= i < names.len() && 0 <= j < names.len() && i != j && names[i] == names[j];
        assert(list[i]@.name() == list[j]@.name());
    }
    if conf.error_exit_codes@.contains(0) {
        let k = conf.error_exit_codes@.index_of(0);
        assert(conf.error_exit_codes@[k] == 0);
    }
}

/// A resource that is defined has the tokens that are given, or as many as its
/// count says, all different, each with its number after the name.
pub proof fn lemma_defined_tokens(resource: Resource, name: Seq<char>, count: nat)
    requires
        refers(resource, name, count),
    ensures
        resource@.tokens().len() == count,
        match resource {
            Resource::Explicit { tokens, .. } => resource@.tokens() == strings::texts(tokens@),
            _ => {
                &&& resource@.tokens().no_duplicates()
                &&& forall|i: int|
                    0 <= i < count ==> #[trigger] resource@.tokens()[i] == name + "-"@
                        + strings::decimal(i)
            },
        },
{
    reveal_strlit("-");
    if !(resource is Explicit) {
        lemma_counted_tokens_distinct(resource@);
        assert("-"@ =~= seq!['-']);
    }
}

/// The tokens of a resource are those of its definition, the last one if there
/// are several.
pub proof fn lemma_tokens_of_definition(resources: Seq<Resource>, i: int)
    requires
        0 <= i < resources.len(),
        forall|j: int|
            i < j < resources.len() ==> (#[trigger] resources[j])@.name() != resources[i]@.name(),
    ensures
        tokens_map(resources).dom().contains(KeyView::UserToken(resources[i]@.name())),
        tokens_map(resources)[KeyView::UserToken(resources[i]@.name())] == resources[i]@.tokens(),
    decreases resources.len(),
{
    let rest = resources.drop_last();
    if i < rest.len() {
        assert forall|j: int| i < j < rest.len() implies (#[trigger] rest[j])@.name()
            != rest[i]@.name() by {
            assert(rest[j] == resources[j]);
        }
        assert(resources[resources.len() - 1]@.name() != resources[i]@.name());
        lemma_tokens_of_definition(rest, i);
    }
}

/// The tests that come out of a configuration are those that it defines, each
/// once, and each after those that it depends on.
pub proof fn lemma_every_test_is_parsed(
    tests: Seq<Test>,
    parsed: Seq<Arc<crate::test::Test>>,
    i: int,
) -> (k: int)
    requires
        orderly(tests),
        tests.len() <= usize::MAX,
        all_parsed(tests, parsed),
        0 <= i < tests.len(),
    ensures
        0 <= k < parsed.len() == tests.len(),
        parsed[k].name@ == tests[i].name@,
        parses_to(tests[i], parsed.take(k), *parsed[k]),
        forall|d: int|
            0 <= d < tests[i].depends_on@.len() ==> dag::ids(parsed.take(k)).contains(
                (#[trigger] tests[i].depends_on@[d])@,
            ),
{
    let order = parse_order(tests);
    let g = dag::adjacency(tests);
    dag::lemma_adjacency_in_bounds(tests);
    dag::lemma_search_everything(g);
    assert forall|k: int| 0 <= k < dag::all_nodes(tests.len()).len() implies (
    #[trigger] dag::all_nodes(tests.len())[k]) < g.len() by {}
    dag::lemma_search(g, dag::all_nodes(tests.len()));
    dag::lemma_full_order(order, tests.len());
    assert(order.contains(i as usize));
    let k = order.index_of(i as usize);
    assert(parses_to(tests[order[k] as int], parsed.take(k), *parsed[k]));
    assert forall|m: int| 0 <= m < k implies parses_to(
        tests[order[m] as int],
        parsed.take(k).take(m),
        *#[trigger] parsed.take(k)[m],
    ) by {
        assert(parsed.take(k).take(m) =~= parsed.take(m));
        assert(parsed.take(k)[m] == parsed[m]);
        assert(parses_to(tests[order[m] as int], parsed.take(m), *parsed[m]));
    }
    lemma_parsed_dependencies(tests, order, parsed.take(k), k);
    assert forall|d: int| 0 <= d < tests[i].depends_on@.len() implies dag::ids(
        parsed.take(k),
    ).contains((#[trigger] tests[i].depends_on@[d])@) by {
        assert(tests[i].node_children()[d] == tests[i].depends_on@[d]@);
    }
    k
}

/// The hash of a configuration takes in the hash of each test that the test
/// depends on.
pub proof fn lemma_dependency_is_hashed(
    names: Seq<Seq<char>>,
    tests: Seq<Arc<crate::test::Test>>,
    i: int,
    k: int,
)
    requires
        dag::ids(tests).no_duplicates(),
        0 <= i < names.len(),
        0 <= k < tests.len(),
        tests[k].name@ == names[i],
    ensures
        dep_hashes(names, tests).len() == names.len(),
        dep_hashes(names, tests)[i] == tests[k].config_hash@,
{
    assert(dag::ids(tests)[k] == names[i]);
    ident::lemma_last_position_is(dag::ids(tests), names[i], k);
}

/// The hash of a configuration is the digest of all that was written down of
/// it, in hexadecimal notation.
pub proof fn lemma_hash_of_everything(
    conf: Test,
    others: Seq<Arc<crate::test::Test>>,
    test: crate::test::Test,
)
    requires
        parses_to(conf, others, test),
    ensures
        test.config_hash@ == digest::hex_text(
            digest::sha3_256(
                conf@.bytes() + digest::each(
                    dep_hashes(strings::texts(conf.depends_on@), others),
                    digest::text_encoder(),
                ),
            ),
        ),
{
}

/// A configuration is in order only if every resource that a test refers to is
/// defined.
pub proof fn lemma_only_defined_resources(conf: Test, resources: Seq<Resource>)
    ensures
        all_defined(conf, tokens_map(resources).dom()) <==> forall|i: int|
            0 <= i < resource_list(conf.resources).len() ==> exists|j: int|
                0 <= j < resources.len() && (#[trigger] resources[j])@.name() == (
                #[trigger] resource_list(conf.resources)[i])@.name(),
{
    let list = resource_list(conf.resources);
    let defined = tokens_map(resources).dom();
    assert forall|i: int| 0 <= i < list.len() implies (defined.contains(
        KeyView::UserToken((#[trigger] list[i])@.name()),
    ) <==> exists|j: int|
        0 <= j < resources.len() && (#[trigger] resources[j])@.name() == list[i]@.name()) by {
        lemma_defined_names(resources, list[i]@.name());
        assert(referred(conf)[i] == list[i]@.name());
    }
    if all_defined(conf, defined) {
        assert forall|i: int| 0 <= i < list.len() implies exists|j: int|
            0 <= j < resources.len() && (#[trigger] resources[j])@.name() == (
            #[trigger] list[i])@.name() by {
            assert(defined.contains(KeyView::UserToken(referred(conf)[i])));
        }
    }
    if forall|i: int|
        0 <= i < list.len() ==> exists|j: int|
            0 <= j < resources.len() && (#[trigger] resources[j])@.name() == (
            #[trigger] list[i])@.name() {
        assert forall|i: int| 0 <= i < referred(conf).len() implies defined.contains(
            KeyView::UserToken(#[trigger] referred(conf)[i]),
        ) by {
            assert(referred(conf)[i] == list[i]@.name());
        }
    }
}

/// The resources that are defined are those whose definition is there.
proof fn lemma_defined_names(resources: Seq<Resource>, name: Seq<char>)
    ensures
        tokens_map(resources).dom().contains(KeyView::UserToken(name)) <==> exists|j: int|
            0 <= j < resources.len() && (#[trigger] resources[j])@.name() == name,
    decreases resources.len(),
{
    if resources.len() > 0 {
        let rest = resources.drop_last();
        lemma_defined_names(rest, name);
        if exists|j: int| 0 <= j < rest.len() && (#[trigger] rest[j])@.name() == name {
            let j = choose|j: int| 0 <= j < rest.len() && (#[trigger] rest[j])@.name() == name;
            assert(resources[j]@.name() == name);
        }
        if exists|j: int| 0 <= j < resources.len() && (#[trigger] resources[j])@.name() == name {
            let j = choose|j: int|
                0 <= j < resources.len() && (#[trigger] resources[j])@.name() == name;
            if j < rest.len() {
                assert(rest[j]@.name() == name);
            }
        }
    }
}

/// A message names the resource and the test that it is about, each in its
/// place.
pub proof fn lemma_config_message(e: ConfigError)
    ensures
        e matches ConfigError::UndefinedResource { resource, test } ==> ("undefined resource "@
            + strings::debug_text(resource@)).is_prefix_of(e.message()) && crate::job::ends_with(
            e.message(),
            "test "@ + strings::debug_text(test@),
        ),
        e matches ConfigError::Test(TestError::DuplicateResource(name)) ==> crate::job::ends_with(
            e.message(),
            "duplicate resource reference "@ + strings::debug_text(name@),
        ),
        e matches ConfigError::Graph(reason) ==> crate::job::ends_with(
            e.message(),
            reason.message(),
        ),
{
    let s = e.message();
    match e {
        ConfigError::UndefinedResource { resource, test } => {
            reveal_strlit(" referenced in test ");
            reveal_strlit("test ");
            let front = "undefined resource "@ + strings::debug_text(resource@);
            let end = "test "@ + strings::debug_text(test@);
            assert(s.take(front.len() as int) =~= front);
            assert(s.skip(s.len() - end.len()) =~= end);
        },
        ConfigError::Test(TestError::DuplicateResource(name)) => {
            let end = "duplicate resource reference "@ + strings::debug_text(name@);
            assert(s.skip(s.len() - end.len()) =~= end);
        },
        ConfigError::Graph(reason) => {
            let end = reason.message();
            assert(s.skip(s.len() - end.len()) =~= end);
        },
        _ => {},
    }
}

/// What is hashed of a definition is all of it: definitions that look the same
/// have the same name, command, resources, dependencies and settings.
pub proof fn lemma_definition_as_it_is(a: Test, b: Test)
    requires
        a@ == b@,
    ensures
        a.name@ == b.name@,
        a.command@ == b.command@,
        a.requires_worktree == b.requires_worktree,
        a.resources is Some <==> b.resources is Some,
        resource_list(a.resources).len() == resource_list(b.resources).len(),
        forall|i: int|
            0 <= i < resource_list(a.resources).len() ==> (#[trigger] resource_list(
                a.resources,
            )[i])@ == resource_list(b.resources)[i]@,
        a.shutdown_grace_period_s == b.shutdown_grace_period_s,
        a.cache == b.cache,
        strings::texts(a.depends_on@) == strings::texts(b.depends_on@),
        a.error_exit_codes@ == b.error_exit_codes@,
{
    match (a.resources, b.resources) {
        (Some(x), Some(y)) => {
            assert(ident::views(x@) == ident::views(y@));
            assert(ident::views(x@).len() == x@.len() && ident::views(y@).len() == y@.len());
            assert forall|i: int| 0 <= i < x@.len() implies (#[trigger] x@[i])@ == y@[i]@ by {
                assert(ident::views(x@)[i] == x@[i]@);
                assert(ident::views(y@)[i] == y@[i]@);
            }
        },
        _ => {},
    }
}

/// Commands, and references to resources, that look the same are the same.
pub proof fn lemma_parts_as_they_are(c: Command, d: Command, r: Resource, s: Resource)
    ensures
        c@ == d@ <==> match (c, d) {
            (Command::Shell(x), Command::Shell(y)) => x@ == y@,
            (Command::Raw(x), Command::Raw(y)) => strings::texts(x@) == strings::texts(y@),
            _ => false,
        },
        r@ == s@ <==> match (r, s) {
            (Resource::Bare(x), Resource::Bare(y)) => x@ == y@,
            (
                Resource::Counted { name: x, count: m },
                Resource::Counted { name: y, count: n },
            ) => x@ == y@ && m == n,
            (
                Resource::Explicit { name: x, tokens: t },
                Resource::Explicit { name: y, tokens: u },
            ) => x@ == y@ && strings::texts(t@) == strings::texts(u@),
            _ => false,
        },
{
}

/// The references of a test are those in its definition, and it depends on those
/// that it names.
pub proof fn lemma_references(conf: Test)
    ensures
        conf.resources matches Some(list) ==> resource_list(conf.resources) == list@,
        conf.resources is None ==> resource_list(conf.resources).len() == 0,
        conf.node_id() == conf.name@,
        conf.node_children() == strings::texts(conf.depends_on@),
{
}

/// What is given as the reason why a configuration is not accepted is true of
/// it.
pub proof fn lemma_config_error_is_true(tests: Seq<Test>, defined: Set<KeyView>, e: ConfigError)
    requires
        is_config_error(tests, defined, e),
        tests.len() <= usize::MAX,
    ensures
        match e {
            ConfigError::Graph(_) => !orderly(tests),
            ConfigError::Test(TestError::DuplicateResource(name)) => exists|t: int, i: int, j: int|
                0 <= t < tests.len() && 0 <= i < j < (#[trigger] referred(tests[t])).len()
                    && #[trigger] referred(tests[t])[i] == name@ && #[trigger] referred(tests[t])[j]
                    == name@,
            ConfigError::Test(TestError::ZeroErrorCode) => exists|t: int|
                0 <= t < tests.len() && (#[trigger] tests[t]).error_exit_codes@.contains(0),
            ConfigError::UndefinedResource { resource, test } => {
                &&& !defined.contains(KeyView::UserToken(resource@))
                &&& exists|t: int|
                    0 <= t < tests.len() && (#[trigger] tests[t]).name@ == test@ && referred(
                        tests[t],
                    ).contains(resource@)
            },
        },
{
    let order = parse_order(tests);
    let g = dag::adjacency(tests);
    if orderly(tests) {
        dag::lemma_adjacency_in_bounds(tests);
        dag::lemma_search(g, dag::all_nodes(tests.len()));
        assert forall|k: int| 0 <= k < order.len() implies (#[trigger] order[k]) < tests.len() by {}
    }
    match e {
        ConfigError::Graph(_) => {},
        ConfigError::Test(why) => {
            let k = choose|k: int|
                0 <= k < order.len() && is_test_error(tests[#[trigger] order[k] as int], why)
                    && forall|j: int| 0 <= j < k ==> acceptable(tests[#[trigger] order[j] as int]);
            let t = order[k] as int;
            match why {
                TestError::DuplicateResource(name) => {
                    let names = referred(tests[t]);
                    let n = choose|n: int| #[trigger]
                        dag::first_duplicate(names, n) && name@ == names[n];
                    let i = names.take(n).index_of(names[n]);
                    assert(names.take(n)[i] == names[n]);
                    assert(referred(tests[t])[i] == name@ && referred(tests[t])[n] == name@);
                },
                TestError::ZeroErrorCode => {
                    assert(tests[t].error_exit_codes@.contains(0));
                },
            }
        },
        ConfigError::UndefinedResource { resource, test } => {
            let k = choose|k: int|
                0 <= k < order.len() && test@ == tests[#[trigger] order[k] as int].name@
                    && referred(tests[order[k] as int]).contains(resource@) && !defined.contains(
                    KeyView::UserToken(resource@),
                ) && forall|j: int|
                    0 <= j < k ==> all_defined(tests[#[trigger] order[j] as int], defined);
            let t = order[k] as int;
            assert(tests[t].name@ == test@);
        },
    }
}

/// The bytes of a test are those of its parts, in the order in which a
/// definition has them; what comes in several forms starts with the number of
/// its form.
pub proof fn lemma_bytes_in_order(test: TestView)
    ensures
        test.bytes() == digest::text_bytes(test.name) + test.command.bytes() + digest::flag_bytes(
            test.requires_worktree,
        ) + test.resource_bytes() + digest::number_bytes(test.shutdown_grace_period_s as nat)
            + digest::number_bytes(policy_number(test.cache)) + digest::list_bytes(
            test.depends_on,
            digest::text_encoder(),
        ) + digest::list_bytes(test.error_exit_codes, digest::signed_encoder()),
        test.command matches CommandView::Shell(text) ==> test.command.bytes()
            == digest::number_bytes(0) + digest::text_bytes(text),
        test.command matches CommandView::Raw(args) ==> test.command.bytes()
            == digest::number_bytes(1) + digest::list_bytes(args, digest::text_encoder()),
        test.resources is None ==> test.resource_bytes() == digest::number_bytes(0),
        test.resources matches Some(list) ==> digest::number_bytes(1).is_prefix_of(
            test.resource_bytes(),
        ),
        policy_number(CachePolicy::NoCaching) == 0 && policy_number(CachePolicy::ByCommit) == 1
            && policy_number(CachePolicy::ByTree) == 2,
{
    let name = digest::text_bytes(test.name);
    let command = test.command.bytes();
    let flag = digest::flag_bytes(test.requires_worktree);
    let resources = test.resource_bytes();
    let grace = digest::number_bytes(test.shutdown_grace_period_s as nat);
    let policy = digest::number_bytes(policy_number(test.cache));
    let deps = digest::list_bytes(test.depends_on, digest::text_encoder());
    let codes = digest::list_bytes(test.error_exit_codes, digest::signed_encoder());
    digest::lemma_regroup(name, command, flag + (resources + (grace + (policy + (deps + codes)))));
    digest::lemma_regroup(name + command, flag, resources + (grace + (policy + (deps + codes))));
    digest::lemma_regroup(name + command + flag, resources, grace + (policy + (deps + codes)));
    digest::lemma_regroup(name + command + flag + resources, grace, policy + (deps + codes));
    digest::lemma_regroup(name + command + flag + resources + grace, policy, deps + codes);
    digest::lemma_regroup(name + command + flag + resources + grace + policy, deps, codes);
    if let Some(list) = test.resources {
        let front = digest::number_bytes(1);
        assert(test.resource_bytes().take(front.len() as int) =~= front);
    }
}

} // verus!

use limmat::config::{
    default_cache_policy, default_num_worktrees, default_requires_worktree,
    default_shutdown_grace_period, Command, Config, ConfigError, ParsedConfig, Resource, Test,
    TestError,
};
use limmat::dag::{Dag, DagError};
use limmat::resource::ResourceKey;
use limmat::test::{CachePolicy, TestName};

fn test_of(name: &str, depends_on: &[&str]) -> Test {
    Test {
        name: name.to_owned(),
        command: Command::Shell("true".to_owned()),
        requires_worktree: default_requires_worktree(),
        resources: None,
        shutdown_grace_period_s: default_shutdown_grace_period(),
        cache: default_cache_policy(),
        depends_on: depends_on.iter().map(|s| s.to_string()).collect(),
        error_exit_codes: vec![],
    }
}

fn config(resources: Vec<Resource>, tests: Vec<Test>) -> Config {
    Config {
        num_worktrees: default_num_worktrees(),
        resources: Some(resources),
        tests,
    }
}

fn parsed(resources: Vec<Resource>, tests: Vec<Test>) -> ParsedConfig {
    ParsedConfig::from(config(resources, tests))
        .map_err(|e| e.to_string())
        .unwrap()
}

fn refused(resources: Vec<Resource>, tests: Vec<Test>) -> ConfigError {
    match ParsedConfig::from(config(resources, tests)) {
        Ok(_) => panic!("accepted"),
        Err(e) => e,
    }
}

fn hash_of(parsed: &ParsedConfig, name: &str) -> String {
    let test = parsed.tests.node(&TestName::new(name.to_owned()));
    test.unwrap().config_hash.clone()
}

fn pokemon() -> Resource {
    Resource::Explicit {
        name: "pokemon".to_owned(),
        tokens: vec![
            "moltres".to_owned(),
            "articuno".to_owned(),
            "zapdos".to_owned(),
        ],
    }
}

fn key(name: &str) -> ResourceKey {
    ResourceKey::UserToken(name.to_owned())
}

#[test]
fn defaults_are_the_documented_ones() {
    assert!(default_requires_worktree());
    assert_eq!(default_cache_policy(), CachePolicy::ByCommit);
    assert_eq!(default_shutdown_grace_period(), 60);
    assert_eq!(default_num_worktrees(), 8);
}

#[test]
fn the_example_is_accepted() {
    let mut fmt = test_of("fmt", &[]);
    fmt.command = Command::Shell("cargo fmt --check".to_owned());
    let mut test = test_of("test", &[]);
    test.command = Command::Raw(vec!["cargo".to_owned(), "test".to_owned()]);
    let parsed = parsed(vec![], vec![fmt, test]);
    assert_eq!(parsed.num_worktrees, 8);
    let fmt = parsed.tests.node(&TestName::new("fmt".to_owned())).unwrap();
    assert_eq!(fmt.program, "bash");
    assert_eq!(fmt.args, ["-c", "cargo fmt --check"]);
    assert_eq!(fmt.shutdown_grace_period, 60);
    assert_eq!(fmt.cache_policy, CachePolicy::ByCommit);
    assert!(fmt.needs_worktree());
    let test = parsed.tests.node(&TestName::new("test".to_owned())).unwrap();
    assert_eq!(test.program, "cargo");
    assert_eq!(test.args, ["test"]);
}

#[test]
fn resources_have_tokens() {
    let config = config(
        vec![
            pokemon(),
            Resource::Bare("single".to_owned()),
            Resource::Counted {
                name: "many".to_owned(),
                count: 3,
            },
        ],
        vec![],
    );
    let tokens = config.parse_resource_tokens();
    assert_eq!(
        tokens.get(&key("pokemon")).unwrap(),
        &["moltres", "articuno", "zapdos"]
    );
    assert_eq!(tokens.get(&key("single")).unwrap(), &["single-0"]);
    assert_eq!(
        tokens.get(&key("many")).unwrap(),
        &["many-0", "many-1", "many-2"]
    );
    assert_eq!(tokens.len(), 3);
    assert_eq!(pokemon().name(), "pokemon");
    assert_eq!(pokemon().count(), 3);
}

#[test]
fn pools_hold_the_tokens() {
    let mut parsed = parsed(vec![pokemon()], vec![]);
    // Worktrees are not created.
    assert!(!parsed
        .resource_pools
        .serves(&vec![(ResourceKey::Worktree, 1)]));
    assert!(parsed.resource_pools.get(&vec![(key("pokemon"), 4)]).is_none());
    assert!(parsed.resource_pools.get(&vec![(key("pokemon"), 3)]).is_some());
}

#[test]
fn tests_need_what_they_refer_to() {
    let mut test = test_of("t", &[]);
    test.resources = Some(vec![Resource::Counted {
        name: "pokemon".to_owned(),
        count: 2,
    }]);
    let parsed = parsed(vec![pokemon()], vec![test]);
    let test = &parsed.tests.nodes()[0];
    let mut wants = test.wants(false);
    wants.sort_by_key(|(_, count)| *count);
    assert_eq!(wants, [(ResourceKey::Worktree, 1), (key("pokemon"), 2)]);
    assert_eq!(test.wants(true), [(key("pokemon"), 2)]);
}

#[test]
fn tests_can_do_without_a_worktree() {
    let mut test = test_of("t", &[]);
    test.requires_worktree = false;
    let parsed = parsed(vec![], vec![test]);
    assert!(!parsed.tests.nodes()[0].needs_worktree());
    assert!(parsed.tests.nodes()[0].wants(false).is_empty());
}

#[test]
fn undefined_resources_are_refused() {
    let mut test = test_of("t", &[]);
    test.resources = Some(vec![Resource::Bare("digimon".to_owned())]);
    let err = refused(vec![pokemon()], vec![test]);
    assert_eq!(
        err.to_string(),
        "undefined resource \"digimon\" referenced in test \"t\""
    );
}

#[test]
fn repeated_resources_are_refused() {
    let mut test = test_of("t", &[]);
    test.resources = Some(vec![
        Resource::Bare("pokemon".to_owned()),
        Resource::Bare("pokemon".to_owned()),
    ]);
    let err = refused(vec![pokemon()], vec![test]);
    assert_eq!(
        err.to_string(),
        "parsing tests: duplicate resource reference \"pokemon\""
    );
}

#[test]
fn success_is_no_error_exit_code() {
    let mut test = test_of("t", &[]);
    test.error_exit_codes = vec![50, 0];
    assert_eq!(
        test.parse(&Dag::empty()).map(|_| ()),
        Err(TestError::ZeroErrorCode)
    );
    let err = refused(vec![], vec![test]);
    assert_eq!(
        err.to_string(),
        "parsing tests: error_exit_codes must not contain 0"
    );
    let mut test = test_of("t", &[]);
    test.error_exit_codes = vec![50, 51];
    assert_eq!(
        parsed(vec![], vec![test]).tests.nodes()[0].error_exit_codes,
        [50, 51]
    );
}

#[test]
fn a_missing_program_matters_only_where_it_would_be_used() {
    let bare = |name: &str, depends_on: &[&str]| {
        let mut test = test_of(name, depends_on);
        test.command = Command::Raw(vec![]);
        test
    };
    let check = |tests| {
        ParsedConfig::from_checked(config(vec![pokemon()], tests))
            .map(|parsed| parsed.map(|_| ()).map_err(|e| e.to_string()))
    };
    assert_eq!(check(vec![test_of("t", &[])]), Some(Ok(())));
    assert_eq!(check(vec![bare("t", &[])]), None);
    // What is wrong otherwise comes first.
    let mut zero = bare("t", &[]);
    zero.error_exit_codes = vec![0];
    assert!(!zero.is_acceptable());
    assert!(!zero.command.has_program());
    let zero_error = "parsing tests: error_exit_codes must not contain 0".to_owned();
    assert_eq!(check(vec![zero]), Some(Err(zero_error.clone())));
    let mut repeated = bare("t", &["gone"]);
    repeated.resources = Some(vec![
        Resource::Bare("pokemon".to_owned()),
        Resource::Bare("pokemon".to_owned()),
    ]);
    assert_eq!(
        repeated.parse(&Dag::empty()).map(|_| ()),
        Err(TestError::DuplicateResource("pokemon".to_owned()))
    );
    assert!(matches!(
        check(vec![bare("a", &["b"])]),
        Some(Err(message)) if message.starts_with("parsing test dependency graph")
    ));
    // A test is made sense of after those that it depends on.
    let mut first = test_of("first", &[]);
    first.error_exit_codes = vec![0];
    assert_eq!(
        check(vec![bare("second", &["first"]), first]),
        Some(Err(zero_error))
    );
    let mut second = test_of("second", &["first"]);
    second.error_exit_codes = vec![0];
    assert_eq!(check(vec![second, bare("first", &[])]), None);
}

#[test]
fn bad_dependencies_are_refused() {
    assert_eq!(
        refused(vec![], vec![test_of("a", &[]), test_of("a", &[])]),
        ConfigError::Graph(DagError::DuplicateId("a".to_owned()))
    );
    let err = refused(vec![], vec![test_of("a", &["b"])]);
    assert_eq!(
        err.to_string(),
        "parsing test dependency graph: \"a\" refers to nonexistent \"b\""
    );
    assert!(matches!(
        refused(vec![], vec![test_of("a", &["b"]), test_of("b", &["a"])]),
        ConfigError::Graph(DagError::Cycle(_))
    ));
    assert!(matches!(
        refused(vec![], vec![test_of("a", &["a"])]),
        ConfigError::Graph(DagError::Cycle(_))
    ));
}

#[test]
fn tests_are_parsed_after_their_dependencies() {
    let parsed = parsed(
        vec![],
        vec![test_of("c", &["b"]), test_of("b", &["a"]), test_of("a", &[])],
    );
    let names: Vec<&str> = parsed
        .tests
        .nodes()
        .iter()
        .map(|t| t.name.as_str())
        .collect();
    assert_eq!(names, ["a", "b", "c"]);
}

#[test]
fn every_change_of_a_test_changes_its_hash() {
    let with = |change: fn(&mut Test)| {
        let mut test = test_of("t", &[]);
        change(&mut test);
        hash_of(&parsed(vec![pokemon()], vec![test]), "t")
    };
    let hashes = [
        with(|_| ()),
        with(|t| t.command = Command::Shell("false".to_owned())),
        with(|t| t.command = Command::Raw(vec!["true".to_owned()])),
        with(|t| t.requires_worktree = false),
        with(|t| t.resources = Some(vec![])),
        with(|t| t.resources = Some(vec![Resource::Bare("pokemon".to_owned())])),
        with(|t| {
            t.resources = Some(vec![Resource::Counted {
                name: "pokemon".to_owned(),
                count: 1,
            }])
        }),
        with(|t| t.shutdown_grace_period_s = 61),
        with(|t| t.cache = CachePolicy::ByTree),
        with(|t| t.cache = CachePolicy::NoCaching),
        with(|t| t.error_exit_codes = vec![1]),
        with(|t| t.error_exit_codes = vec![1, 2]),
    ];
    for i in 0..hashes.len() {
        assert_eq!(hashes[i].len(), 64);
        for j in 0..i {
            assert_ne!(hashes[i], hashes[j], "{i} {j}");
        }
    }
    assert_eq!(hashes[0], with(|_| ()));
}

#[test]
fn a_change_of_a_dependency_changes_the_hash() {
    let with = |grace| {
        let mut base = test_of("base", &[]);
        base.shutdown_grace_period_s = grace;
        parsed(
            vec![],
            vec![
                test_of("top", &["middle"]),
                test_of("middle", &["base"]),
                base,
                test_of("apart", &[]),
            ],
        )
    };
    let (a, b) = (with(1), with(2));
    for name in ["base", "middle", "top"] {
        assert_ne!(hash_of(&a, name), hash_of(&b, name));
    }
    assert_eq!(hash_of(&a, "apart"), hash_of(&b, "apart"));
}

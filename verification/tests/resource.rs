use limmat::git::TempWorktree;
use limmat::resource::{Pools, Resource, ResourceKey};

fn key(name: &str) -> ResourceKey {
    ResourceKey::UserToken(name.to_owned())
}

fn token(name: &str) -> Resource {
    Resource::UserToken(name.to_owned())
}

fn worktree(path: &str) -> TempWorktree {
    TempWorktree {
        origin: "/origin".to_owned(),
        path: path.to_owned(),
    }
}

fn foo_and_bar() -> Pools {
    Pools::new(vec![
        (key("foo"), vec![token("foo1"), token("foo2"), token("foo3")]),
        (key("bar"), vec![token("bar1"), token("bar2")]),
    ])
}

#[test]
fn test_pools_one_empty_blocks() {
    let mut pools = Pools::new(vec![(key("foo"), vec![]), (key("bar"), vec![])]);
    let wants = vec![(key("foo"), 1), (key("bar"), 0)];
    assert!(pools.serves(&wants));
    assert!(pools.get(&wants).is_none());
}

#[test]
fn test_pools_get_some() {
    let mut pools = foo_and_bar();
    {
        let tokens = pools.get(&vec![(key("foo"), 2), (key("bar"), 2)]).unwrap();
        assert!(
            pools.get(&vec![(key("foo"), 3)]).is_none(),
            "returned too many tokens"
        );
        pools.put(tokens);
    }
    assert!(pools.get(&vec![(key("foo"), 3)]).is_some());
}

#[test]
fn a_refused_request_takes_nothing() {
    let mut pools = foo_and_bar();
    // There are enough of the first, but not of the second.
    assert!(pools.get(&vec![(key("foo"), 3), (key("bar"), 3)]).is_none());
    assert!(pools.get(&vec![(key("foo"), 3), (key("bar"), 2)]).is_some());
}

#[test]
fn nothing_is_handed_out_twice() {
    let mut pools = foo_and_bar();
    let a = pools.get(&vec![(key("foo"), 2)]).unwrap();
    let b = pools.get(&vec![(key("foo"), 1)]).unwrap();
    let mut names: Vec<String> = Vec::new();
    for held in [&a, &b] {
        for resource in held.resources(&key("foo")).unwrap() {
            match resource {
                Resource::UserToken(name) => names.push(name.clone()),
                Resource::Worktree(_) => panic!("not a token"),
            }
        }
    }
    names.sort();
    assert_eq!(names, ["foo1", "foo2", "foo3"]);
    assert!(pools.get(&vec![(key("foo"), 1)]).is_none());
    assert!(a.resources(&key("bar")).is_none());
}

#[test]
fn getting_and_putting_back_keeps_everything() {
    let mut pools = foo_and_bar();
    for _ in 0..5 {
        let held = pools.get(&vec![(key("foo"), 3), (key("bar"), 1)]).unwrap();
        pools.put(held);
    }
    let held = pools.get(&vec![(key("foo"), 3), (key("bar"), 2)]).unwrap();
    assert_eq!(held.resources(&key("foo")).unwrap().len(), 3);
    assert_eq!(held.resources(&key("bar")).unwrap().len(), 2);
}

#[test]
fn unknown_resources_are_not_served() {
    let pools = foo_and_bar();
    assert!(!pools.serves(&vec![(key("baz"), 1)]));
    assert!(pools.serves(&vec![(key("bar"), 100)]));
    assert!(pools.serves(&vec![]));
}

#[test]
fn worktrees_are_added_and_removed() {
    let mut pools = foo_and_bar();
    assert!(!pools.serves(&vec![(ResourceKey::Worktree, 1)]));
    pools.add(vec![
        (ResourceKey::Worktree, Resource::Worktree(worktree("/a"))),
        (ResourceKey::Worktree, Resource::Worktree(worktree("/b"))),
    ]);
    let held = pools.get(&vec![(ResourceKey::Worktree, 1)]).unwrap();
    assert!(held.resources(&ResourceKey::Worktree).unwrap()[0]
        .as_worktree()
        .path
        .starts_with('/'));
    pools.put(held);
    let mut paths: Vec<String> = pools
        .try_remove_worktrees()
        .into_iter()
        .map(|w| w.path)
        .collect();
    paths.sort();
    assert_eq!(paths, ["/a", "/b"]);
    assert!(pools.try_remove_worktrees().is_empty());
    // The tokens are still there.
    assert!(pools.get(&vec![(key("foo"), 3), (key("bar"), 2)]).is_some());
}

#[test]
fn tokens_are_listed_by_resource() {
    let mut pools = foo_and_bar();
    pools.add(vec![(
        ResourceKey::Worktree,
        Resource::Worktree(worktree("/a")),
    )]);
    let held = pools
        .get(&vec![(ResourceKey::Worktree, 1), (key("bar"), 2)])
        .unwrap();
    let mut tokens = held.tokens();
    assert_eq!(tokens.len(), 1);
    assert_eq!(tokens[0].0, "bar");
    tokens[0].1.sort();
    assert_eq!(tokens[0].1, ["bar1", "bar2"]);
}

//! Shared resources that throttle the test jobs.
use crate::assoc;
use crate::assoc::Assoc;
use crate::git::TempWorktree;
use crate::ident::Ident;
use crate::strings;
use vstd::prelude::*;

verus! {

/// Key to identify the type of resource that can be put into the pool.
#[derive(Debug, PartialEq, Eq, Hash)]
pub enum ResourceKey {
    /// Special type of resource representing worktrees.
    Worktree,
    /// Resource defined by the user.
    UserToken(String),
}

/// What a key stands for.
pub enum KeyView {
    Worktree,
    UserToken(Seq<char>),
}

impl View for ResourceKey {
    type V = KeyView;

    open spec fn view(&self) -> KeyView {
        match self {
            ResourceKey::Worktree => KeyView::Worktree,
            ResourceKey::UserToken(name) => KeyView::UserToken(name@),
        }
    }
}

impl Clone for ResourceKey {
    fn clone(&self) -> (r: Self)
        ensures
            r == *self,
    {
        match self {
            ResourceKey::Worktree => ResourceKey::Worktree,
            ResourceKey::UserToken(name) => ResourceKey::UserToken(name.clone()),
        }
    }
}

impl Ident for ResourceKey {
    open spec fn debug_form(id: KeyView) -> Seq<char> {
        match id {
            KeyView::Worktree => "Worktree"@,
            KeyView::UserToken(name) => "UserToken("@ + strings::debug_text(name) + ")"@,
        }
    }

    fn same(&self, other: &Self) -> (r: bool) {
        match (self, other) {
            (ResourceKey::Worktree, ResourceKey::Worktree) => true,
            (ResourceKey::UserToken(a), ResourceKey::UserToken(b)) => *a == *b,
            _ => false,
        }
    }

    fn duplicate(&self) -> (r: Self) {
        self.clone()
    }

    fn debug(&self) -> (r: String) {
        match self {
            ResourceKey::Worktree => String::from_str("Worktree"),
            ResourceKey::UserToken(name) => {
                let mut out: String = String::from_str("UserToken(");
                out.append(strings::debug_string(name.as_str()).as_str());
                out.append(")");
                out
            },
        }
    }
}

/// Resource that can be put in the pool.
#[derive(Debug, PartialEq, Eq)]
pub enum Resource {
    Worktree(TempWorktree),
    UserToken(String),
}

impl Resource {
    /// Assumes that your resource is a worktree.
    pub fn as_worktree(&self) -> (r: &TempWorktree)
        requires
            self is Worktree,
        ensures
            *r == self->Worktree_0,
    {
        match self {
            Resource::Worktree(w) => w,
            Resource::UserToken(_) => vstd::pervasive::unreached(),
        }
    }
}

/// A map with vectors replaced by what they hold.
pub open spec fn contents(m: Map<KeyView, Vec<Resource>>) -> Map<KeyView, Seq<Resource>> {
    Map::new(|k: KeyView| m.dom().contains(k), |k: KeyView| m[k]@)
}

/// Whether every pool has as many resources as are wanted of it.
pub open spec fn enough(pools: Map<KeyView, Seq<Resource>>, wants: Map<KeyView, usize>) -> bool {
    forall|k: KeyView|
        #[trigger] wants.dom().contains(k) ==> pools.dom().contains(k) && pools[k].len() >= wants[k]
}

/// What is left in the pools when the wanted numbers of resources are taken
/// from their ends.
pub open spec fn left_over(
    pools: Map<KeyView, Seq<Resource>>,
    wants: Map<KeyView, usize>,
) -> Map<KeyView, Seq<Resource>> {
    Map::new(
        |k: KeyView| pools.dom().contains(k),
        |k: KeyView|
            if wants.dom().contains(k) {
                pools[k].take(pools[k].len() - wants[k])
            } else {
                pools[k]
            },
    )
}

/// What is taken from the ends of the pools.
pub open spec fn taken(
    pools: Map<KeyView, Seq<Resource>>,
    wants: Map<KeyView, usize>,
) -> Map<KeyView, Seq<Resource>> {
    Map::new(
        |k: KeyView| wants.dom().contains(k),
        |k: KeyView| pools[k].skip(pools[k].len() - wants[k]),
    )
}

/// The pools after resources were put back, at their ends.
pub open spec fn given_back(
    pools: Map<KeyView, Seq<Resource>>,
    held: Map<KeyView, Seq<Resource>>,
) -> Map<KeyView, Seq<Resource>> {
    Map::new(
        |k: KeyView| pools.dom().contains(k),
        |k: KeyView|
            if held.dom().contains(k) {
                pools[k] + held[k]
            } else {
                pools[k]
            },
    )
}

/// Putting back what was taken restores the pools.
pub proof fn lemma_get_put(pools: Map<KeyView, Seq<Resource>>, wants: Map<KeyView, usize>)
    requires
        enough(pools, wants),
    ensures
        given_back(left_over(pools, wants), taken(pools, wants)) == pools,
{
    let back = given_back(left_over(pools, wants), taken(pools, wants));
    assert forall|k: KeyView| pools.dom().contains(k) implies back[k] == pools[k] by {
        if wants.dom().contains(k) {
            let n: int = pools[k].len() - wants[k];
            assert(pools[k].take(n) + pools[k].skip(n) =~= pools[k]);
        }
    }
    assert(back =~= pools);
}

/// However taking and putting back are interleaved, no resource is lost or
/// doubled: what is in a pool together with what is held from it stays the
/// same.
pub proof fn lemma_conservation(
    pools: Map<KeyView, Seq<Resource>>,
    wants: Map<KeyView, usize>,
    held: Map<KeyView, Seq<Resource>>,
    k: KeyView,
)
    requires
        pools.dom().contains(k),
    ensures
        enough(pools, wants) && wants.dom().contains(k) ==> left_over(
            pools,
            wants,
        )[k].to_multiset().add(taken(pools, wants)[k].to_multiset()) == pools[k].to_multiset(),
        !wants.dom().contains(k) ==> left_over(pools, wants)[k] == pools[k],
        held.dom().contains(k) ==> given_back(pools, held)[k].to_multiset()
            == pools[k].to_multiset().add(held[k].to_multiset()),
        !held.dom().contains(k) ==> given_back(pools, held)[k] == pools[k],
{
    if enough(pools, wants) && wants.dom().contains(k) {
        let n: int = pools[k].len() - wants[k];
        vstd::seq_lib::lemma_multiset_commutative(pools[k].take(n), pools[k].skip(n));
        assert(pools[k].take(n) + pools[k].skip(n) =~= pools[k]);
    }
    if held.dom().contains(k) {
        vstd::seq_lib::lemma_multiset_commutative(pools[k], held[k]);
    }
}

/// Collection of shared resources, consisting of pools of resources. The user
/// can take an arbitrary combination of numbers of different tokens once it is
/// available as a whole, without any underutilization or deadlocking.
#[derive(Debug)]
pub struct Pools {
    resources: Assoc<ResourceKey, Vec<Resource>>,
}

/// Tokens taken from a [`Pools`].
#[derive(Debug)]
pub struct Resources {
    resources: Assoc<ResourceKey, Vec<Resource>>,
}

impl View for Pools {
    type V = Map<KeyView, Seq<Resource>>;

    closed spec fn view(&self) -> Map<KeyView, Seq<Resource>> {
        contents(self.resources@)
    }
}

impl View for Resources {
    type V = Map<KeyView, Seq<Resource>>;

    closed spec fn view(&self) -> Map<KeyView, Seq<Resource>> {
        contents(self.resources@)
    }
}

impl Pools {
    /// No pool is there twice.
    pub closed spec fn wf(&self) -> bool {
        self.resources.wf()
    }

    /// Create a collection of pools with the given resources. Of two pools with
    /// the same key the later one counts.
    pub fn new(resources: Vec<(ResourceKey, Vec<Resource>)>) -> (r: Self)
        ensures
            r.wf(),
            r@ == contents(assoc::map_of(resources@)),
    {
        let ghost all = resources@;
        let mut map: Assoc<ResourceKey, Vec<Resource>> = Assoc::new();
        let mut rest = resources;
        let mut reversed: Vec<(ResourceKey, Vec<Resource>)> = Vec::new();
        while rest.len() > 0
            invariant
                rest@.len() <= all.len(),
                rest@ =~= all.take(rest@.len() as int),
                reversed@.len() + rest@.len() == all.len(),
                forall|i: int|
                    0 <= i < reversed@.len() ==> reversed@[i] == all[all.len() - 1 - i],
            decreases rest@.len(),
        {
            match rest.pop() {
                Some(entry) => {
                    reversed.push(entry);
                },
                None => {},
            }
        }
        let ghost mut n: int = 0;
        assert(all.take(0) =~= Seq::empty());
        while reversed.len() > 0
            invariant
                0 <= n <= all.len(),
                reversed@.len() + n == all.len(),
                forall|i: int|
                    0 <= i < reversed@.len() ==> reversed@[i] == all[all.len() - 1 - i],
                map.wf(),
                map@ == assoc::map_of(all.take(n)),
            decreases reversed@.len(),
        {
            match reversed.pop() {
                Some(entry) => {
                    assert(entry == all[n]);
                    assert(all.take(n + 1).drop_last() =~= all.take(n));
                    map.insert(entry.0, entry.1);
                    proof {
                        n = n + 1;
                    }
                },
                None => {},
            }
        }
        assert(all.take(n) =~= all);
        Pools { resources: map }
    }

    /// Whether there is a pool for every key that is wanted.
    pub fn serves(&self, wants: &Vec<(ResourceKey, usize)>) -> (r: bool)
        requires
            self.wf(),
        ensures
            r == (forall|i: int|
                0 <= i < wants@.len() ==> self@.dom().contains((#[trigger] wants@[i]).0@)),
    {
        let mut i: usize = 0;
        while i < wants.len()
            invariant
                i <= wants@.len(),
                self.wf(),
                forall|k: int|
                    0 <= k < i ==> self@.dom().contains((#[trigger] wants@[k]).0@),
            decreases wants@.len() - i,
        {
            if !self.resources.contains_key(&wants[i].0) {
                assert(!self@.dom().contains(wants@[i as int].0@));
                return false;
            }
            i += 1;
        }
        true
    }

    /// Get the specified number of tokens from each of the pools, if all of
    /// them are available; otherwise take none.
    pub fn get(&mut self, wants: &Vec<(ResourceKey, usize)>) -> (r: Option<Resources>)
        requires
            old(self).wf(),
            assoc::entry_keys(wants@).no_duplicates(),
            forall|i: int|
                0 <= i < wants@.len() ==> old(self)@.dom().contains((#[trigger] wants@[i]).0@),
        ensures
            final(self).wf(),
            r is Some <==> enough(old(self)@, assoc::map_of(wants@)),
            match r {
                Some(held) => {
                    &&& held.wf()
                    &&& held@ == taken(old(self)@, assoc::map_of(wants@))
                    &&& held.lists(wants@)
                    &&& final(self)@ == left_over(old(self)@, assoc::map_of(wants@))
                },
                None => final(self)@ == old(self)@,
            },
    {
        let ghost before = self@;
        let ghost all = assoc::map_of(wants@);
        // First check if all the resources we need are available.
        let mut i: usize = 0;
        while i < wants.len()
            invariant
                i <= wants@.len(),
                self.wf(),
                self@ == before,
                *self == *old(self),
                before == old(self)@,
                all == assoc::map_of(wants@),
                assoc::entry_keys(wants@).no_duplicates(),
                forall|k: int|
                    0 <= k < wants@.len() ==> before.dom().contains((#[trigger] wants@[k]).0@),
                forall|k: int|
                    0 <= k < i ==> before[(#[trigger] wants@[k]).0@].len() >= wants@[k].1,
            decreases wants@.len() - i,
        {
            assert(before.dom().contains(wants@[i as int].0@));
            let available: usize = match self.resources.get(&wants[i].0) {
                Some(avail) => avail.len(),
                None => 0,
            };
            if available < wants[i].1 {
                proof {
                    assoc::lemma_distinct_entries(wants@, i as int);
                    assert(all.dom().contains(wants@[i as int].0@));
                }
                return None;
            }
            i += 1;
        }
        assert(enough(before, all)) by {
            assert forall|k: KeyView| #[trigger] all.dom().contains(k) implies before.dom().contains(
                k,
            ) && before[k].len() >= all[k] by {
                assoc::lemma_map_of(wants@, k);
                let p = crate::ident::last_position(assoc::entry_keys(wants@), k);
                crate::ident::lemma_last_position(assoc::entry_keys(wants@), k);
                assert(before.dom().contains(wants@[p].0@));
            }
        }
        // They are, so take them out.
        let mut held: Assoc<ResourceKey, Vec<Resource>> = Assoc::new();
        let mut i: usize = 0;
        assert(wants@.take(0) =~= Seq::empty());
        assert(left_over(before, Map::empty()) =~= before);
        assert(taken(before, Map::empty()) =~= contents(held@));
        while i < wants.len()
            invariant
                i <= wants@.len(),
                self.wf(),
                held.wf(),
                all == assoc::map_of(wants@),
                assoc::entry_keys(wants@).no_duplicates(),
                forall|k: int|
                    0 <= k < wants@.len() ==> before.dom().contains((#[trigger] wants@[k]).0@),
                enough(before, all),
                contents(self.resources@) == left_over(before, assoc::map_of(wants@.take(i as int))),
                contents(held@) == taken(before, assoc::map_of(wants@.take(i as int))),
                assoc::entry_keys(held.list()) =~= assoc::entry_keys(wants@).take(i as int),
            decreases wants@.len() - i,
        {
            let ghost sofar = assoc::map_of(wants@.take(i as int));
            let ghost next = assoc::map_of(wants@.take(i + 1));
            let ghost key = wants@[i as int].0@;
            let count: usize = wants[i].1;
            proof {
                assert(wants@.take(i + 1).drop_last() =~= wants@.take(i as int));
                assert(next == sofar.insert(key, count));
                assoc::lemma_distinct_entries(wants@, i as int);
                assoc::lemma_map_of(wants@.take(i as int), key);
                let keys = assoc::entry_keys(wants@);
                let head = assoc::entry_keys(wants@.take(i as int));
                assert(head =~= keys.take(i as int));
                if head.contains(key) {
                    let p = head.index_of(key);
                    assert(keys[p] == keys[i as int]);
                }
                assert(!sofar.dom().contains(key));
                assert(before.dom().contains(key));
                assert(contents(self.resources@).dom().contains(key));
                assert(contents(self.resources@)[key] == before[key]);
            }
            let ghost pools = self.resources@;
            let ghost had = held@;
            let mut avail = self.resources.replace(&wants[i].0, Vec::new());
            assert(avail@ == before[key]);
            let at: usize = avail.len() - count;
            let last = avail.split_off(at);
            let _ = self.resources.replace(&wants[i].0, avail);
            let ghost listed = held.list();
            assert(!taken(before, sofar).dom().contains(key));
            assert(!contents(had).dom().contains(key));
            held.insert(wants[i].0.clone(), last);
            proof {
                assert(held.list() == listed.push((wants@[i as int].0, last)));
                assert(assoc::entry_keys(held.list()) =~= assoc::entry_keys(listed).push(key));
                assert(avail@ =~= before[key].take(before[key].len() - count));
                assert(last@ =~= before[key].skip(before[key].len() - count));
                assert(self.resources@ =~= pools.insert(key, avail));
                assert forall|k: KeyView| contents(self.resources@).dom().contains(k) implies
                    contents(self.resources@)[k] == left_over(before, next)[k] by {
                    if k != key {
                        assert(contents(pools).dom().contains(k));
                        assert(contents(pools)[k] == left_over(before, sofar)[k]);
                    }
                }
                assert forall|k: KeyView| contents(self.resources@).dom().contains(k) == left_over(
                    before,
                    next,
                ).dom().contains(k) by {
                    assert(contents(pools).dom().contains(k) == left_over(
                        before,
                        sofar,
                    ).dom().contains(k));
                }
                assert(contents(self.resources@) =~= left_over(before, next));
                assert forall|k: KeyView| contents(held@).dom().contains(k) == taken(
                    before,
                    next,
                ).dom().contains(k) by {
                    assert(contents(had).dom().contains(k) == taken(before, sofar).dom().contains(
                        k,
                    ));
                }
                assert forall|k: KeyView| contents(held@).dom().contains(k) implies contents(
                    held@,
                )[k] == taken(before, next)[k] by {
                    if k != key {
                        assert(contents(had).dom().contains(k));
                        assert(contents(had)[k] == taken(before, sofar)[k]);
                    }
                }
                assert(contents(held@) =~= taken(before, next));
            }
            i += 1;
        }
        assert(wants@.take(i as int) =~= wants@);
        assert(assoc::entry_keys(wants@).take(i as int) =~= assoc::entry_keys(wants@));
        let held = Resources { resources: held };
        proof {
            assert forall|k: int| 0 <= k < wants@.len() implies (#[trigger] held.entries()[k]).0@
                == wants@[k].0@ && held.entries()[k].1@ == held@[wants@[k].0@] by {
                assert(assoc::entry_keys(held.entries())[k] == assoc::entry_keys(wants@)[k]);
                assoc::lemma_distinct_entries(held.entries(), k);
            }
        }
        Some(held)
    }

    /// Puts tokens back that were taken.
    pub fn put(&mut self, resources: Resources)
        requires
            old(self).wf(),
            resources.wf(),
            resources@.dom().subset_of(old(self)@.dom()),
        ensures
            final(self).wf(),
            final(self)@ == given_back(old(self)@, resources@),
    {
        let ghost before = self@;
        let ghost all = resources@;
        let mut rest = resources.resources;
        while rest.len() > 0
            invariant
                self.wf(),
                rest.wf(),
                contents(rest@).dom().subset_of(self@.dom()),
                given_back(self@, contents(rest@)) == given_back(before, all),
            decreases rest.list().len(),
        {
            let ghost pools = self.resources@;
            let ghost held = rest@;
            match rest.pop() {
                Some((key, mut back)) => {
                    assert(contents(held).dom().contains(key@));
                    assert(self@.dom().contains(key@));
                    let mut avail = self.resources.replace(&key, Vec::new());
                    let ghost had = avail@;
                    let ghost got = back@;
                    avail.append(&mut back);
                    let _ = self.resources.replace(&key, avail);
                    proof {
                        assert(avail@ =~= had + got);
                        assert(self.resources@ =~= pools.insert(key@, avail));
                        let now = given_back(contents(self.resources@), contents(rest@));
                        let earlier = given_back(contents(pools), contents(held));
                        assert forall|k: KeyView| now.dom().contains(k) implies now[k]
                            == earlier[k] by {
                            assert(contents(rest@).dom().contains(k) == (contents(
                                held,
                            ).dom().contains(k) && k != key@));
                        }
                        assert(now =~= earlier);
                        assert forall|k: KeyView| contents(rest@).dom().contains(
                            k,
                        ) implies contents(self.resources@).dom().contains(k) by {
                            assert(contents(held).dom().contains(k));
                            assert(contents(pools).dom().contains(k));
                        }
                    }
                },
                None => {},
            }
        }
        assert(contents(rest@).dom() =~= Set::empty()) by {
            assert(rest.list() =~= Seq::empty());
        }
        assert(given_back(self@, contents(rest@)) =~= self@);
    }

    /// Adds single resources to their pools; a pool that is missing is made.
    pub fn add(&mut self, resources: Vec<(ResourceKey, Resource)>)
        requires
            old(self).wf(),
        ensures
            final(self).wf(),
            final(self)@ == added(old(self)@, resources@),
    {
        let ghost before = self@;
        let ghost all = resources@;
        let mut rest = resources;
        assert(all.take(0) =~= Seq::empty());
        let ghost mut n: int = 0;
        while rest.len() > 0
            invariant
                self.wf(),
                0 <= n <= all.len(),
                rest@ =~= all.skip(n),
                self@ == added(before, all.take(n)),
            decreases rest@.len(),
        {
            let ghost pools = self.resources@;
            let (key, resource) = rest.remove(0);
            assert(all.take(n + 1).drop_last() =~= all.take(n));
            assert(all.take(n + 1).last() == (key, resource));
            let ghost k = key@;
            if self.resources.contains_key(&key) {
                let mut avail = self.resources.replace(&key, Vec::new());
                avail.push(resource);
                let _ = self.resources.replace(&key, avail);
                assert(self.resources@ =~= pools.insert(k, avail));
                assert(contents(self.resources@) =~= contents(pools).insert(k, avail@));
            } else {
                let mut avail: Vec<Resource> = Vec::new();
                avail.push(resource);
                self.resources.insert(key, avail);
                assert(avail@ =~= Seq::empty().push(resource));
                assert(contents(self.resources@) =~= contents(pools).insert(k, avail@));
            }
            proof {
                n = n + 1;
            }
        }
        assert(all.take(n) =~= all);
    }

    /// Takes out the worktrees that are not in use.
    pub fn try_remove_worktrees(&mut self) -> (r: Vec<TempWorktree>)
        requires
            old(self).wf(),
        ensures
            final(self).wf(),
            old(self)@.dom().contains(KeyView::Worktree) ==> r@ == worktrees_in(
                old(self)@[KeyView::Worktree],
            ) && final(self)@ == old(self)@.insert(KeyView::Worktree, Seq::empty()),
            !old(self)@.dom().contains(KeyView::Worktree) ==> r@.len() == 0 && final(self)@
                == old(self)@,
    {
        let mut out: Vec<TempWorktree> = Vec::new();
        let key = ResourceKey::Worktree;
        if !self.resources.contains_key(&key) {
            return out;
        }
        let ghost pools = self.resources@;
        let empty: Vec<Resource> = Vec::new();
        let mut rest = self.resources.replace(&key, empty);
        let ghost all = rest@;
        assert(contents(self.resources@) =~= contents(pools).insert(
            KeyView::Worktree,
            Seq::empty(),
        ));
        let ghost mut n: int = 0;
        assert(all.take(0) =~= Seq::empty());
        while rest.len() > 0
            invariant
                0 <= n <= all.len(),
                rest@ =~= all.skip(n),
                out@ == worktrees_in(all.take(n)),
            decreases rest@.len(),
        {
            let resource = rest.remove(0);
            assert(all.take(n + 1).drop_last() =~= all.take(n));
            assert(all.take(n + 1).last() == resource);
            match resource {
                Resource::Worktree(w) => {
                    out.push(w);
                },
                Resource::UserToken(_) => {},
            }
            proof {
                n = n + 1;
            }
        }
        assert(all.take(n) =~= all);
        out
    }
}

/// The pools with single resources added one after the other.
pub open spec fn added(
    pools: Map<KeyView, Seq<Resource>>,
    more: Seq<(ResourceKey, Resource)>,
) -> Map<KeyView, Seq<Resource>>
    decreases more.len(),
{
    if more.len() == 0 {
        pools
    } else {
        let before = added(pools, more.drop_last());
        let key = more.last().0@;
        let pool = if before.dom().contains(key) {
            before[key]
        } else {
            Seq::empty()
        };
        before.insert(key, pool.push(more.last().1))
    }
}

/// The worktrees among some resources.
pub open spec fn worktrees_in(resources: Seq<Resource>) -> Seq<TempWorktree>
    decreases resources.len(),
{
    if resources.len() == 0 {
        Seq::empty()
    } else {
        let before = worktrees_in(resources.drop_last());
        match resources.last() {
            Resource::Worktree(w) => before.push(w),
            Resource::UserToken(_) => before,
        }
    }
}

/// The texts of the tokens among some resources.
pub open spec fn tokens_in(resources: Seq<Resource>) -> Seq<Seq<char>>
    decreases resources.len(),
{
    if resources.len() == 0 {
        Seq::empty()
    } else {
        let before = tokens_in(resources.drop_last());
        match resources.last() {
            Resource::Worktree(_) => before,
            Resource::UserToken(token) => before.push(token@),
        }
    }
}

/// The names of user-defined resources, each with its tokens.
pub open spec fn token_lists(entries: Seq<(ResourceKey, Vec<Resource>)>) -> Seq<
    (Seq<char>, Seq<Seq<char>>),
>
    decreases entries.len(),
{
    if entries.len() == 0 {
        Seq::empty()
    } else {
        let before = token_lists(entries.drop_last());
        match entries.last().0 {
            ResourceKey::Worktree => before,
            ResourceKey::UserToken(name) => before.push((name@, tokens_in(entries.last().1@))),
        }
    }
}

/// Names with tokens, as texts.
pub open spec fn named_texts(v: Seq<(String, Vec<String>)>) -> Seq<(Seq<char>, Seq<Seq<char>>)> {
    Seq::new(v.len(), |i: int| (v[i].0@, strings::texts(v[i].1@)))
}

impl Resources {
    /// No key is there twice.
    pub closed spec fn wf(&self) -> bool {
        self.resources.wf()
    }

    /// Get access to the resources with the given key, if there are any.
    pub fn resources(&self, key: &ResourceKey) -> (r: Option<&Vec<Resource>>)
        requires
            self.wf(),
        ensures
            r is Some <==> self@.dom().contains(key@),
            r matches Some(v) ==> v@ == self@[key@],
    {
        self.resources.get(key)
    }

    /// What is held, in the order in which it was asked for.
    pub closed spec fn entries(&self) -> Seq<(ResourceKey, Vec<Resource>)> {
        self.resources.list()
    }

    /// What is held, in order, is what was asked for.
    pub open spec fn lists(&self, wants: Seq<(ResourceKey, usize)>) -> bool {
        &&& self.entries().len() == wants.len()
        &&& forall|k: int|
            0 <= k < wants.len() ==> (#[trigger] self.entries()[k]).0@ == wants[k].0@
                && self.entries()[k].1@ == self@[wants[k].0@]
    }

    /// The user-defined resources that are held, each with its tokens.
    pub fn tokens(&self) -> (r: Vec<(String, Vec<String>)>)
        ensures
            named_texts(r@) == token_lists(self.entries()),
    {
        let ghost all = self.entries();
        let mut out: Vec<(String, Vec<String>)> = Vec::new();
        let mut i: usize = 0;
        while i < self.resources.len()
            invariant
                i <= all.len(),
                all == self.resources.list(),
                named_texts(out@) =~= token_lists(all.take(i as int)),
            decreases all.len() - i,
        {
            assert(all.take(i + 1).drop_last() =~= all.take(i as int));
            assert(all.take(i + 1).last() == all[i as int]);
            match self.resources.key_at(i) {
                ResourceKey::Worktree => {},
                ResourceKey::UserToken(name) => {
                    let held = self.resources.value_at(i);
                    let mut tokens: Vec<String> = Vec::new();
                    let mut j: usize = 0;
                    while j < held.len()
                        invariant
                            j <= held@.len(),
                            strings::texts(tokens@) =~= tokens_in(held@.take(j as int)),
                        decreases held@.len() - j,
                    {
                        assert(held@.take(j + 1).drop_last() =~= held@.take(j as int));
                        let ghost before = strings::texts(tokens@);
                        match &held[j] {
                            Resource::Worktree(_) => {},
                            Resource::UserToken(token) => {
                                tokens.push(token.clone());
                                assert(strings::texts(tokens@) =~= before.push(token@));
                            },
                        }
                        j += 1;
                    }
                    assert(held@.take(j as int) =~= held@);
                    let ghost before = named_texts(out@);
                    out.push((name.clone(), tokens));
                    assert(named_texts(out@) =~= before.push((name@, strings::texts(tokens@))));
                },
            }
            i += 1;
        }
        assert(all.take(i as int) =~= all);
        out
    }
}

/// Each user-defined resource that is held is listed with its tokens.
pub proof fn lemma_token_list_of(
    entries: Seq<(ResourceKey, Vec<Resource>)>,
    k: int,
    name: String,
) -> (at: int)
    requires
        0 <= k < entries.len(),
        entries[k].0 == ResourceKey::UserToken(name),
    ensures
        0 <= at < token_lists(entries).len(),
        token_lists(entries)[at] == (name@, tokens_in(entries[k].1@)),
    decreases entries.len(),
{
    let rest = entries.drop_last();
    if k < rest.len() {
        let at = lemma_token_list_of(rest, k, name);
        at
    } else {
        token_lists(rest).len() as int
    }
}

/// Of resources that are all tokens, every one is told, in its place.
pub proof fn lemma_tokens_in(resources: Seq<Resource>)
    requires
        forall|i: int| 0 <= i < resources.len() ==> (#[trigger] resources[i]) is UserToken,
    ensures
        tokens_in(resources).len() == resources.len(),
        forall|i: int|
            0 <= i < resources.len() ==> tokens_in(resources)[i] == (
            #[trigger] resources[i])->UserToken_0@,
    decreases resources.len(),
{
    if resources.len() > 0 {
        let rest = resources.drop_last();
        assert forall|i: int| 0 <= i < rest.len() implies (#[trigger] rest[i]) is UserToken by {
            assert(rest[i] == resources[i]);
        }
        lemma_tokens_in(rest);
        assert forall|i: int| 0 <= i < resources.len() implies tokens_in(resources)[i] == (
        #[trigger] resources[i])->UserToken_0@ by {
            if i < rest.len() {
                assert(rest[i] == resources[i]);
            }
        }
    }
}

/// A request that is granted gets of each resource as many as it asks for, from
/// the pool of that resource, and leaves the others where they were.
pub proof fn lemma_granted_what_was_asked(
    pools: Map<KeyView, Seq<Resource>>,
    wants: Map<KeyView, usize>,
    key: KeyView,
)
    requires
        enough(pools, wants),
    ensures
        taken(pools, wants).dom().contains(key) <==> wants.dom().contains(key),
        wants.dom().contains(key) ==> {
            &&& taken(pools, wants)[key].len() == wants[key]
            &&& left_over(pools, wants)[key] + taken(pools, wants)[key] == pools[key]
        },
        left_over(pools, wants).dom().contains(key) <==> pools.dom().contains(key),
        pools.dom().contains(key) && !wants.dom().contains(key) ==> left_over(pools, wants)[key]
            == pools[key],
{
    if wants.dom().contains(key) {
        assert(left_over(pools, wants)[key] + taken(pools, wants)[key] =~= pools[key]);
    }
}

/// A request can be granted exactly if no pool has too little for it.
pub proof fn lemma_when_granted(pools: Map<KeyView, Seq<Resource>>, wants: Map<KeyView, usize>)
    requires
        wants.dom().subset_of(pools.dom()),
    ensures
        !enough(pools, wants) <==> exists|key: KeyView| #[trigger]
            wants.dom().contains(key) && pools[key].len() < wants[key],
{
}

/// What is added to the pools is there afterwards, and nothing else has changed.
pub proof fn lemma_added(
    pools: Map<KeyView, Seq<Resource>>,
    key: ResourceKey,
    resource: Resource,
    other: KeyView,
)
    ensures
        ({
            let after = added(pools, seq![(key, resource)]);
            let had = if pools.dom().contains(key@) {
                pools[key@]
            } else {
                Seq::empty()
            };
            &&& after.dom().contains(key@)
            &&& after[key@] == had + seq![resource]
            &&& other != key@ ==> (after.dom().contains(other) <==> pools.dom().contains(other))
            &&& other != key@ && pools.dom().contains(other) ==> after[other] == pools[other]
        }),
{
    let more = seq![(key, resource)];
    assert(more.drop_last() =~= Seq::empty());
    assert(added(pools, Seq::<(ResourceKey, Resource)>::empty()) == pools);
    let had = if pools.dom().contains(key@) {
        pools[key@]
    } else {
        Seq::empty()
    };
    assert(had.push(resource) =~= had + seq![resource]);
}

/// Of resources that are all worktrees, every one is told, in its place.
pub proof fn lemma_worktrees_in(resources: Seq<Resource>)
    requires
        forall|i: int| 0 <= i < resources.len() ==> (#[trigger] resources[i]) is Worktree,
    ensures
        worktrees_in(resources).len() == resources.len(),
        forall|i: int|
            0 <= i < resources.len() ==> worktrees_in(resources)[i] == (
            #[trigger] resources[i])->Worktree_0,
    decreases resources.len(),
{
    if resources.len() > 0 {
        let rest = resources.drop_last();
        assert forall|i: int| 0 <= i < rest.len() implies (#[trigger] rest[i]) is Worktree by {
            assert(rest[i] == resources[i]);
        }
        lemma_worktrees_in(rest);
        assert forall|i: int| 0 <= i < resources.len() implies worktrees_in(resources)[i] == (
        #[trigger] resources[i])->Worktree_0 by {
            if i < rest.len() {
                assert(rest[i] == resources[i]);
            }
        }
    }
}

/// Keys stand for the same resource exactly if they are of the same sort and
/// have the same name.
pub proof fn lemma_keys(a: ResourceKey, b: ResourceKey)
    ensures
        a@ == b@ <==> match (a, b) {
            (ResourceKey::Worktree, ResourceKey::Worktree) => true,
            (ResourceKey::UserToken(x), ResourceKey::UserToken(y)) => x@ == y@,
            _ => false,
        },
{
}

/// In messages a resource has its name.
pub proof fn lemma_debug_form(name: Seq<char>)
    ensures
        strings::has_part(
            <ResourceKey as Ident>::debug_form(KeyView::UserToken(name)),
            strings::debug_text(name),
        ),
        <ResourceKey as Ident>::debug_form(KeyView::Worktree) == "Worktree"@,
{
    let part = strings::debug_text(name);
    let m = "UserToken("@.len() as int;
    assert(("UserToken("@ + part + ")"@).subrange(m, m + part.len()) =~= part);
}

/// What is held of each resource is as much as was asked for, listed in the
/// order in which it was asked for.
pub proof fn lemma_held_as_asked(
    held: Resources,
    pools: Map<KeyView, Seq<Resource>>,
    wants: Seq<(ResourceKey, usize)>,
    k: int,
)
    requires
        assoc::entry_keys(wants).no_duplicates(),
        enough(pools, assoc::map_of(wants)),
        held@ == taken(pools, assoc::map_of(wants)),
        held.lists(wants),
        0 <= k < wants.len(),
    ensures
        held.entries()[k].0@ == wants[k].0@,
        held.entries()[k].1@.len() == wants[k].1,
        forall|i: int|
            0 <= i < wants[k].1 ==> pools[wants[k].0@].contains(
                #[trigger] held.entries()[k].1@[i],
            ),
{
    assoc::lemma_distinct_entries(wants, k);
    let key = wants[k].0@;
    let own = held.entries()[k].1@;
    lemma_granted_what_was_asked(pools, assoc::map_of(wants), key);
    assert forall|i: int| 0 <= i < wants[k].1 implies pools[key].contains(#[trigger] own[i]) by {
        assert(own[i] == pools[key][pools[key].len() - wants[k].1 + i]);
    }
}

} // verus!

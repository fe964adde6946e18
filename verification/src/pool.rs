//! A collection of objects that can be temporarily allocated for mutually
//! exclusive ownership.
use vstd::prelude::*;

verus! {

/// Static collection of objects that can be temporarily allocated for mutually exclusive ownership.
#[derive(Debug)]
pub struct Pool<T> {
    objs: Vec<T>,
}

impl<T> View for Pool<T> {
    type V = Seq<T>;

    closed spec fn view(&self) -> Seq<T> {
        self.objs@
    }
}

impl<T> Pool<T> {
    pub fn new(objs: Vec<T>) -> (r: Self)
        ensures
            r@ == objs@,
    {
        Pool { objs }
    }

    /// Get an item from the pool, the one that was put there last. `None` means
    /// that the caller has to wait until one is put back.
    pub fn get(&mut self) -> (r: Option<T>)
        ensures
            match r {
                Some(obj) => old(self)@.len() > 0 && obj == old(self)@.last() && final(self)@
                    == old(self)@.drop_last(),
                None => old(self)@.len() == 0 && final(self)@ == old(self)@,
            },
    {
        self.objs.pop()
    }

    /// Add an item to the pool.
    pub fn put(&mut self, obj: T)
        ensures
            final(self)@ == old(self)@.push(obj),
    {
        self.objs.push(obj);
    }
}

/// Putting back the item that was taken restores the pool.
pub proof fn lemma_get_put<T>(objs: Seq<T>)
    requires
        objs.len() > 0,
    ensures
        objs.drop_last().push(objs.last()) == objs,
{
    assert(objs.drop_last().push(objs.last()) =~= objs);
}

} // verus!

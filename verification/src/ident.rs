//! Values that identify something: two of them are the same exactly when their
//! views are.
use crate::strings;
use vstd::prelude::*;

verus! {

/// What a type must offer to identify things: a view by which two identifiers
/// are the same or not, copies that keep that view, and a form for messages.
pub trait Ident: Sized + View {
    /// How an identifier is written in messages.
    spec fn debug_form(id: Self::V) -> Seq<char>;

    /// Whether two identifiers are the same.
    fn same(&self, other: &Self) -> (r: bool)
        ensures
            r == (self@ == other@),
    ;

    /// Another copy of this identifier.
    fn duplicate(&self) -> (r: Self)
        ensures
            r@ == self@,
    ;

    /// The identifier as it is written in messages.
    fn debug(&self) -> (r: String)
        ensures
            r@ == Self::debug_form(self@),
    ;
}

impl Ident for usize {
    open spec fn debug_form(id: usize) -> Seq<char> {
        strings::decimal(id as int)
    }

    fn same(&self, other: &Self) -> (r: bool) {
        *self == *other
    }

    fn duplicate(&self) -> (r: Self) {
        *self
    }

    fn debug(&self) -> (r: String) {
        strings::decimal_text(*self as u64)
    }
}

impl Ident for String {
    open spec fn debug_form(id: Seq<char>) -> Seq<char> {
        strings::debug_text(id)
    }

    fn same(&self, other: &Self) -> (r: bool) {
        *self == *other
    }

    fn duplicate(&self) -> (r: Self) {
        self.clone()
    }

    fn debug(&self) -> (r: String) {
        strings::debug_string(self.as_str())
    }
}

/// The views of identifiers.
pub open spec fn views<I: View>(s: Seq<I>) -> Seq<I::V> {
    Seq::new(s.len(), |i: int| s[i]@)
}

/// The last position at which `x` occurs in `s`, or -1.
pub open spec fn last_position<V>(s: Seq<V>, x: V) -> int
    decreases s.len(),
{
    if s.len() == 0 {
        -1
    } else if s.last() == x {
        s.len() - 1
    } else {
        last_position(s.drop_last(), x)
    }
}

/// `last_position` finds what occurs, and nothing else.
pub proof fn lemma_last_position<V>(s: Seq<V>, x: V)
    ensures
        -1 <= last_position(s, x) < s.len(),
        s.contains(x) <==> last_position(s, x) >= 0,
        last_position(s, x) >= 0 ==> s[last_position(s, x)] == x,
        forall|i: int| last_position(s, x) < i < s.len() ==> s[i] != x,
    decreases s.len(),
{
    if s.len() > 0 {
        let t = s.drop_last();
        lemma_last_position(t, x);
        if s.last() != x {
            assert forall|i: int| last_position(s, x) < i < s.len() implies s[i] != x by {
                if i < t.len() {
                    assert(t[i] == s[i]);
                }
            }
            if s.contains(x) {
                let k = s.index_of(x);
                assert(t[k] == x);
            }
        } else {
            assert(s[s.len() - 1] == x);
        }
    }
}

/// The last position is the only one from which on the value does not occur.
pub proof fn lemma_last_position_is<V>(s: Seq<V>, x: V, k: int)
    requires
        0 <= k < s.len(),
        s[k] == x,
        forall|i: int| k < i < s.len() ==> s[i] != x,
    ensures
        last_position(s, x) == k,
{
    lemma_last_position(s, x);
    assert(s.contains(x));
}

} // verus!

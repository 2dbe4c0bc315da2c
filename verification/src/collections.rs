//! General purpose data types used by the SCXML interpretation algorithm:
//! `List`, `OrderedSet`, `Queue` and `HashTable`, with the signatures of the
//! W3C pseudo-code.

use vstd::prelude::*;
use std::collections::HashMap;
use std::collections::VecDeque;
use std::hash::Hash;
use vstd::std_specs::hash::obeys_key_model;
use vstd::std_specs::hash::builds_valid_hashers;
use vstd::std_specs::hash::spec_hash_map_iter;
use vstd::std_specs::iter::IteratorSpec;
use std::cmp::Ordering;
use crate::sorting::{arrange, arranged, len_of, positions_of, sort_positions, sorted_by, stable_by, total_order};

verus! {

/// Values that the general purpose collections can hold.
/// Comparing and copying an element agree with its view.
pub trait Element: Sized + View {
    /// True exactly when both elements have the same view.
    fn is_same(&self, other: &Self) -> (r: bool)
        ensures
            r == (self@ == other@),
    ;

    /// A copy of the element with the same view.
    fn duplicate(&self) -> (r: Self)
        ensures
            r@ == self@,
    ;
}

impl Element for u32 {
    fn is_same(&self, other: &Self) -> (r: bool) {
        *self == *other
    }

    fn duplicate(&self) -> (r: Self) {
        *self
    }
}

impl Element for u64 {
    fn is_same(&self, other: &Self) -> (r: bool) {
        *self == *other
    }

    fn duplicate(&self) -> (r: Self) {
        *self
    }
}

impl Element for usize {
    fn is_same(&self, other: &Self) -> (r: bool) {
        *self == *other
    }

    fn duplicate(&self) -> (r: Self) {
        *self
    }
}

impl Element for String {
    fn is_same(&self, other: &Self) -> (r: bool) {
        *self == *other
    }

    fn duplicate(&self) -> (r: Self) {
        self.clone()
    }
}

/// The views of the elements of a sequence, in order.
pub open spec fn views<T: View>(s: Seq<T>) -> Seq<T::V> {
    s.map_values(|x: T| x@)
}

/// Adds `e` to `acc` unless it is already there (set insertion in insertion order).
pub open spec fn set_add<V>(acc: Seq<V>, e: V) -> Seq<V> {
    if acc.contains(e) {
        acc
    } else {
        acc.push(e)
    }
}

/// Adds every element of `s`, in order, to `acc` with `set_add`.
pub open spec fn set_add_all<V>(acc: Seq<V>, s: Seq<V>) -> Seq<V>
    decreases s.len(),
{
    if s.len() == 0 {
        acc
    } else {
        set_add(set_add_all(acc, s.drop_last()), s.last())
    }
}

/// `s` with every element equal to `e` removed, the others in order.
pub open spec fn remove_all<V>(s: Seq<V>, e: V) -> Seq<V> {
    s.filter(|x: V| x != e)
}

/// The elements of `s` whose flag in `keep` is set, in order.
pub open spec fn select<V>(s: Seq<V>, keep: Seq<bool>) -> Seq<V>
    decreases s.len(),
{
    if s.len() == 0 || keep.len() == 0 {
        Seq::empty()
    } else if keep.last() {
        select(s.drop_last(), keep.drop_last()).push(s.last())
    } else {
        select(s.drop_last(), keep.drop_last())
    }
}

/// Adding an element keeps a sequence free of duplicates, and it then contains the element.
pub proof fn lemma_set_add_distinct<V>(acc: Seq<V>, e: V)
    requires
        acc.no_duplicates(),
    ensures
        set_add(acc, e).no_duplicates(),
        set_add(acc, e).contains(e),
        forall|x: V| #[trigger] set_add(acc, e).contains(x) <==> (acc.contains(x) || x == e),
{
    if !acc.contains(e) {
        let r = acc.push(e);
        assert forall|i: int, j: int| 0 <= i < r.len() && 0 <= j < r.len() && i != j implies r[i]
            != r[j] by {
            if i == acc.len() as int {
                assert(acc[j] == r[j]);
            } else if j == acc.len() as int {
                assert(acc[i] == r[i]);
            }
        }
        assert(r[acc.len() as int] == e);
        assert forall|x: V| #[trigger] r.contains(x) implies (acc.contains(x) || x == e) by {
            let k = choose|k: int| 0 <= k < r.len() && r[k] == x;
            if k < acc.len() {
                assert(acc[k] == x);
            }
        }
        assert forall|x: V| acc.contains(x) implies #[trigger] r.contains(x) by {
            let k = choose|k: int| 0 <= k < acc.len() && acc[k] == x;
            assert(r[k] == x);
        }
    }
}

/// What adding an element to a sequence holds.
pub proof fn lemma_set_add_contains<V>(acc: Seq<V>, e: V)
    ensures
        forall|x: V| #[trigger] set_add(acc, e).contains(x) <==> (acc.contains(x) || x == e),
{
    if !acc.contains(e) {
        let r = acc.push(e);
        assert(r[acc.len() as int] == e);
        assert forall|x: V| #[trigger] r.contains(x) implies (acc.contains(x) || x == e) by {
            let k = choose|k: int| 0 <= k < r.len() && r[k] == x;
            if k < acc.len() {
                assert(acc[k] == x);
            }
        }
        assert forall|x: V| acc.contains(x) implies #[trigger] r.contains(x) by {
            let k = choose|k: int| 0 <= k < acc.len() && acc[k] == x;
            assert(r[k] == x);
        }
    }
}

/// What adding all elements of a sequence holds: exactly the elements of both.
pub proof fn lemma_set_add_all_contains<V>(acc: Seq<V>, s: Seq<V>)
    ensures
        forall|x: V| #[trigger] set_add_all(acc, s).contains(x) <==> (acc.contains(x) || s.contains(x)),
    decreases s.len(),
{
    if s.len() > 0 {
        lemma_set_add_all_contains(acc, s.drop_last());
        lemma_set_add_contains(set_add_all(acc, s.drop_last()), s.last());
        assert forall|x: V| #[trigger] set_add_all(acc, s).contains(x) <==> (acc.contains(x)
            || s.contains(x)) by {
            if s.contains(x) && !s.drop_last().contains(x) {
                let k = choose|k: int| 0 <= k < s.len() && s[k] == x;
                if k < s.len() - 1 {
                    assert(s.drop_last()[k] == x);
                }
            }
            if s.drop_last().contains(x) {
                let k = choose|k: int| 0 <= k < s.drop_last().len() && s.drop_last()[k] == x;
                assert(s[k] == x);
            }
        }
    }
}

/// Adding all elements of a sequence keeps the accumulator free of duplicates;
/// the result holds exactly the elements of both.
pub proof fn lemma_set_add_all_distinct<V>(acc: Seq<V>, s: Seq<V>)
    requires
        acc.no_duplicates(),
    ensures
        set_add_all(acc, s).no_duplicates(),
        forall|x: V| #[trigger] set_add_all(acc, s).contains(x) <==> (acc.contains(x) || s.contains(x)),
    decreases s.len(),
{
    if s.len() > 0 {
        lemma_set_add_all_distinct(acc, s.drop_last());
        lemma_set_add_distinct(set_add_all(acc, s.drop_last()), s.last());
        assert forall|x: V| #[trigger] set_add_all(acc, s).contains(x) <==> (acc.contains(x)
            || s.contains(x)) by {
            if s.contains(x) && !s.drop_last().contains(x) {
                let k = choose|k: int| 0 <= k < s.len() && s[k] == x;
                if k < s.len() - 1 {
                    assert(s.drop_last()[k] == x);
                }
            }
            if s.drop_last().contains(x) {
                let k = choose|k: int| 0 <= k < s.drop_last().len() && s.drop_last()[k] == x;
                assert(s[k] == x);
            }
        }
    }
}

/// ## General purpose list type
pub struct List<T> {
    data: Vec<T>,
}

impl<T: View> View for List<T> {
    type V = Seq<T::V>;

    open spec fn view(&self) -> Seq<T::V> {
        views(self.items())
    }
}

impl<T> List<T> {
    /// The elements of the list, in order.
    pub closed spec fn items(&self) -> Seq<T> {
        self.data@
    }
}

/// Two sequences of the same length whose elements have equal views have equal views.
proof fn lemma_views_equal<T: View>(a: Seq<T>, b: Seq<T>)
    requires
        a.len() == b.len(),
        forall|j: int| 0 <= j < a.len() ==> #[trigger] a[j]@ == b[j]@,
    ensures
        views(a) == views(b),
{
    assert(views(a) =~= views(b));
}

/// The views of a sequence with one more element at its end.
proof fn lemma_views_push<T: View>(a: Seq<T>, e: T)
    ensures
        views(a.push(e)) == views(a).push(e@),
{
    assert(views(a.push(e)) =~= views(a).push(e@));
}

/// Copies the elements of a slice, keeping their views.
fn copy_slice<T: Element>(l: &[T]) -> (r: Vec<T>)
    ensures
        views(r@) == views(l@),
{
    let mut r: Vec<T> = Vec::new();
    let mut i: usize = 0;
    while i < l.len()
        invariant
            i <= l.len(),
            r@.len() == i,
            forall|j: int| 0 <= j < i ==> #[trigger] r@[j]@ == l@[j]@,
        decreases l.len() - i,
    {
        let e = l[i].duplicate();
        r.push(e);
        i = i + 1;
    }
    proof {
        lemma_views_equal(r@, l@);
    }
    r
}

impl<T: Element> List<T> {
    /// An empty list.
    pub fn new() -> (r: List<T>)
        ensures
            r@ == Seq::<T::V>::empty(),
    {
        List { data: Vec::new() }
    }

    /// A list holding copies of the elements of `l`, in order.
    pub fn from_array(l: &[T]) -> (r: List<T>)
        ensures
            r@ == views(l@),
    {
        List { data: copy_slice(l) }
    }

    /// The number of elements.
    pub fn size(&self) -> (r: usize)
        ensures
            r == self@.len(),
    {
        self.data.len()
    }

    /// Extension: the element at position `i`.
    pub fn get(&self, i: usize) -> (r: &T)
        requires
            i < self@.len(),
        ensures
            r@ == self@[i as int],
    {
        &self.data[i]
    }

    /// Puts `t` last in the list.
    pub fn push(&mut self, t: T)
        ensures
            final(self)@ == old(self)@.push(t@),
            final(self).items() == old(self).items().push(t),
    {
        self.data.push(t);
        assert(views(self.data@) =~= views(old(self).data@).push(t@));
    }

    /// #W3C says:
    /// Returns the head of the list
    pub fn head(&self) -> (r: &T)
        requires
            self@.len() > 0,
        ensures
            *r == self.items()[0],
            r@ == self@[0],
    {
        &self.data[0]
    }

    /// #W3C says:
    /// Returns the tail of the list (i.e., the rest of the list once the head is removed)
    pub fn tail(&self) -> (r: List<T>)
        requires
            self@.len() > 0,
        ensures
            r@ == self@.drop_first(),
    {
        let mut d = copy_slice(self.data.as_slice());
        let ghost before = d@;
        d.remove(0);
        assert(views(d@) =~= views(before).drop_first());
        List { data: d }
    }

    /// #W3C says:
    /// Returns the list appended with l
    pub fn append(&self, l: &List<T>) -> (r: List<T>)
        ensures
            r@ == self@ + l@,
    {
        let mut t = copy_slice(self.data.as_slice());
        let mut i: usize = 0;
        while i < l.data.len()
            invariant
                i <= l.data@.len(),
                views(t@) == self@ + views(l.data@.take(i as int)),
            decreases l.data@.len() - i,
        {
            let e = l.data[i].duplicate();
            proof {
                lemma_views_push(t@, e);
                lemma_views_push(l.data@.take(i as int), l.data@[i as int]);
                assert(l.data@.take(i + 1) =~= l.data@.take(i as int).push(l.data@[i as int]));
            }
            t.push(e);
            i = i + 1;
        }
        assert(l.data@.take(l.data@.len() as int) =~= l.data@);
        List { data: t }
    }

    /// #W3C says:
    /// Returns the list appended with l
    pub fn appendSet(&self, l: &OrderedSet<T>) -> (r: List<T>)
        ensures
            r@ == self@ + l@,
    {
        let mut t = copy_slice(self.data.as_slice());
        let mut i: usize = 0;
        while i < l.data.len()
            invariant
                i <= l.data@.len(),
                views(t@) == self@ + views(l.data@.take(i as int)),
            decreases l.data@.len() - i,
        {
            let e = l.data[i].duplicate();
            proof {
                lemma_views_push(t@, e);
                lemma_views_push(l.data@.take(i as int), l.data@[i as int]);
                assert(l.data@.take(i + 1) =~= l.data@.take(i as int).push(l.data@[i as int]));
            }
            t.push(e);
            i = i + 1;
        }
        assert(l.data@.take(l.data@.len() as int) =~= l.data@);
        List { data: t }
    }

    /// #W3C says:
    /// Returns the list of elements that satisfy the predicate f
    pub fn filterBy<F: Fn(&T) -> bool>(&self, f: &F) -> (r: List<T>)
        requires
            forall|i: int| 0 <= i < self.items().len() ==> f.requires((&self.items()[i],)),
        ensures
            exists|keep: Seq<bool>|
                {
                    &&& keep.len() == self@.len()
                    &&& forall|i: int|
                        0 <= i < keep.len() ==> f.ensures((&self.items()[i],), #[trigger] keep[i])
                    &&& r@ == select(self@, keep)
                },
    {
        let mut t: Vec<T> = Vec::new();
        let ghost mut keep: Seq<bool> = Seq::empty();
        let mut i: usize = 0;
        while i < self.data.len()
            invariant
                i <= self.data@.len(),
                forall|j: int| 0 <= j < self.items().len() ==> f.requires((&self.items()[j],)),
                keep.len() == i,
                forall|j: int| 0 <= j < i ==> f.ensures((&self.items()[j],), #[trigger] keep[j]),
                views(t@) == select(views(self.data@.take(i as int)), keep),
            decreases self.data@.len() - i,
        {
            proof {
                assert(self.items()[i as int] == self.data@[i as int]);
            }
            let e = &self.data[i];
            let b = f(e);
            if b {
                t.push(e.duplicate());
            }
            proof {
                let old_keep = keep;
                keep = keep.push(b);
                let s = views(self.data@.take(i + 1));
                assert(s.drop_last() =~= views(self.data@.take(i as int)));
                assert(keep.drop_last() =~= old_keep);
                assert(s.last() == self.data@[i as int]@);
            }
            i = i + 1;
            assert(views(t@) =~= select(views(self.data@.take(i as int)), keep));
        }
        assert(self.data@.take(self.data@.len() as int) =~= self.data@);
        List { data: t }
    }

    /// #W3C says:
    /// Returns true if some element in the list satisfies the predicate f.  Returns false for an empty list.
    pub fn some<F: Fn(&T) -> bool>(&self, f: &F) -> (r: bool)
        requires
            forall|i: int| 0 <= i < self.items().len() ==> f.requires((&self.items()[i],)),
        ensures
            r ==> exists|i: int| 0 <= i < self.items().len() && f.ensures((&self.items()[i],), true),
            !r ==> forall|i: int|
                0 <= i < self.items().len() ==> f.ensures((&self.items()[i],), false),
    {
        let mut i: usize = 0;
        while i < self.data.len()
            invariant
                i <= self.data@.len(),
                forall|j: int| 0 <= j < self.items().len() ==> f.requires((&self.items()[j],)),
                forall|j: int| 0 <= j < i ==> f.ensures((&self.items()[j],), false),
            decreases self.data@.len() - i,
        {
            proof {
                assert(self.items()[i as int] == self.data@[i as int]);
            }
            if f(&self.data[i]) {
                assert(f.ensures((&self.items()[i as int],), true));
                return true;
            }
            i = i + 1;
        }
        false
    }

    /// #W3C says:
    /// Returns true if every element in the list satisfies the predicate f.  Returns true for an empty list.
    pub fn every<F: Fn(&T) -> bool>(&self, f: &F) -> (r: bool)
        requires
            forall|i: int| 0 <= i < self.items().len() ==> f.requires((&self.items()[i],)),
        ensures
            r ==> forall|i: int| 0 <= i < self.items().len() ==> f.ensures((&self.items()[i],), true),
            !r ==> exists|i: int|
                0 <= i < self.items().len() && f.ensures((&self.items()[i],), false),
    {
        let mut i: usize = 0;
        while i < self.data.len()
            invariant
                i <= self.data@.len(),
                forall|j: int| 0 <= j < self.items().len() ==> f.requires((&self.items()[j],)),
                forall|j: int| 0 <= j < i ==> f.ensures((&self.items()[j],), true),
            decreases self.data@.len() - i,
        {
            proof {
                assert(self.items()[i as int] == self.data@[i as int]);
            }
            if !f(&self.data[i]) {
                assert(f.ensures((&self.items()[i as int],), false));
                return false;
            }
            i = i + 1;
        }
        true
    }

    /// The elements of the list, in order.
    pub fn iterator(&self) -> (r: std::slice::Iter<'_, T>)
        ensures
            vstd::std_specs::slice::into_iter_elts(r) == self.items(),
    {
        proof {
            broadcast use vstd::std_specs::slice::axiom_spec_slice_iter;
        }
        self.data.iter()
    }

    /// The set of the elements of the list; each element is kept at its first occurrence.
    pub fn toSet(&self) -> (r: OrderedSet<T>)
        ensures
            r@ == set_add_all(Seq::<T::V>::empty(), self@),
    {
        let mut s = OrderedSet::new();
        let mut i: usize = 0;
        while i < self.data.len()
            invariant
                i <= self.data@.len(),
                s@ == set_add_all(Seq::<T::V>::empty(), views(self.data@.take(i as int))),
            decreases self.data@.len() - i,
        {
            s.add(self.data[i].duplicate());
            proof {
                let v = views(self.data@.take(i + 1));
                assert(v.drop_last() =~= views(self.data@.take(i as int)));
                assert(v.last() == self.data@[i as int]@);
            }
            i = i + 1;
        }
        assert(self.data@.take(self.data@.len() as int) =~= self.data@);
        s
    }
}

impl<T: Element> List<T> {
    /// Returns the list sorted by `compare`, stably: the result holds the elements of the
    /// list at the positions of a permutation, in the order of `compare`, and equal elements
    /// keep their order. `compare` must be a total order.
    pub fn sort<F: Fn(&T, &T) -> Ordering>(&self, compare: &F) -> (r: List<T>)
        requires
            total_order(compare),
        ensures
            exists|p: Seq<usize>|
                #[trigger] positions_of(p, len_of(self.items())) && r@ == arranged(self@, p)
                    && sorted_by(compare, self.items(), p) && stable_by(compare, self.items(), p),
    {
        let p = sort_positions(&self.data, compare);
        let r = List { data: arrange(&self.data, &p) };
        assert(positions_of(p@, len_of(self.items())));
        r
    }
}

/// Set datatype used by the algorithm,
/// #W3C says:
/// Note that the algorithm assumes a Lisp-like semantics in which the empty Set null is equivalent
/// to boolean 'false' and all other entities are equivalent to 'true'.
pub struct OrderedSet<T> {
    data: Vec<T>,
}

impl<T: View> View for OrderedSet<T> {
    type V = Seq<T::V>;

    open spec fn view(&self) -> Seq<T::V> {
        views(self.items())
    }
}

impl<T> OrderedSet<T> {
    /// The elements of the set, in insertion order.
    pub closed spec fn items(&self) -> Seq<T> {
        self.data@
    }
}

impl<T: Element> OrderedSet<T> {
    /// An empty set.
    pub fn new() -> (r: OrderedSet<T>)
        ensures
            r@ == Seq::<T::V>::empty(),
    {
        OrderedSet { data: Vec::new() }
    }

    /// A set holding copies of the elements of `l`, in order, as given.
    pub fn from_array(l: &[T]) -> (r: OrderedSet<T>)
        ensures
            r@ == views(l@),
    {
        OrderedSet { data: copy_slice(l) }
    }

    /// Extension: The size (only informational)
    pub fn size(&self) -> (r: usize)
        ensures
            r == self@.len(),
    {
        self.data.len()
    }

    /// Extension: the element at position `i`.
    pub fn get(&self, i: usize) -> (r: &T)
        requires
            i < self@.len(),
        ensures
            r@ == self@[i as int],
    {
        &self.data[i]
    }

    /// #W3C says:
    /// Is e a member of set?
    pub fn isMember(&self, e: &T) -> (r: bool)
        ensures
            r == self@.contains(e@),
    {
        let mut i: usize = 0;
        while i < self.data.len()
            invariant
                i <= self.data@.len(),
                forall|j: int| 0 <= j < i ==> self.data@[j]@ != e@,
            decreases self.data@.len() - i,
        {
            if self.data[i].is_same(e) {
                assert(self@[i as int] == e@);
                return true;
            }
            i = i + 1;
        }
        false
    }

    /// #W3C says:
    /// Adds e to the set if it is not already a member
    pub fn add(&mut self, e: T)
        ensures
            final(self)@ == set_add(old(self)@, e@),
    {
        if !self.isMember(&e) {
            self.data.push(e);
            assert(views(self.data@) =~= views(old(self).data@).push(e@));
        }
    }

    /// #W3C says:
    /// Deletes e from the set
    pub fn delete(&mut self, e: &T)
        ensures
            final(self)@ == remove_all(old(self)@, e@),
    {
        let mut kept: Vec<T> = Vec::new();
        let ghost all = self.data@;
        let mut i: usize = 0;
        while i < self.data.len()
            invariant
                self.data@ == all,
                i <= all.len(),
                views(kept@) == remove_all(views(all.take(i as int)), e@),
            decreases all.len() - i,
        {
            if !self.data[i].is_same(e) {
                kept.push(self.data[i].duplicate());
            }
            proof {
                let v = views(all.take(i + 1));
                assert(v.drop_last() =~= views(all.take(i as int)));
                assert(v.last() == all[i as int]@);
                v.drop_last().lemma_filter_push(v.last(), |x: T::V| x != e@);
                assert(v =~= v.drop_last().push(v.last()));
            }
            i = i + 1;
            assert(views(kept@) =~= remove_all(views(all.take(i as int)), e@));
        }
        assert(all.take(all.len() as int) =~= all);
        self.data = kept;
    }

    /// #W3C says:
    /// Adds all members of s that are not already members of the set
    /// (s must also be an OrderedSet)
    pub fn union(&mut self, s: &OrderedSet<T>)
        ensures
            final(self)@ == set_add_all(old(self)@, s@),
    {
        let mut i: usize = 0;
        while i < s.data.len()
            invariant
                i <= s.data@.len(),
                self@ == set_add_all(old(self)@, views(s.data@.take(i as int))),
            decreases s.data@.len() - i,
        {
            let si = &s.data[i];
            if !self.isMember(si) {
                self.add(si.duplicate());
            }
            proof {
                let v = views(s.data@.take(i + 1));
                assert(v.drop_last() =~= views(s.data@.take(i as int)));
                assert(v.last() == s.data@[i as int]@);
            }
            i = i + 1;
        }
        assert(s.data@.take(s.data@.len() as int) =~= s.data@);
    }

    /// #W3C says:
    /// Returns true if some element in the set satisfies the predicate f.
    ///
    /// Returns false for an empty set.
    pub fn some<F: Fn(&T) -> bool>(&self, f: &F) -> (r: bool)
        requires
            forall|i: int| 0 <= i < self.items().len() ==> f.requires((&self.items()[i],)),
        ensures
            r ==> exists|i: int| 0 <= i < self.items().len() && f.ensures((&self.items()[i],), true),
            !r ==> forall|i: int|
                0 <= i < self.items().len() ==> f.ensures((&self.items()[i],), false),
    {
        let mut i: usize = 0;
        while i < self.data.len()
            invariant
                i <= self.data@.len(),
                forall|j: int| 0 <= j < self.items().len() ==> f.requires((&self.items()[j],)),
                forall|j: int| 0 <= j < i ==> f.ensures((&self.items()[j],), false),
            decreases self.data@.len() - i,
        {
            proof {
                assert(self.items()[i as int] == self.data@[i as int]);
            }
            if f(&self.data[i]) {
                assert(f.ensures((&self.items()[i as int],), true));
                return true;
            }
            i = i + 1;
        }
        false
    }

    /// #W3C says:
    /// Returns true if every element in the set satisfies the predicate f.
    ///
    /// Returns true for an empty set.
    pub fn every<F: Fn(&T) -> bool>(&self, f: &F) -> (r: bool)
        requires
            forall|i: int| 0 <= i < self.items().len() ==> f.requires((&self.items()[i],)),
        ensures
            r ==> forall|i: int| 0 <= i < self.items().len() ==> f.ensures((&self.items()[i],), true),
            !r ==> exists|i: int|
                0 <= i < self.items().len() && f.ensures((&self.items()[i],), false),
    {
        let mut i: usize = 0;
        while i < self.data.len()
            invariant
                i <= self.data@.len(),
                forall|j: int| 0 <= j < self.items().len() ==> f.requires((&self.items()[j],)),
                forall|j: int| 0 <= j < i ==> f.ensures((&self.items()[j],), true),
            decreases self.data@.len() - i,
        {
            proof {
                assert(self.items()[i as int] == self.data@[i as int]);
            }
            if !f(&self.data[i]) {
                assert(f.ensures((&self.items()[i as int],), false));
                return false;
            }
            i = i + 1;
        }
        true
    }

    /// #W3C says:
    /// Returns true if this set and set s have at least one member in common
    pub fn hasIntersection(&self, s: &OrderedSet<T>) -> (r: bool)
        ensures
            r == exists|x: T::V| self@.contains(x) && s@.contains(x),
    {
        let mut i: usize = 0;
        while i < self.data.len()
            invariant
                i <= self.data@.len(),
                forall|j: int| 0 <= j < i ==> !s@.contains(#[trigger] self@[j]),
            decreases self.data@.len() - i,
        {
            if s.isMember(&self.data[i]) {
                assert(self@.contains(self@[i as int]));
                return true;
            }
            i = i + 1;
        }
        assert forall|x: T::V| self@.contains(x) implies !s@.contains(x) by {
            let k = choose|k: int| 0 <= k < self@.len() && self@[k] == x;
        }
        false
    }

    /// #W3C says:
    /// Is the set empty?
    pub fn isEmpty(&self) -> (r: bool)
        ensures
            r == (self@.len() == 0),
    {
        self.size() == 0
    }

    /// #W3C says:
    /// Remove all elements from the set (make it empty)
    pub fn clear(&mut self)
        ensures
            final(self)@ == Seq::<T::V>::empty(),
    {
        self.data.clear();
        assert(self@ =~= Seq::<T::V>::empty());
    }

    /// #W3C says:
    /// Converts the set to a list that reflects the order in which elements were originally added.
    pub fn toList(&self) -> (r: List<T>)
        ensures
            r@ == self@,
    {
        List { data: copy_slice(self.data.as_slice()) }
    }

    /// The elements of the set, in insertion order.
    pub fn iterator(&self) -> (r: std::slice::Iter<'_, T>)
        ensures
            vstd::std_specs::slice::into_iter_elts(r) == self.items(),
    {
        proof {
            broadcast use vstd::std_specs::slice::axiom_spec_slice_iter;
        }
        self.data.iter()
    }
}

impl<T: Element> OrderedSet<T> {
    /// Returns the elements of the set as a list sorted by `compare`, stably: the elements
    /// at the positions of a permutation, in the order of `compare`, equal elements in
    /// insertion order. `compare` must be a total order.
    pub fn sort<F: Fn(&T, &T) -> Ordering>(&self, compare: &F) -> (r: List<T>)
        requires
            total_order(compare),
        ensures
            exists|p: Seq<usize>|
                #[trigger] positions_of(p, len_of(self.items())) && r@ == arranged(self@, p)
                    && sorted_by(compare, self.items(), p) && stable_by(compare, self.items(), p),
    {
        let p = sort_positions(&self.data, compare);
        let r = List { data: arrange(&self.data, &p) };
        assert(positions_of(p@, len_of(self.items())));
        r
    }
}

/// A first-in first-out queue.
pub struct Queue<T> {
    data: VecDeque<T>,
}

impl<T> View for Queue<T> {
    type V = Seq<T>;

    closed spec fn view(&self) -> Seq<T> {
        self.data@
    }
}

impl<T> Queue<T> {
    /// An empty queue.
    pub fn new() -> (r: Queue<T>)
        ensures
            r@ == Seq::<T>::empty(),
    {
        Queue { data: VecDeque::new() }
    }

    /// Extension to re-use exiting instances.
    pub fn clear(&mut self)
        ensures
            final(self)@ == Seq::<T>::empty(),
    {
        self.data.clear();
    }

    /// #W3C says:
    /// Puts e last in the queue
    pub fn enqueue(&mut self, e: T)
        ensures
            final(self)@ == old(self)@.push(e),
    {
        self.data.push_back(e);
    }

    /// #W3C says:
    /// Removes and returns first element in queue
    pub fn dequeue(&mut self) -> (r: T)
        requires
            old(self)@.len() > 0,
        ensures
            r == old(self)@[0],
            final(self)@ == old(self)@.drop_first(),
    {
        match self.data.pop_front() {
            Some(e) => e,
            None => vstd::pervasive::unreached(),
        }
    }

    /// #W3C says:
    /// Is the queue empty?
    pub fn isEmpty(&self) -> (r: bool)
        ensures
            r == (self@.len() == 0),
    {
        proof {
            broadcast use vstd::std_specs::vecdeque::axiom_spec_len;
        }
        self.data.len() == 0
    }
}

/// Whether two sequences have element-wise equal views.
fn same_views<T: Element>(a: &Vec<T>, b: &Vec<T>) -> (r: bool)
    ensures
        r == (views(a@) == views(b@)),
{
    if a.len() != b.len() {
        assert(views(a@).len() != views(b@).len());
        return false;
    }
    let mut i: usize = 0;
    while i < a.len()
        invariant
            a@.len() == b@.len(),
            i <= a@.len(),
            forall|j: int| 0 <= j < i ==> #[trigger] a@[j]@ == b@[j]@,
        decreases a@.len() - i,
    {
        if !a[i].is_same(&b[i]) {
            assert(views(a@)[i as int] != views(b@)[i as int]);
            return false;
        }
        i = i + 1;
    }
    proof {
        lemma_views_equal(a@, b@);
    }
    true
}

impl<T: Element> Element for List<T> {
    fn is_same(&self, other: &Self) -> (r: bool) {
        same_views(&self.data, &other.data)
    }

    fn duplicate(&self) -> (r: Self) {
        List { data: copy_slice(self.data.as_slice()) }
    }
}

impl<T: Element> Element for OrderedSet<T> {
    fn is_same(&self, other: &Self) -> (r: bool) {
        same_views(&self.data, &other.data)
    }

    fn duplicate(&self) -> (r: Self) {
        OrderedSet { data: copy_slice(self.data.as_slice()) }
    }
}

/// #W3C says:
/// table[foo] returns the value associated with foo.
/// table[foo] = bar sets the value associated with foo to be bar.
/// #Actual implementation:
/// Instead of the Operators, methods are used.
pub struct HashTable<K, T> {
    data: HashMap<K, T>,
}

impl<K, T: View> View for HashTable<K, T> {
    type V = Map<K, T::V>;

    closed spec fn view(&self) -> Map<K, T::V> {
        self.data@.map_values(|v: T| v@)
    }
}

impl<K: Copy + Eq + Hash, T: Element> HashTable<K, T> {
    /// An empty table.
    pub fn new() -> (r: HashTable<K, T>)
        ensures
            r@ == Map::<K, T::V>::empty(),
    {
        let r = HashTable { data: HashMap::new() };
        assert(r@ =~= Map::<K, T::V>::empty());
        r
    }

    /// Extension to re-use exiting instances.
    pub fn clear(&mut self)
        ensures
            final(self)@ == Map::<K, T::V>::empty(),
    {
        self.data.clear();
        assert(self@ =~= Map::<K, T::V>::empty());
    }

    /// Sets the value associated with `k` to a copy of `v`.
    pub fn put(&mut self, k: K, v: &T)
        requires
            obeys_key_model::<K>(),
        ensures
            final(self)@ == old(self)@.insert(k, v@),
    {
        proof {
            broadcast use vstd::std_specs::hash::group_hash_axioms;
        }
        self.data.insert(k, v.duplicate());
        assert(self@ =~= old(self)@.insert(k, v@));
    }

    /// Sets the value associated with `k` to `v`.
    pub fn putMove(&mut self, k: K, v: T)
        requires
            obeys_key_model::<K>(),
        ensures
            final(self)@ == old(self)@.insert(k, v@),
    {
        proof {
            broadcast use vstd::std_specs::hash::group_hash_axioms;
        }
        let ghost vv = v@;
        self.data.insert(k, v);
        assert(self@ =~= old(self)@.insert(k, vv));
    }

    /// Sets the values of all keys of `t` to copies of their values in `t`.
    pub fn putAll(&mut self, t: &HashTable<K, T>)
        requires
            obeys_key_model::<K>(),
        ensures
            final(self)@ == old(self)@.union_prefer_right(t@),
    {
        proof {
            broadcast use vstd::std_specs::hash::group_hash_axioms;
        }
        let ghost start = self.data@;
        let ghost src = t.data@;
        for kv in it: t.data.iter()
            invariant
                obeys_key_model::<K>(),
                builds_valid_hashers::<std::hash::RandomState>(),
                t.data@ == src,
                it.seq() == spec_hash_map_iter(&t.data).remaining(),
                forall|k: K|
                    #[trigger] self.data@.contains_key(k) <==> (start.contains_key(k) || exists|
                        j: int,
                    | 0 <= j < it.index() && *it.seq()[j].0 == k),
                forall|k: K|
                    #[trigger] self.data@.contains_key(k) ==> self.data@[k]@ == (if exists|
                        j: int,
                    | 0 <= j < it.index() && *it.seq()[j].0 == k {
                        src[k]@
                    } else {
                        start[k]@
                    }),
        {
            let (k, v) = kv;
            self.data.insert(*k, v.duplicate());
        }
        assert(self@ =~= old(self)@.union_prefer_right(t@));
    }

    /// Whether a value is associated with `k`.
    pub fn has(&self, k: K) -> (r: bool)
        requires
            obeys_key_model::<K>(),
        ensures
            r == self@.contains_key(k),
    {
        proof {
            broadcast use vstd::std_specs::hash::group_hash_axioms;
        }
        self.data.contains_key(&k)
    }

    /// The value associated with `k`, which must have one.
    pub fn get(&self, k: K) -> (r: &T)
        requires
            obeys_key_model::<K>(),
            self@.contains_key(k),
        ensures
            r@ == self@[k],
    {
        proof {
            broadcast use vstd::std_specs::hash::group_hash_axioms;
        }
        match self.data.get(&k) {
            Some(v) => v,
            None => vstd::pervasive::unreached(),
        }
    }
}

/// A table gives back the value that was last put for a key, and putting a value for one
/// key leaves the other keys as they were.
pub proof fn lemma_table_put_get<K, V>(m: Map<K, V>, k: K, v: V, other: K)
    ensures
        m.insert(k, v).contains_key(k),
        m.insert(k, v)[k] == v,
        other != k ==> (m.insert(k, v).contains_key(other) == m.contains_key(other)),
        other != k && m.contains_key(other) ==> m.insert(k, v)[other] == m[other],
{
}

/// A queue is first in, first out: an element enqueued behind others comes out after them,
/// and an element enqueued into an empty queue comes out next.
pub proof fn lemma_queue_fifo<T>(q: Seq<T>, e: T)
    ensures
        q.len() > 0 ==> q.push(e)[0] == q[0] && q.push(e).drop_first() == q.drop_first().push(e),
        q.len() == 0 ==> q.push(e)[0] == e && q.push(e).drop_first().len() == 0,
{
    if q.len() > 0 {
        assert(q.push(e).drop_first() =~= q.drop_first().push(e));
    }
}

} // verus!

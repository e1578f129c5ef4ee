//! Finite sets kept as strictly ascending vectors.
//!
//! A set has exactly one ascending listing, so two sets hold the same
//! elements exactly when their vectors agree position by position.

use vstd::prelude::*;

verus! {

/// A type whose values are totally ordered through their views.
pub trait Ordered: View + Sized {
    /// The strict order: `a` comes before `b`.
    spec fn before(a: Self::V, b: Self::V) -> bool;

    /// `before` is irreflexive, transitive and total on distinct values.
    proof fn lemma_strict_total_order(a: Self::V, b: Self::V, c: Self::V)
        ensures
            !Self::before(a, a),
            Self::before(a, b) && Self::before(b, c) ==> Self::before(a, c),
            a != b ==> Self::before(a, b) || Self::before(b, a),
    ;

    /// Decides the order of two values.
    fn precedes(&self, other: &Self) -> (r: bool)
        ensures
            r == Self::before(self@, other@),
    ;

    /// A second value with the same view.
    fn duplicate(&self) -> (r: Self)
        ensures
            r@ == self@,
    ;
}

/// Every element of `s` comes before all the elements behind it.
pub open spec fn ascending<T: Ordered>(s: Seq<T::V>) -> bool {
    forall|i: int, j: int| 0 <= i < j < s.len() ==> T::before(#[trigger] s[i], #[trigger] s[j])
}

/// An ascending sequence holds no element twice.
pub proof fn lemma_ascending_no_duplicates<T: Ordered>(s: Seq<T::V>)
    requires
        ascending::<T>(s),
    ensures
        s.no_duplicates(),
{
    assert forall|i: int, j: int| 0 <= i < s.len() && 0 <= j < s.len() && i != j implies s[i]
        != s[j] by {
        T::lemma_strict_total_order(s[i], s[j], s[i]);
        if i < j {
            assert(T::before(s[i], s[j]));
        } else {
            assert(T::before(s[j], s[i]));
        }
    }
}

/// The first element of a non-empty ascending sequence comes before or equals
/// every element of it.
proof fn lemma_first_is_least<T: Ordered>(s: Seq<T::V>, v: T::V)
    requires
        ascending::<T>(s),
        s.contains(v),
    ensures
        v == s[0] || T::before(s[0], v),
{
    let k = choose|k: int| 0 <= k < s.len() && s[k] == v;
    if k > 0 {
        assert(T::before(s[0], s[k]));
    }
}

/// Two ascending sequences with the same elements are the same sequence.
pub proof fn lemma_ascending_unique<T: Ordered>(a: Seq<T::V>, b: Seq<T::V>)
    requires
        ascending::<T>(a),
        ascending::<T>(b),
        a.to_set() == b.to_set(),
    ensures
        a == b,
    decreases a.len(),
{
    if a.len() == 0 {
        if b.len() > 0 {
            assert(b.contains(b[0]));
            assert(b.to_set().contains(b[0]));
            assert(a.contains(b[0]));
        }
        assert(a =~= b);
    } else {
        assert(a.contains(a[0]));
        assert(a.to_set().contains(a[0]));
        assert(b.contains(a[0]));
        assert(b.contains(b[0]));
        assert(b.to_set().contains(b[0]));
        assert(a.contains(b[0]));
        lemma_first_is_least::<T>(a, b[0]);
        lemma_first_is_least::<T>(b, a[0]);
        T::lemma_strict_total_order(a[0], b[0], a[0]);
        assert(a[0] == b[0]);
        let ta = a.drop_first();
        let tb = b.drop_first();
        assert(ascending::<T>(ta)) by {
            assert forall|i: int, j: int| 0 <= i < j < ta.len() implies T::before(
                #[trigger] ta[i],
                #[trigger] ta[j],
            ) by {
                assert(T::before(a[i + 1], a[j + 1]));
            }
        }
        assert(ascending::<T>(tb)) by {
            assert forall|i: int, j: int| 0 <= i < j < tb.len() implies T::before(
                #[trigger] tb[i],
                #[trigger] tb[j],
            ) by {
                assert(T::before(b[i + 1], b[j + 1]));
            }
        }
        assert forall|v: T::V| ta.to_set().contains(v) == tb.to_set().contains(v) by {
            lemma_tail_membership::<T>(a, v);
            lemma_tail_membership::<T>(b, v);
            assert(a.to_set().contains(v) == a.contains(v));
            assert(b.to_set().contains(v) == b.contains(v));
            assert(ta.contains(v) == tb.contains(v));
        }
        assert(ta.to_set() =~= tb.to_set());
        lemma_ascending_unique::<T>(ta, tb);
        assert(a =~= seq![a[0]] + ta);
        assert(b =~= seq![b[0]] + tb);
    }
}

/// Behind the first element of an ascending sequence stand its other elements.
proof fn lemma_tail_membership<T: Ordered>(s: Seq<T::V>, v: T::V)
    requires
        ascending::<T>(s),
        s.len() > 0,
    ensures
        s.drop_first().contains(v) == (s.contains(v) && v != s[0]),
{
    let t = s.drop_first();
    if t.contains(v) {
        let k = choose|k: int| 0 <= k < t.len() && t[k] == v;
        assert(s[k + 1] == v);
        assert(T::before(s[0], s[k + 1]));
        T::lemma_strict_total_order(s[0], v, s[0]);
    }
    if s.contains(v) && v != s[0] {
        let k = choose|k: int| 0 <= k < s.len() && s[k] == v;
        assert(t[k - 1] == v);
    }
}

/// A finite set of `T`, held as the ascending listing of its elements.
#[derive(Debug, PartialEq, Eq)]
pub struct OrderedSet<T: Ordered> {
    items: Vec<T>,
}

impl<T: Ordered> Clone for OrderedSet<T> {
    fn clone(&self) -> (r: Self)
        ensures
            r.elements() == self.elements(),
            r@ == self@,
            r.wf() == self.wf(),
    {
        self.duplicate()
    }
}

impl<T: Ordered> View for OrderedSet<T> {
    type V = Set<T::V>;

    open spec fn view(&self) -> Set<T::V> {
        self.elements().to_set()
    }
}

impl<T: Ordered> OrderedSet<T> {
    /// The elements in the order in which the set lists them.
    pub closed spec fn elements(&self) -> Seq<T::V> {
        self.items@.map_values(|x: T| x@)
    }

    /// The listing is strictly ascending.
    pub open spec fn wf(&self) -> bool {
        ascending::<T>(self.elements())
    }

    /// A well-formed set is finite and has as many elements as its listing.
    pub proof fn lemma_cardinality(&self)
        requires
            self.wf(),
        ensures
            self@.finite(),
            self@.len() == self.elements().len(),
    {
        lemma_ascending_no_duplicates::<T>(self.elements());
        self.elements().unique_seq_to_set();
        vstd::seq_lib::seq_to_set_is_finite(self.elements());
    }

    /// Well-formed sets with the same elements list them alike.
    pub proof fn lemma_same_set_same_listing(&self, other: &Self)
        requires
            self.wf(),
            other.wf(),
            self@ == other@,
        ensures
            self.elements() == other.elements(),
    {
        lemma_ascending_unique::<T>(self.elements(), other.elements());
    }

    /// The empty set.
    pub fn new() -> (s: Self)
        ensures
            s.wf(),
            s.elements() == Seq::<T::V>::empty(),
            s@ == Set::<T::V>::empty(),
    {
        let s = OrderedSet { items: Vec::new() };
        assert(s.elements() =~= Seq::<T::V>::empty());
        assert(s@ =~= Set::<T::V>::empty());
        s
    }

    /// The number of elements.
    pub fn len(&self) -> (n: usize)
        ensures
            n == self.elements().len(),
    {
        self.items.len()
    }

    /// Whether the set holds no element.
    pub fn is_empty(&self) -> (r: bool)
        ensures
            r == (self.elements().len() == 0),
            r == (self@ == Set::<T::V>::empty()),
    {
        let r = self.items.len() == 0;
        proof {
            if r {
                assert(self@ =~= Set::<T::V>::empty());
            } else {
                assert(self.elements().contains(self.elements()[0]));
                assert(self@.contains(self.elements()[0]));
            }
        }
        r
    }

    /// The element at position `i` of the listing.
    pub fn get(&self, i: usize) -> (r: &T)
        requires
            i < self.elements().len(),
        ensures
            r@ == self.elements()[i as int],
    {
        &self.items[i]
    }

    /// Whether `x` is an element.
    pub fn contains(&self, x: &T) -> (r: bool)
        ensures
            r == self@.contains(x@),
    {
        let mut i: usize = 0;
        while i < self.items.len()
            invariant
                i <= self.items.len(),
                forall|k: int| 0 <= k < i ==> self.elements()[k] != x@,
            decreases self.items.len() - i,
        {
            let item = &self.items[i];
            if !item.precedes(x) && !x.precedes(item) {
                proof {
                    T::lemma_strict_total_order(item@, x@, item@);
                    assert(self.elements()[i as int] == x@);
                    assert(self.elements().contains(x@));
                }
                return true;
            }
            proof {
                T::lemma_strict_total_order(item@, x@, item@);
            }
            i += 1;
        }
        false
    }

    /// Adds `x`; returns whether it was new.
    pub fn insert(&mut self, x: T) -> (added: bool)
        requires
            old(self).wf(),
        ensures
            final(self).wf(),
            final(self)@ == old(self)@.insert(x@),
            added == !old(self)@.contains(x@),
    {
        let mut i: usize = 0;
        while i < self.items.len() && !x.precedes(&self.items[i])
            invariant
                i <= self.items.len(),
                *self == *old(self),
                self.wf(),
                forall|k: int| 0 <= k < i ==> T::before(#[trigger] self.elements()[k], x@),
            decreases self.items.len() - i,
        {
            let item = &self.items[i];
            if !item.precedes(&x) {
                proof {
                    T::lemma_strict_total_order(item@, x@, item@);
                    assert(self.elements()[i as int] == x@);
                    assert(self.elements().contains(x@));
                    assert(self@ =~= self@.insert(x@));
                }
                return false;
            }
            i += 1;
        }
        let ghost before = self.elements();
        let ghost xv = x@;
        self.items.insert(i, x);
        proof {
            let after = self.elements();
            assert(after =~= before.insert(i as int, xv));
            assert forall|a: int, b: int| 0 <= a < b < after.len() implies T::before(
                #[trigger] after[a],
                #[trigger] after[b],
            ) by {
                if b < i {
                    assert(T::before(before[a], before[b]));
                } else if b == i {
                    assert(T::before(before[a], xv));
                } else if a < i {
                    assert(T::before(before[a], before[b - 1]));
                } else if a == i {
                    assert(T::before(xv, before[i as int]));
                    if b - 1 > i {
                        assert(T::before(before[i as int], before[b - 1]));
                        T::lemma_strict_total_order(xv, before[i as int], before[b - 1]);
                    }
                } else {
                    assert(T::before(before[a - 1], before[b - 1]));
                }
            }
            assert forall|v: T::V| after.to_set().contains(v) == before.to_set().insert(
                xv,
            ).contains(v) by {
                if after.contains(v) {
                    let k = choose|k: int| 0 <= k < after.len() && after[k] == v;
                    if k < i {
                        assert(before[k] == v);
                    } else if k > i {
                        assert(before[k - 1] == v);
                    }
                }
                if before.contains(v) {
                    let k = choose|k: int| 0 <= k < before.len() && before[k] == v;
                    if k < i {
                        assert(after[k] == v);
                    } else {
                        assert(after[k + 1] == v);
                    }
                }
                if v == xv {
                    assert(after[i as int] == v);
                }
            }
            assert(after.to_set() =~= before.to_set().insert(xv));
            if before.contains(xv) {
                let k = choose|k: int| 0 <= k < before.len() && before[k] == xv;
                T::lemma_strict_total_order(xv, xv, xv);
                if k < i {
                    assert(T::before(before[k], xv));
                } else {
                    assert(T::before(xv, before[i as int]));
                    if k > i {
                        assert(T::before(before[i as int], before[k]));
                        T::lemma_strict_total_order(xv, before[i as int], before[k]);
                    }
                }
            }
        }
        true
    }

    /// A second set with the same elements.
    pub fn duplicate(&self) -> (r: Self)
        ensures
            r.elements() == self.elements(),
            r@ == self@,
            r.wf() == self.wf(),
    {
        let mut items: Vec<T> = Vec::new();
        let mut i: usize = 0;
        while i < self.items.len()
            invariant
                i <= self.items.len(),
                items@.len() == i,
                forall|k: int| 0 <= k < i ==> (#[trigger] items@[k])@ == self.items@[k]@,
            decreases self.items.len() - i,
        {
            items.push(self.items[i].duplicate());
            i += 1;
        }
        let r = OrderedSet { items };
        assert(r.elements() =~= self.elements());
        r
    }

    /// Whether both sets hold the same elements.
    pub fn equals(&self, other: &Self) -> (r: bool)
        requires
            self.wf(),
            other.wf(),
        ensures
            r == (self@ == other@),
    {
        if self.items.len() != other.items.len() {
            proof {
                assert(self.elements().len() == self.items.len());
                assert(other.elements().len() == other.items.len());
                if self@ == other@ {
                    self.lemma_same_set_same_listing(other);
                }
            }
            return false;
        }
        let mut i: usize = 0;
        while i < self.items.len()
            invariant
                i <= self.items.len(),
                self.items.len() == other.items.len(),
                self.wf(),
                other.wf(),
                forall|k: int| 0 <= k < i ==> self.elements()[k] == other.elements()[k],
            decreases self.items.len() - i,
        {
            let a = &self.items[i];
            let b = &other.items[i];
            if a.precedes(b) || b.precedes(a) {
                proof {
                    T::lemma_strict_total_order(a@, b@, a@);
                    assert(self.elements()[i as int] != other.elements()[i as int]);
                    if self@ == other@ {
                        self.lemma_same_set_same_listing(other);
                    }
                }
                return false;
            }
            proof {
                T::lemma_strict_total_order(a@, b@, a@);
            }
            i += 1;
        }
        assert(self.elements() =~= other.elements());
        true
    }

    /// The set of the values that `items` holds.
    pub fn from_vec(items: Vec<T>) -> (r: Self)
        ensures
            r.wf(),
            r@ == items@.map_values(|x: T| x@).to_set(),
            forall|v: T::V|
                r@.contains(v) == exists|i: int| 0 <= i < items@.len() && (#[trigger] items@[i])@ == v,
    {
        let ghost all = items@.map_values(|x: T| x@);
        let mut rest = items;
        let mut r = Self::new();
        while rest.len() > 0
            invariant
                r.wf(),
                rest@.len() <= all.len(),
                rest@.map_values(|x: T| x@) == all.subrange(0, rest@.len() as int),
                r@ == all.subrange(rest@.len() as int, all.len() as int).to_set(),
            decreases rest.len(),
        {
            let ghost n = rest@.len() as int;
            let ghost full = rest@;
            let x = rest.pop().unwrap();
            proof {
                assert(rest@.map_values(|x: T| x@) =~= all.subrange(0, n - 1));
                assert(x@ == all[n - 1]) by {
                    assert(full.map_values(|x: T| x@)[n - 1] == all.subrange(0, n)[n - 1]);
                }
                let tail = all.subrange(n, all.len() as int);
                let longer = all.subrange(n - 1, all.len() as int);
                assert(longer =~= seq![all[n - 1]] + tail);
                assert(longer.to_set() =~= tail.to_set().insert(all[n - 1])) by {
                    assert forall|v: T::V| longer.to_set().contains(v) == tail.to_set().insert(
                        all[n - 1],
                    ).contains(v) by {
                        if longer.contains(v) {
                            let k = choose|k: int| 0 <= k < longer.len() && longer[k] == v;
                            if k > 0 {
                                assert(tail[k - 1] == v);
                            }
                        }
                        if tail.contains(v) {
                            let k = choose|k: int| 0 <= k < tail.len() && tail[k] == v;
                            assert(longer[k + 1] == v);
                        }
                        if v == all[n - 1] {
                            assert(longer[0] == v);
                        }
                    }
                }
            }
            r.insert(x);
        }
        proof {
            assert(all.subrange(0, all.len() as int) =~= all);
            assert forall|v: T::V|
                r@.contains(v) == exists|i: int|
                    0 <= i < items@.len() && (#[trigger] items@[i])@ == v by {
                if r@.contains(v) {
                    let i = choose|i: int| 0 <= i < all.len() && all[i] == v;
                    assert(items@[i]@ == v);
                }
                if exists|i: int| 0 <= i < items@.len() && (#[trigger] items@[i])@ == v {
                    let i = choose|i: int| 0 <= i < items@.len() && (#[trigger] items@[i])@ == v;
                    assert(all[i] == v);
                }
            }
        }
        r
    }

    /// The elements of either set.
    pub fn union(&self, other: &Self) -> (r: Self)
        requires
            self.wf(),
            other.wf(),
        ensures
            r.wf(),
            r@ == self@.union(other@),
    {
        let mut r = self.duplicate();
        let mut i: usize = 0;
        while i < other.items.len()
            invariant
                i <= other.items.len(),
                r.wf(),
                forall|v: T::V|
                    r@.contains(v) == (self@.contains(v) || exists|k: int|
                        0 <= k < i && other.elements()[k] == v),
            decreases other.items.len() - i,
        {
            let x = other.items[i].duplicate();
            let ghost before = r@;
            r.insert(x);
            proof {
                assert forall|v: T::V|
                    r@.contains(v) == (self@.contains(v) || exists|k: int|
                        0 <= k < i + 1 && other.elements()[k] == v) by {
                    if v == other.elements()[i as int] {
                        assert(0 <= i < i + 1 && other.elements()[i as int] == v);
                    }
                }
            }
            i += 1;
        }
        assert(r@ =~= self@.union(other@)) by {
            assert forall|v: T::V| r@.contains(v) == self@.union(other@).contains(v) by {
                if other.elements().contains(v) {
                    let k = choose|k: int| 0 <= k < other.elements().len() && other.elements()[k] == v;
                    assert(0 <= k < i && other.elements()[k] == v);
                }
            }
        }
        r
    }

    /// The elements that both sets hold.
    pub fn intersection(&self, other: &Self) -> (r: Self)
        requires
            self.wf(),
            other.wf(),
        ensures
            r.wf(),
            r@ == self@.intersect(other@),
    {
        let mut r = Self::new();
        let mut i: usize = 0;
        while i < self.items.len()
            invariant
                i <= self.items.len(),
                r.wf(),
                forall|v: T::V|
                    r@.contains(v) == (other@.contains(v) && exists|k: int|
                        0 <= k < i && self.elements()[k] == v),
            decreases self.items.len() - i,
        {
            if other.contains(&self.items[i]) {
                let x = self.items[i].duplicate();
                r.insert(x);
            }
            proof {
                assert forall|v: T::V|
                    r@.contains(v) == (other@.contains(v) && exists|k: int|
                        0 <= k < i + 1 && self.elements()[k] == v) by {
                    if v == self.elements()[i as int] {
                        assert(0 <= i < i + 1 && self.elements()[i as int] == v);
                    }
                }
            }
            i += 1;
        }
        assert(r@ =~= self@.intersect(other@)) by {
            assert forall|v: T::V| r@.contains(v) == self@.intersect(other@).contains(v) by {
                if self.elements().contains(v) {
                    let k = choose|k: int| 0 <= k < self.elements().len() && self.elements()[k] == v;
                    assert(0 <= k < i && self.elements()[k] == v);
                }
            }
        }
        r
    }
}

} // verus!

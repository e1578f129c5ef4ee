//! What is known about the strings of a program at one point of it.

use crate::domain::AbstractDomain;
use crate::domain::HasTop;
use std::collections::BTreeMap;
use vstd::prelude::*;
use vstd::std_specs::iter::IteratorSpec;

verus! {

/// The entries that two maps share, each with the join of its two values.
pub open spec fn merge_entries<K, T: AbstractDomain>(a: Map<K, T::V>, b: Map<K, T::V>) -> Map<
    K,
    T::V,
> {
    Map::new(|k: K| a.contains_key(k) && b.contains_key(k), |k: K| T::merge_spec(a[k], b[k]))
}

/// The views of the values of a map.
pub open spec fn value_views<K, T: View>(m: Map<K, T>) -> Map<K, T::V> {
    m.map_values(|v: T| v@)
}

/// Every value of the map is well formed.
pub open spec fn values_wf<K, T: AbstractDomain>(m: Map<K, T>) -> bool {
    forall|k: K| m.contains_key(k) ==> (#[trigger] m[k]).wf()
}

/// Joins two maps: `merge_entries` on maps of values.
fn merge_maps<K: Ord + Copy, T: AbstractDomain>(a: &BTreeMap<K, T>, b: &BTreeMap<K, T>) -> (r:
    BTreeMap<K, T>)
    requires
        vstd::laws_cmp::obeys_cmp::<K>(),
        values_wf(a@),
        values_wf(b@),
    ensures
        values_wf(r@),
        value_views(r@) == merge_entries::<K, T>(value_views(a@), value_views(b@)),
{
    broadcast use vstd::std_specs::btree::group_btree_axioms;

    let mut merged: BTreeMap<K, T> = BTreeMap::new();
    for entry in it: a.iter()
        invariant
            vstd::laws_cmp::obeys_cmp::<K>(),
            values_wf(a@),
            values_wf(b@),
            values_wf(merged@),
            it.seq() == vstd::std_specs::btree::spec_btree_map_iter(a).remaining(),
            forall|k: K| #[trigger]
                merged@.contains_key(k) ==> a@.contains_key(k) && b@.contains_key(k) && merged@[k]@
                    == T::merge_spec(a@[k]@, b@[k]@),
            forall|j: int|
                0 <= j < it.index() && b@.contains_key(*(#[trigger] it.seq()[j]).0)
                    ==> merged@.contains_key(*it.seq()[j].0),
    {
        let (key, value) = entry;
        proof {
            assert(entry == it.seq()[it.index()]);
            assert(a@.contains_key(*key) && a@[*key] == *value);
        }
        match b.get(key) {
            Some(other) => {
                let joined = value.merge(other);
                merged.insert(*key, joined);
            },
            None => {},
        }
    }
    proof {
        let all = vstd::std_specs::btree::spec_btree_map_iter(a).remaining();
        assert forall|k: K| a@.contains_key(k) && b@.contains_key(k) implies merged@.contains_key(
            k,
        ) by {
            assert(all.contains((&k, &a@[k])));
            let j = choose|j: int| 0 <= j < all.len() && all[j] == (&k, &a@[k]);
            assert(*all[j].0 == k);
        }
        assert(value_views(merged@) =~= merge_entries::<K, T>(value_views(a@), value_views(b@)));
    }
    merged
}

/// A copy of a map.
fn copy_map<K: Ord + Copy, T: AbstractDomain>(m: &BTreeMap<K, T>) -> (r: BTreeMap<K, T>)
    requires
        vstd::laws_cmp::obeys_cmp::<K>(),
    ensures
        value_views(r@) == value_views(m@),
        values_wf(r@) == values_wf(m@),
{
    broadcast use vstd::std_specs::btree::group_btree_axioms;

    let mut copy: BTreeMap<K, T> = BTreeMap::new();
    for entry in it: m.iter()
        invariant
            vstd::laws_cmp::obeys_cmp::<K>(),
            it.seq() == vstd::std_specs::btree::spec_btree_map_iter(m).remaining(),
            forall|k: K| #[trigger]
                copy@.contains_key(k) ==> m@.contains_key(k) && copy@[k]@ == m@[k]@ && copy@[k].wf()
                    == m@[k].wf(),
            forall|j: int|
                0 <= j < it.index() ==> copy@.contains_key(*(#[trigger] it.seq()[j]).0),
    {
        let (key, value) = entry;
        proof {
            assert(entry == it.seq()[it.index()]);
            assert(m@.contains_key(*key) && m@[*key] == *value);
        }
        copy.insert(*key, value.duplicate());
    }
    proof {
        let all = vstd::std_specs::btree::spec_btree_map_iter(m).remaining();
        assert forall|k: K| m@.contains_key(k) implies copy@.contains_key(k) by {
            assert(all.contains((&k, &m@[k])));
            let j = choose|j: int| 0 <= j < all.len() && all[j] == (&k, &m@[k]);
            assert(*all[j].0 == k);
        }
        assert(value_views(copy@) =~= value_views(m@));
        if values_wf(m@) {
            assert forall|k: K| copy@.contains_key(k) implies (#[trigger] copy@[k]).wf() by {
                assert(m@[k].wf());
            }
        }
        if values_wf(copy@) {
            assert forall|k: K| m@.contains_key(k) implies (#[trigger] m@[k]).wf() by {
                assert(copy@[k].wf());
            }
        }
    }
    copy
}

/// The keys of a map, each once.
fn list_keys<K: Ord + Copy, T>(m: &BTreeMap<K, T>) -> (r: Vec<K>)
    requires
        vstd::laws_cmp::obeys_cmp::<K>(),
    ensures
        r@.to_set() == m@.dom(),
        r@.no_duplicates(),
{
    broadcast use vstd::std_specs::btree::group_btree_axioms;

    let mut keys: Vec<K> = Vec::new();
    let entries = m.iter();
    let ghost all = entries.remaining();
    for entry in it: entries
        invariant
            vstd::laws_cmp::obeys_cmp::<K>(),
            it.seq() == all,
            all == vstd::std_specs::btree::spec_btree_map_iter(m).remaining(),
            all.no_duplicates(),
            keys@.len() == it.index(),
            forall|j: int| 0 <= j < it.index() ==> (#[trigger] keys@[j]) == *all[j].0,
    {
        let (key, value) = entry;
        proof {
            assert(entry == it.seq()[it.index()]);
        }
        keys.push(*key);
    }
    proof {
        assert forall|k: K| keys@.to_set().contains(k) == m@.dom().contains(k) by {
            if keys@.contains(k) {
                let j = choose|j: int| 0 <= j < keys@.len() && keys@[j] == k;
                assert(m@.contains_key(*all[j].0));
            }
            if m@.contains_key(k) {
                assert(all.contains((&k, &m@[k])));
                let j = choose|j: int| 0 <= j < all.len() && all[j] == (&k, &m@[k]);
                assert(keys@[j] == k);
            }
        }
        assert(keys@.to_set() =~= m@.dom());
        assert forall|i: int, j: int| 0 <= i < keys@.len() && 0 <= j < keys@.len() && i
            != j implies keys@[i] != keys@[j] by {
            assert(m@.contains_key(*all[i].0) && m@[*all[i].0] == *all[i].1);
            assert(m@.contains_key(*all[j].0) && m@[*all[j].0] == *all[j].1);
            if keys@[i] == keys@[j] {
                assert(all[i] == all[j]);
            }
        }
    }
    keys
}

/// The cells of a map that are not addressed from the register `base`.
pub open spec fn cells_off<V>(m: Map<(u64, i64), V>, base: u64) -> Map<(u64, i64), V> {
    Map::new(|k: (u64, i64)| m.contains_key(k) && k.0 != base, |k: (u64, i64)| m[k])
}

/// Whether a map has a cell that is addressed from the register `base`.
pub open spec fn has_cell_on<V>(m: Map<(u64, i64), V>, base: u64) -> bool {
    exists|k: (u64, i64)| #[trigger] m.contains_key(k) && k.0 == base
}

/// Copies the cells that are not addressed from `base`, and tells whether
/// any cell was left out.
fn copy_cells_off<T: AbstractDomain>(m: &BTreeMap<(u64, i64), T>, base: u64) -> (r: (
    BTreeMap<(u64, i64), T>,
    bool,
))
    requires
        vstd::laws_cmp::obeys_cmp::<(u64, i64)>(),
        values_wf(m@),
    ensures
        values_wf(r.0@),
        value_views(r.0@) == cells_off(value_views(m@), base),
        r.1 == has_cell_on(value_views(m@), base),
{
    broadcast use vstd::std_specs::btree::group_btree_axioms;

    let mut kept: BTreeMap<(u64, i64), T> = BTreeMap::new();
    let mut dropped = false;
    for entry in it: m.iter()
        invariant
            vstd::laws_cmp::obeys_cmp::<(u64, i64)>(),
            values_wf(m@),
            values_wf(kept@),
            it.seq() == vstd::std_specs::btree::spec_btree_map_iter(m).remaining(),
            forall|k: (u64, i64)| #[trigger]
                kept@.contains_key(k) ==> m@.contains_key(k) && k.0 != base && kept@[k]@
                    == m@[k]@,
            forall|j: int|
                0 <= j < it.index() && (#[trigger] it.seq()[j]).0.0 != base
                    ==> kept@.contains_key(*it.seq()[j].0),
            dropped == exists|j: int|
                0 <= j < it.index() && (#[trigger] it.seq()[j]).0.0 == base,
    {
        let (key, value) = entry;
        proof {
            assert(entry == it.seq()[it.index()]);
            assert(m@.contains_key(*key) && m@[*key] == *value);
        }
        if key.0 != base {
            kept.insert(*key, value.duplicate());
        } else {
            dropped = true;
        }
    }
    proof {
        let all = vstd::std_specs::btree::spec_btree_map_iter(m).remaining();
        assert forall|k: (u64, i64)| m@.contains_key(k) && k.0 != base implies kept@.contains_key(
            k,
        ) by {
            assert(all.contains((&k, &m@[k])));
            let j = choose|j: int| 0 <= j < all.len() && all[j] == (&k, &m@[k]);
            assert(*all[j].0 == k);
        }
        assert(value_views(kept@) =~= cells_off(value_views(m@), base));
        if dropped {
            let j = choose|j: int| 0 <= j < all.len() && (#[trigger] all[j]).0.0 == base;
            assert(m@.contains_key(*all[j].0));
            assert(value_views(m@).contains_key(*all[j].0) && (*all[j].0).0 == base);
        }
        if has_cell_on(value_views(m@), base) {
            let k = choose|k: (u64, i64)| #[trigger]
                value_views(m@).contains_key(k) && k.0 == base;
            assert(m@.contains_key(k));
            assert(all.contains((&k, &m@[k])));
            let j = choose|j: int| 0 <= j < all.len() && all[j] == (&k, &m@[k]);
            assert(all[j].0.0 == base);
        }
    }
    (kept, dropped)
}

/// What a `State` stands for: the values known for registers and for
/// memory cells. A location without an entry is not known to hold a string.
pub ghost struct StateValue<V> {
    /// The value of each register that holds a string, by the register's
    /// identifier.
    pub register: Map<u64, V>,
    /// The value of each memory cell that holds a string, by the identifier
    /// of the base register and the offset in bytes.
    pub pointer: Map<(u64, i64), V>,
}

/// All that is known about the strings of a program at one point of it.
#[derive(Debug, PartialEq, Eq)]
pub struct State<T: AbstractDomain + HasTop> {
    register: BTreeMap<u64, T>,
    pointer: BTreeMap<(u64, i64), T>,
}

impl<T: AbstractDomain + HasTop> View for State<T> {
    type V = StateValue<T::V>;

    closed spec fn view(&self) -> StateValue<T::V> {
        StateValue { register: value_views(self.register@), pointer: value_views(self.pointer@) }
    }
}

impl<T: AbstractDomain + HasTop> AbstractDomain for State<T> {
    /// Every value that the state holds is well formed.
    closed spec fn wf(&self) -> bool {
        values_wf(self.register@) && values_wf(self.pointer@)
    }

    /// A location is kept where both states have an entry for it, with the
    /// join of the two values. A location that only one state knows is
    /// dropped: it holds a string on some paths only.
    open spec fn merge_spec(a: StateValue<T::V>, b: StateValue<T::V>) -> StateValue<T::V> {
        StateValue {
            register: merge_entries::<u64, T>(a.register, b.register),
            pointer: merge_entries::<(u64, i64), T>(a.pointer, b.pointer),
        }
    }

    /// The state without any entry: nothing is known to hold a string.
    open spec fn is_top_spec(a: StateValue<T::V>) -> bool {
        a.register.dom().is_empty() && a.pointer.dom().is_empty()
    }

    proof fn lemma_merge_idempotent(a: StateValue<T::V>) {
        assert forall|k: u64| a.register.contains_key(k) implies T::merge_spec(
            a.register[k],
            a.register[k],
        ) == a.register[k] by {
            T::lemma_merge_idempotent(a.register[k]);
        }
        assert forall|k: (u64, i64)| a.pointer.contains_key(k) implies T::merge_spec(
            a.pointer[k],
            a.pointer[k],
        ) == a.pointer[k] by {
            T::lemma_merge_idempotent(a.pointer[k]);
        }
        assert(merge_entries::<u64, T>(a.register, a.register) =~= a.register);
        assert(merge_entries::<(u64, i64), T>(a.pointer, a.pointer) =~= a.pointer);
    }

    proof fn lemma_merge_top(a: StateValue<T::V>, t: StateValue<T::V>) {
        assert(merge_entries::<u64, T>(a.register, t.register).dom() =~= Set::empty());
        assert(merge_entries::<(u64, i64), T>(a.pointer, t.pointer).dom() =~= Set::empty());
        assert(merge_entries::<u64, T>(t.register, a.register).dom() =~= Set::empty());
        assert(merge_entries::<(u64, i64), T>(t.pointer, a.pointer).dom() =~= Set::empty());
    }

    /// Joins two states at a point where two paths of the program meet.
    fn merge(&self, other: &Self) -> (r: Self) {
        proof {
            lemma_keys_are_ordered();
        }
        State {
            register: merge_maps(&self.register, &other.register),
            pointer: merge_maps(&self.pointer, &other.pointer),
        }
    }

    /// Whether the state has no entry at all.
    fn is_top(&self) -> (r: bool) {
        proof {
            lemma_keys_are_ordered();
            assert(value_views(self.register@).dom() =~= self.register@.dom());
            assert(value_views(self.pointer@).dom() =~= self.pointer@.dom());
        }
        self.register.is_empty() && self.pointer.is_empty()
    }

    fn duplicate(&self) -> (r: Self) {
        proof {
            lemma_keys_are_ordered();
        }
        State { register: copy_map(&self.register), pointer: copy_map(&self.pointer) }
    }

    proof fn lemma_merge_commutative(a: StateValue<T::V>, b: StateValue<T::V>) {
        assert forall|k: u64| a.register.contains_key(k) && b.register.contains_key(
            k,
        ) implies T::merge_spec(a.register[k], b.register[k]) == T::merge_spec(
            b.register[k],
            a.register[k],
        ) by {
            T::lemma_merge_commutative(a.register[k], b.register[k]);
        }
        assert forall|k: (u64, i64)| a.pointer.contains_key(k) && b.pointer.contains_key(
            k,
        ) implies T::merge_spec(a.pointer[k], b.pointer[k]) == T::merge_spec(
            b.pointer[k],
            a.pointer[k],
        ) by {
            T::lemma_merge_commutative(a.pointer[k], b.pointer[k]);
        }
        assert(merge_entries::<u64, T>(a.register, b.register) =~= merge_entries::<u64, T>(
            b.register,
            a.register,
        ));
        assert(merge_entries::<(u64, i64), T>(a.pointer, b.pointer) =~= merge_entries::<
            (u64, i64),
            T,
        >(b.pointer, a.pointer));
    }
}

impl<T: AbstractDomain + HasTop> State<T> {
    /// The state in which no location is known to hold a string.
    pub fn new() -> (r: State<T>)
        ensures
            r.wf(),
            r@ == (StateValue::<T::V> { register: Map::empty(), pointer: Map::empty() }),
    {
        let r = State { register: BTreeMap::new(), pointer: BTreeMap::new() };
        proof {
            assert(value_views(r.register@) =~= Map::<u64, T::V>::empty());
            assert(value_views(r.pointer@) =~= Map::<(u64, i64), T::V>::empty());
        }
        r
    }

    /// The value of a register, if it is known to hold a string.
    pub fn get_register(&self, register: u64) -> (r: Option<&T>)
        ensures
            r is Some == self@.register.contains_key(register),
            r matches Some(v) ==> v@ == self@.register[register] && (self.wf() ==> v.wf()),
    {
        proof {
            lemma_keys_are_ordered();
        }
        broadcast use vstd::std_specs::btree::group_btree_axioms;

        self.register.get(&register)
    }

    /// The value of the memory cell at `offset` bytes from the address in
    /// the register `base`, if it is known to hold a string.
    pub fn get_pointer(&self, base: u64, offset: i64) -> (r: Option<&T>)
        ensures
            r is Some == self@.pointer.contains_key((base, offset)),
            r matches Some(v) ==> v@ == self@.pointer[(base, offset)] && (self.wf() ==> v.wf()),
    {
        proof {
            lemma_keys_are_ordered();
        }
        broadcast use vstd::std_specs::btree::group_btree_axioms;

        self.pointer.get(&(base, offset))
    }

    /// Records the value of a register.
    pub fn set_register(&mut self, register: u64, value: T)
        requires
            old(self).wf(),
            value.wf(),
        ensures
            final(self).wf(),
            final(self)@ == (StateValue {
                register: old(self)@.register.insert(register, value@),
                ..old(self)@
            }),
    {
        proof {
            lemma_keys_are_ordered();
        }
        self.register.insert(register, value);
        proof {
            assert(value_views(self.register@) =~= value_views(old(self).register@).insert(
                register,
                value@,
            ));
        }
    }

    /// Records the value of the memory cell at `offset` bytes from the
    /// address in the register `base`.
    pub fn set_pointer(&mut self, base: u64, offset: i64, value: T)
        requires
            old(self).wf(),
            value.wf(),
        ensures
            final(self).wf(),
            final(self)@ == (StateValue {
                pointer: old(self)@.pointer.insert((base, offset), value@),
                ..old(self)@
            }),
    {
        proof {
            lemma_keys_are_ordered();
        }
        self.pointer.insert((base, offset), value);
        proof {
            assert(value_views(self.pointer@) =~= value_views(old(self).pointer@).insert(
                (base, offset),
                value@,
            ));
        }
    }
}

impl<T: AbstractDomain + HasTop> State<T> {
    /// The registers that are known to hold a string, each once.
    pub fn registers(&self) -> (r: Vec<u64>)
        ensures
            r@.to_set() == self@.register.dom(),
            r@.no_duplicates(),
    {
        proof {
            lemma_keys_are_ordered();
            assert(value_views(self.register@).dom() =~= self.register@.dom());
        }
        list_keys(&self.register)
    }

    /// The memory cells that are known to hold a string, each once, by base
    /// register and offset.
    pub fn pointers(&self) -> (r: Vec<(u64, i64)>)
        ensures
            r@.to_set() == self@.pointer.dom(),
            r@.no_duplicates(),
    {
        proof {
            lemma_keys_are_ordered();
            assert(value_views(self.pointer@).dom() =~= self.pointer@.dom());
        }
        list_keys(&self.pointer)
    }

    /// Forgets the value of a register.
    pub fn remove_register(&mut self, register: u64)
        requires
            old(self).wf(),
        ensures
            final(self).wf(),
            final(self)@ == (StateValue {
                register: old(self)@.register.remove(register),
                ..old(self)@
            }),
    {
        proof {
            lemma_keys_are_ordered();
        }
        broadcast use vstd::std_specs::btree::group_btree_axioms;

        self.register.remove(&register);
        proof {
            assert(value_views(self.register@) =~= value_views(old(self).register@).remove(
                register,
            ));
        }
    }

    /// Forgets the value of the memory cell at `offset` bytes from the
    /// address in the register `base`.
    pub fn remove_pointer(&mut self, base: u64, offset: i64)
        requires
            old(self).wf(),
        ensures
            final(self).wf(),
            final(self)@ == (StateValue {
                pointer: old(self)@.pointer.remove((base, offset)),
                ..old(self)@
            }),
    {
        proof {
            lemma_keys_are_ordered();
        }
        broadcast use vstd::std_specs::btree::group_btree_axioms;

        self.pointer.remove(&(base, offset));
        proof {
            assert(value_views(self.pointer@) =~= value_views(old(self).pointer@).remove(
                (base, offset),
            ));
        }
    }

    /// Forgets every memory cell, and tells whether there was any.
    pub fn clear_pointers(&mut self) -> (any: bool)
        requires
            old(self).wf(),
        ensures
            final(self).wf(),
            final(self)@ == (StateValue { pointer: Map::empty(), ..old(self)@ }),
            any == !old(self)@.pointer.dom().is_empty(),
    {
        proof {
            lemma_keys_are_ordered();
            assert(value_views(self.pointer@).dom() =~= self.pointer@.dom());
        }
        let any = !self.pointer.is_empty();
        self.pointer.clear();
        proof {
            assert(value_views(self.pointer@) =~= Map::<(u64, i64), T::V>::empty());
        }
        any
    }

    /// Forgets the memory cells that are addressed from the register
    /// `base`, and tells whether there was any.
    pub fn forget_cells_on(&mut self, base: u64) -> (any: bool)
        requires
            old(self).wf(),
        ensures
            final(self).wf(),
            final(self)@ == (StateValue {
                pointer: cells_off(old(self)@.pointer, base),
                ..old(self)@
            }),
            any == has_cell_on(old(self)@.pointer, base),
    {
        proof {
            lemma_keys_are_ordered();
        }
        let (kept, any) = copy_cells_off(&self.pointer, base);
        self.pointer = kept;
        any
    }
}

/// Joining with the state without any entry gives that state.
pub proof fn lemma_merge_with_empty<T: AbstractDomain + HasTop>(a: StateValue<T::V>)
    ensures
        State::<T>::merge_spec(a, StateValue { register: Map::empty(), pointer: Map::empty() })
            == (StateValue::<T::V> { register: Map::empty(), pointer: Map::empty() }),
        State::<T>::merge_spec(StateValue { register: Map::empty(), pointer: Map::empty() }, a)
            == (StateValue::<T::V> { register: Map::empty(), pointer: Map::empty() }),
{
    let none = StateValue::<T::V> { register: Map::empty(), pointer: Map::empty() };
    assert(merge_entries::<u64, T>(a.register, none.register) =~= Map::empty());
    assert(merge_entries::<(u64, i64), T>(a.pointer, none.pointer) =~= Map::empty());
    assert(merge_entries::<u64, T>(none.register, a.register) =~= Map::empty());
    assert(merge_entries::<(u64, i64), T>(none.pointer, a.pointer) =~= Map::empty());
}

/// A location that only one of two states knows is unknown to their join,
/// and a location that both know holds the join of its two values.
pub proof fn lemma_merge_keeps_shared_locations<T: AbstractDomain + HasTop>(
    a: StateValue<T::V>,
    b: StateValue<T::V>,
    register: u64,
    cell: (u64, i64),
)
    ensures
        State::<T>::merge_spec(a, b).register.contains_key(register) == (a.register.contains_key(
            register,
        ) && b.register.contains_key(register)),
        State::<T>::merge_spec(a, b).pointer.contains_key(cell) == (a.pointer.contains_key(cell)
            && b.pointer.contains_key(cell)),
        a.register.contains_key(register) && b.register.contains_key(register) ==> State::<
            T,
        >::merge_spec(a, b).register[register] == T::merge_spec(
            a.register[register],
            b.register[register],
        ),
        a.pointer.contains_key(cell) && b.pointer.contains_key(cell) ==> State::<T>::merge_spec(
            a,
            b,
        ).pointer[cell] == T::merge_spec(a.pointer[cell], b.pointer[cell]),
{
}

/// Register identifiers, and pairs of one with an offset, are ordered as the
/// maps of a state need it.
proof fn lemma_keys_are_ordered()
    ensures
        vstd::laws_cmp::obeys_cmp::<u64>(),
        vstd::laws_cmp::obeys_cmp::<(u64, i64)>(),
{
    broadcast use vstd::laws_cmp::group_laws_cmp;

}

} // verus!

//! The transfer functions of the string analysis: what an instruction, a
//! jump, a call or a return makes of the state before it.
//!
//! A fixpoint solver drives them along the edges of the control-flow graph.
//! Each returns `None` where nothing is to be passed along an edge: the
//! transition does not apply, or the instruction touches nothing that the
//! state tracks.

use crate::domain::AbstractDomain;
use crate::domain::HasTop;
use crate::ir::Def;
use crate::ir::Expression;
use crate::ir::Graph;
use crate::ir::Jmp;
use crate::ir::Location;
use crate::state::cells_off;
use crate::state::has_cell_on;
use crate::state::State;
use crate::state::StateValue;
use std::collections::HashSet;
use vstd::prelude::*;

verus! {

/// The value that an expression has in a state, if the state tracks it:
/// the value of the register that the expression names.
pub open spec fn value_of<V>(s: StateValue<V>, e: Expression) -> Option<V> {
    match e {
        Expression::Var(register) => if s.register.contains_key(register) {
            Some(s.register[register])
        } else {
            None
        },
        _ => None,
    }
}

/// The memory cell that an address expression denotes: a register is the
/// cell at offset zero from it.
pub open spec fn cell_of(e: Expression) -> Option<(u64, i64)> {
    match e {
        Expression::Var(register) => Some((register, 0i64)),
        Expression::Offset(register, offset) => Some((register, offset)),
        Expression::Other => None,
    }
}

/// The value of a memory cell in a state, if the state tracks it.
pub open spec fn value_at<V>(s: StateValue<V>, cell: Option<(u64, i64)>) -> Option<V> {
    match cell {
        Some(c) => if s.pointer.contains_key(c) {
            Some(s.pointer[c])
        } else {
            None
        },
        None => None,
    }
}

/// The map with the entry of `k` set to the value, or removed where there
/// is no value.
pub open spec fn put<K, V>(m: Map<K, V>, k: K, v: Option<V>) -> Map<K, V> {
    match v {
        Some(x) => m.insert(k, x),
        None => m.remove(k),
    }
}

/// The state after the register `var` was written: it holds the new value,
/// or none, and the cells addressed from it are forgotten, since its old
/// value addressed them.
pub open spec fn write_register<V>(s: StateValue<V>, var: u64, v: Option<V>) -> StateValue<V> {
    StateValue { register: put(s.register, var, v), pointer: cells_off(s.pointer, var) }
}

/// The state after an instruction. An assignment and a load write a
/// register; a store writes the cell that its address denotes, and leaves
/// no cell tracked where the address denotes none.
pub open spec fn def_effect<V>(s: StateValue<V>, def: Def) -> StateValue<V> {
    match def {
        Def::Assign { var, value } => write_register(s, var, value_of(s, value)),
        Def::Load { var, address } => write_register(s, var, value_at(s, cell_of(address))),
        Def::Store { address, value } => match cell_of(address) {
            Some(cell) => StateValue { pointer: put(s.pointer, cell, value_of(s, value)), ..s },
            None => StateValue { pointer: Map::empty(), ..s },
        },
    }
}

/// Whether an instruction touches what a state tracks: it writes a tracked
/// place, or a register from which a tracked cell is addressed, or it
/// writes a tracked value.
pub open spec fn def_affects<V>(s: StateValue<V>, def: Def) -> bool {
    match def {
        Def::Assign { var, value } => s.register.contains_key(var) || has_cell_on(s.pointer, var)
            || value_of(s, value) is Some,
        Def::Load { var, address } => s.register.contains_key(var) || has_cell_on(s.pointer, var)
            || value_at(s, cell_of(address)) is Some,
        Def::Store { address, value } => match cell_of(address) {
            Some(cell) => s.pointer.contains_key(cell) || value_of(s, value) is Some,
            None => !s.pointer.dom().is_empty(),
        },
    }
}

/// The state after one place was written by code that was not analyzed: a
/// tracked place holds the top value of the shape of its old value, and an
/// untracked place stays untracked.
pub open spec fn havoc_one<T: HasTop>(s: StateValue<T::V>, place: Location) -> StateValue<T::V> {
    match place {
        Location::Register(register) => if s.register.contains_key(register) {
            StateValue {
                register: s.register.insert(register, T::top_spec(s.register[register])),
                ..s
            }
        } else {
            s
        },
        Location::Memory(base, offset) => if s.pointer.contains_key((base, offset)) {
            StateValue {
                pointer: s.pointer.insert((base, offset), T::top_spec(s.pointer[(base, offset)])),
                ..s
            }
        } else {
            s
        },
    }
}

/// The state after each of the places was written by code that was not
/// analyzed.
pub open spec fn havoc<T: HasTop>(s: StateValue<T::V>, written: Seq<Location>) -> StateValue<T::V>
    decreases written.len(),
{
    if written.len() == 0 {
        s
    } else {
        havoc_one::<T>(havoc::<T>(s, written.drop_last()), written.last())
    }
}

/// An instruction that does not touch what a state tracks leaves the state
/// as it is.
pub proof fn lemma_unaffected_state_stays<V>(s: StateValue<V>, def: Def)
    requires
        !def_affects(s, def),
    ensures
        def_effect(s, def) == s,
{
    match def {
        Def::Assign { var, value } => {
            assert(s.register.remove(var) =~= s.register);
            assert(cells_off(s.pointer, var) =~= s.pointer) by {
                assert forall|k: (u64, i64)| s.pointer.contains_key(k) implies k.0 != var by {
                    if k.0 == var {
                        assert(s.pointer.contains_key(k) && k.0 == var);
                    }
                }
            }
        },
        Def::Load { var, address } => {
            assert(s.register.remove(var) =~= s.register);
            assert(cells_off(s.pointer, var) =~= s.pointer) by {
                assert forall|k: (u64, i64)| s.pointer.contains_key(k) implies k.0 != var by {
                    if k.0 == var {
                        assert(s.pointer.contains_key(k) && k.0 == var);
                    }
                }
            }
        },
        Def::Store { address, value } => {
            match cell_of(address) {
                Some(cell) => {
                    assert(s.pointer.remove(cell) =~= s.pointer);
                },
                None => {
                    assert(s.pointer =~= Map::empty());
                },
            }
        },
    }
}

/// The view of a value that may be missing.
pub open spec fn view_of<T: View>(v: Option<T>) -> Option<T::V> {
    match v {
        Some(x) => Some(x@),
        None => None,
    }
}

/// A copy of the value that an expression has in a state.
fn read_value<T: AbstractDomain + HasTop>(state: &State<T>, e: &Expression) -> (r: Option<T>)
    requires
        state.wf(),
    ensures
        view_of(r) == value_of(state@, *e),
        r matches Some(v) ==> v.wf(),
{
    match e {
        Expression::Var(register) => match state.get_register(*register) {
            Some(v) => Some(v.duplicate()),
            None => None,
        },
        _ => None,
    }
}

/// The memory cell that an address expression denotes.
fn read_cell(e: &Expression) -> (r: Option<(u64, i64)>)
    ensures
        r == cell_of(*e),
{
    match e {
        Expression::Var(register) => Some((*register, 0)),
        Expression::Offset(register, offset) => Some((*register, *offset)),
        Expression::Other => None,
    }
}

/// Writes a register, and tells whether that touched what the state
/// tracked or tracks now.
fn store_register<T: AbstractDomain + HasTop>(state: &mut State<T>, var: u64, v: Option<T>) -> (r:
    bool)
    requires
        old(state).wf(),
        v matches Some(x) ==> x.wf(),
    ensures
        final(state).wf(),
        final(state)@ == write_register(old(state)@, var, view_of(v)),
        r == (old(state)@.register.contains_key(var) || has_cell_on(old(state)@.pointer, var)
            || v is Some),
{
    let known = state.get_register(var).is_some();
    let addressed = state.forget_cells_on(var);
    match v {
        Some(x) => {
            state.set_register(var, x);
            true
        },
        None => {
            state.remove_register(var);
            known || addressed
        },
    }
}

/// What the transfer functions know of the program.
#[derive(Debug, PartialEq, Eq)]
pub struct Context {
    /// The control-flow graph on which the fixpoint is computed.
    graph: Graph,
    /// The identifiers of the functions that are called but not analyzed.
    extern_symbols: HashSet<u64>,
}

impl Context {
    /// The context of a program with the given control-flow graph and the
    /// given functions outside it; a function named twice counts once.
    pub fn new(graph: Graph, extern_symbols: Vec<u64>) -> (r: Context)
        ensures
            r.graph_spec() == graph,
            r.extern_symbols_spec() == extern_symbols@.to_set(),
    {
        broadcast use vstd::std_specs::hash::group_hash_axioms;

        let mut set: HashSet<u64> = HashSet::new();
        let mut i: usize = 0;
        proof {
            assert(extern_symbols@.take(0).to_set() =~= Set::<u64>::empty());
        }
        while i < extern_symbols.len()
            invariant
                i <= extern_symbols.len(),
                set@ == extern_symbols@.take(i as int).to_set(),
            decreases extern_symbols.len() - i,
        {
            set.insert(extern_symbols[i]);
            proof {
                let earlier = extern_symbols@.take(i as int);
                assert(extern_symbols@.take(i + 1) =~= earlier.push(extern_symbols@[i as int]));
                earlier.lemma_push_to_set_commute(extern_symbols@[i as int]);
            }
            i += 1;
        }
        proof {
            assert(extern_symbols@.take(i as int) =~= extern_symbols@);
        }
        Context { graph, extern_symbols: set }
    }

    /// The control-flow graph.
    pub closed spec fn graph_spec(&self) -> Graph {
        self.graph
    }

    /// The identifiers of the functions that are called but not analyzed.
    pub closed spec fn extern_symbols_spec(&self) -> Set<u64> {
        self.extern_symbols@
    }

    /// The graph to iterate.
    pub fn get_graph(&self) -> (r: &Graph)
        ensures
            *r == self.graph_spec(),
    {
        &self.graph
    }

    /// Whether the function with the given identifier is called but not
    /// analyzed.
    pub fn is_extern_symbol(&self, function: u64) -> (r: bool)
        ensures
            r == self.extern_symbols_spec().contains(function),
    {
        broadcast use vstd::std_specs::hash::group_hash_axioms;

        self.extern_symbols.contains(&function)
    }

    /// Joins the states of two paths that meet at a node.
    pub fn merge<T: AbstractDomain + HasTop>(&self, value1: &State<T>, value2: &State<T>) -> (r:
        State<T>)
        requires
            value1.wf(),
            value2.wf(),
        ensures
            r.wf(),
            r@ == State::<T>::merge_spec(value1@, value2@),
    {
        value1.merge(value2)
    }

    /// Applies an assignment, a load or a store. Returns `None` if the
    /// instruction touches nothing that the state tracks.
    pub fn update_def<T: AbstractDomain + HasTop>(&self, value: &State<T>, def: &Def) -> (r: Option<
        State<T>,
    >)
        requires
            value.wf(),
        ensures
            r is Some == def_affects(value@, *def),
            r matches Some(next) ==> next.wf() && next@ == def_effect(value@, *def),
    {
        let mut next = value.duplicate();
        let affected = match def {
            Def::Assign { var, value: source } => {
                let v = read_value(value, source);
                store_register(&mut next, *var, v)
            },
            Def::Load { var, address } => {
                let v = match read_cell(address) {
                    Some(cell) => match value.get_pointer(cell.0, cell.1) {
                        Some(v) => Some(v.duplicate()),
                        None => None,
                    },
                    None => None,
                };
                store_register(&mut next, *var, v)
            },
            Def::Store { address, value: source } => {
                let v = read_value(value, source);
                match read_cell(address) {
                    Some(cell) => {
                        let known = value.get_pointer(cell.0, cell.1).is_some();
                        match v {
                            Some(x) => {
                                next.set_pointer(cell.0, cell.1, x);
                                true
                            },
                            None => {
                                next.remove_pointer(cell.0, cell.1);
                                known
                            },
                        }
                    },
                    None => next.clear_pointers(),
                }
            },
        };
        if affected {
            Some(next)
        } else {
            None
        }
    }

    /// Passes the state along a jump within a function, unchanged: no
    /// condition tells anything about a string. Returns `None` for a
    /// transfer that is no such jump.
    pub fn update_jump<T: AbstractDomain + HasTop>(
        &self,
        value: &State<T>,
        jump: &Jmp,
        untaken_conditional: Option<&Jmp>,
        target: u64,
    ) -> (r: Option<State<T>>)
        ensures
            r is Some == (jump is Branch || jump is CBranch),
            r matches Some(next) ==> next@ == value@ && next.wf() == value.wf(),
    {
        match jump {
            Jmp::Branch(_) => Some(value.duplicate()),
            Jmp::CBranch { .. } => Some(value.duplicate()),
            _ => None,
        }
    }

    /// Whether a transfer is a call of a function that is analyzed.
    pub open spec fn calls_analyzed(&self, jump: Jmp) -> bool {
        jump matches Jmp::Call { target: Some(function), .. }
            && !self.extern_symbols_spec().contains(function)
    }

    /// Whether a transfer is a call whose target is not analyzed: the
    /// target is not known, or it is one of the functions outside the graph.
    pub open spec fn calls_unanalyzed(&self, jump: Jmp) -> bool {
        jump is Call && !self.calls_analyzed(jump)
    }

    /// Decides `calls_analyzed`.
    fn is_analyzed_call(&self, jump: &Jmp) -> (r: bool)
        ensures
            r == self.calls_analyzed(*jump),
    {
        match jump {
            Jmp::Call { target: Some(function), .. } => !self.is_extern_symbol(*function),
            _ => false,
        }
    }

    /// Passes the state into a callee, unchanged. Returns `None` for a
    /// transfer that is no call of an analyzed function.
    pub fn update_call<T: AbstractDomain + HasTop>(
        &self,
        value: &State<T>,
        call: &Jmp,
        target: u64,
    ) -> (r: Option<State<T>>)
        ensures
            r is Some == self.calls_analyzed(*call),
            r matches Some(next) ==> next@ == value@ && next.wf() == value.wf(),
    {
        if self.is_analyzed_call(call) {
            Some(value.duplicate())
        } else {
            None
        }
    }

    /// Passes the state at the end of a callee back to the caller.
    /// Returns `None` where the callee does not return or the call site was
    /// not reached, and for transfers that are no call of an analyzed
    /// function and a return.
    pub fn update_return<T: AbstractDomain + HasTop>(
        &self,
        value: Option<&State<T>>,
        value_before_call: Option<&State<T>>,
        call_term: &Jmp,
        return_term: &Jmp,
    ) -> (r: Option<State<T>>)
        ensures
            r is Some == (value is Some && value_before_call is Some && self.calls_analyzed(
                *call_term,
            ) && return_term is Return),
            r matches Some(next) ==> next@ == value->0@ && next.wf() == value->0.wf(),
    {
        if !self.is_analyzed_call(call_term) {
            return None;
        }
        match (value, value_before_call, return_term) {
            (Some(at_return), Some(_), Jmp::Return) => Some(at_return.duplicate()),
            _ => None,
        }
    }

    /// Approximates a call whose target is not analyzed: each tracked place
    /// that the callee may write holds the top value of its shape
    /// afterwards. Returns `None` for a transfer that is no such call.
    pub fn update_call_stub<T: AbstractDomain + HasTop>(&self, value: &State<T>, call: &Jmp) -> (r:
        Option<State<T>>)
        requires
            value.wf(),
        ensures
            r is Some == self.calls_unanalyzed(*call),
            r matches Some(next) ==> next.wf() && next@ == havoc::<T>(
                value@,
                call->written@,
            ),
    {
        if self.is_analyzed_call(call) {
            return None;
        }
        match call {
            Jmp::Call { target, written } => {
                let mut next = value.duplicate();
                let mut i: usize = 0;
                proof {
                    assert(written@.take(0) =~= Seq::<Location>::empty());
                }
                while i < written.len()
                    invariant
                        i <= written.len(),
                        next.wf(),
                        next@ == havoc::<T>(value@, written@.take(i as int)),
                    decreases written.len() - i,
                {
                    proof {
                        assert(written@.take(i + 1).drop_last() =~= written@.take(i as int));
                        assert(written@.take(i + 1).last() == written@[i as int]);
                    }
                    match written[i] {
                        Location::Register(register) => {
                            let top = match next.get_register(register) {
                                Some(v) => Some(v.top()),
                                None => None,
                            };
                            match top {
                                Some(t) => {
                                    next.set_register(register, t);
                                },
                                None => {},
                            }
                        },
                        Location::Memory(base, offset) => {
                            let top = match next.get_pointer(base, offset) {
                                Some(v) => Some(v.top()),
                                None => None,
                            };
                            match top {
                                Some(t) => {
                                    next.set_pointer(base, offset, t);
                                },
                                None => {},
                            }
                        },
                    }
                    i += 1;
                }
                proof {
                    assert(written@.take(i as int) =~= written@);
                }
                Some(next)
            },
            _ => None,
        }
    }

    /// Narrows the state along a branch. No condition tells anything about
    /// a string, so no branch is found infeasible and the state is passed
    /// on unchanged.
    pub fn specialize_conditional<T: AbstractDomain + HasTop>(
        &self,
        value: &State<T>,
        condition: &Expression,
        is_true: bool,
    ) -> (r: Option<State<T>>)
        ensures
            r matches Some(next) && next@ == value@ && next.wf() == value.wf(),
    {
        Some(value.duplicate())
    }
}

} // verus!

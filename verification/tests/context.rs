use abstract_string::context::Context;
use abstract_string::domain::ByteSize;
use abstract_string::ir::Def;
use abstract_string::ir::Expression;
use abstract_string::ir::Graph;
use abstract_string::ir::Jmp;
use abstract_string::ir::Location;
use abstract_string::state::State;
use abstract_string::string_length::StringLengthDomain;

fn length(lower: u64, upper: u64) -> StringLengthDomain {
    StringLengthDomain::Value((ByteSize(lower), ByteSize(upper)))
}

fn top(width: u64) -> StringLengthDomain {
    StringLengthDomain::Top(ByteSize(width))
}

fn context() -> Context {
    let graph = Graph { nodes: vec![1, 2, 3], edges: vec![(1, 2), (2, 3)] };
    Context::new(graph, vec![40, 20, 40])
}

fn state() -> State<StringLengthDomain> {
    let mut state = State::new();
    state.set_register(1, length(2, 3));
    state.set_pointer(1, 8, length(4, 5));
    state.set_pointer(2, 0, length(6, 7));
    state
}

fn call(written: Vec<Location>) -> Jmp {
    Jmp::Call { target: Some(5), written }
}

fn extern_call(written: Vec<Location>) -> Jmp {
    Jmp::Call { target: Some(20), written }
}

fn indirect_call(written: Vec<Location>) -> Jmp {
    Jmp::Call { target: None, written }
}

#[test]
fn new_context_keeps_the_graph_and_the_extern_symbols() {
    let ctx = context();
    assert_eq!(ctx.get_graph().nodes, vec![1, 2, 3]);
    assert_eq!(ctx.get_graph().edges, vec![(1, 2), (2, 3)]);
    assert!(ctx.is_extern_symbol(20));
    assert!(ctx.is_extern_symbol(40));
    assert!(!ctx.is_extern_symbol(30));
}

#[test]
fn context_merge_is_the_merge_of_states() {
    let mut other: State<StringLengthDomain> = State::new();
    other.set_register(1, length(1, 9));
    other.set_register(5, length(1, 9));
    let merged = context().merge(&state(), &other);
    let mut expected: State<StringLengthDomain> = State::new();
    expected.set_register(1, length(1, 9));
    assert_eq!(merged, expected);
}

#[test]
fn assignment_copies_the_value_of_a_register() {
    let def = Def::Assign { var: 3, value: Expression::Var(1) };
    let next = context().update_def(&state(), &def).unwrap();
    let mut expected = state();
    expected.set_register(3, length(2, 3));
    assert_eq!(next, expected);
}

#[test]
fn assignment_of_an_untracked_value_forgets_the_register_and_its_cells() {
    let def = Def::Assign { var: 1, value: Expression::Other };
    let next = context().update_def(&state(), &def).unwrap();
    let mut expected: State<StringLengthDomain> = State::new();
    expected.set_pointer(2, 0, length(6, 7));
    assert_eq!(next, expected);
}

#[test]
fn instruction_that_touches_nothing_gives_no_information() {
    let ctx = context();
    let assign = Def::Assign { var: 9, value: Expression::Offset(1, 4) };
    assert_eq!(ctx.update_def(&state(), &assign), None);
    let load = Def::Load { var: 9, address: Expression::Offset(1, 4) };
    assert_eq!(ctx.update_def(&state(), &load), None);
    let store = Def::Store { address: Expression::Offset(7, 0), value: Expression::Var(8) };
    assert_eq!(ctx.update_def(&state(), &store), None);
    let empty: State<StringLengthDomain> = State::new();
    let wild = Def::Store { address: Expression::Other, value: Expression::Var(1) };
    assert_eq!(ctx.update_def(&empty, &wild), None);
}

#[test]
fn load_reads_the_cell_before_the_register_is_written() {
    let def = Def::Load { var: 1, address: Expression::Offset(1, 8) };
    let next = context().update_def(&state(), &def).unwrap();
    let mut expected: State<StringLengthDomain> = State::new();
    expected.set_register(1, length(4, 5));
    expected.set_pointer(2, 0, length(6, 7));
    assert_eq!(next, expected);
}

#[test]
fn load_from_a_register_reads_the_cell_at_offset_zero() {
    let def = Def::Load { var: 4, address: Expression::Var(2) };
    let next = context().update_def(&state(), &def).unwrap();
    let mut expected = state();
    expected.set_register(4, length(6, 7));
    assert_eq!(next, expected);
}

#[test]
fn store_writes_the_cell() {
    let ctx = context();
    let def = Def::Store { address: Expression::Offset(2, 16), value: Expression::Var(1) };
    let mut expected = state();
    expected.set_pointer(2, 16, length(2, 3));
    assert_eq!(ctx.update_def(&state(), &def), Some(expected));

    let def = Def::Store { address: Expression::Var(2), value: Expression::Other };
    let mut expected = state();
    expected.remove_pointer(2, 0);
    assert_eq!(ctx.update_def(&state(), &def), Some(expected));
}

#[test]
fn store_to_an_unknown_address_forgets_every_cell() {
    let def = Def::Store { address: Expression::Other, value: Expression::Var(1) };
    let next = context().update_def(&state(), &def).unwrap();
    let mut expected: State<StringLengthDomain> = State::new();
    expected.set_register(1, length(2, 3));
    assert_eq!(next, expected);
}

#[test]
fn jumps_pass_the_state_on() {
    let ctx = context();
    let s = state();
    let branch = Jmp::Branch(2);
    let cbranch = Jmp::CBranch { target: 3, condition: Expression::Var(1) };
    assert_eq!(ctx.update_jump(&s, &branch, None, 2), Some(state()));
    assert_eq!(ctx.update_jump(&s, &cbranch, Some(&branch), 3), Some(state()));
    assert_eq!(ctx.update_jump(&s, &Jmp::Return, None, 3), None);
    assert_eq!(ctx.update_jump(&s, &call(vec![]), None, 3), None);
}

#[test]
fn calls_pass_the_state_into_the_callee() {
    let ctx = context();
    assert_eq!(ctx.update_call(&state(), &call(vec![]), 2), Some(state()));
    assert_eq!(ctx.update_call(&state(), &extern_call(vec![]), 2), None);
    assert_eq!(ctx.update_call(&state(), &indirect_call(vec![]), 2), None);
    assert_eq!(ctx.update_call(&state(), &Jmp::Branch(2), 2), None);
}

#[test]
fn returns_pass_the_state_of_the_callee_back() {
    let ctx = context();
    let at_return = state();
    let before: State<StringLengthDomain> = State::new();
    let c = call(vec![]);
    assert_eq!(
        ctx.update_return(Some(&at_return), Some(&before), &c, &Jmp::Return),
        Some(state())
    );
    assert_eq!(ctx.update_return(None, Some(&before), &c, &Jmp::Return), None);
    assert_eq!(ctx.update_return(Some(&at_return), None, &c, &Jmp::Return), None);
    assert_eq!(
        ctx.update_return(Some(&at_return), Some(&before), &Jmp::Return, &Jmp::Return),
        None
    );
    assert_eq!(ctx.update_return(Some(&at_return), Some(&before), &c, &Jmp::Branch(1)), None);
    let e = extern_call(vec![]);
    assert_eq!(ctx.update_return(Some(&at_return), Some(&before), &e, &Jmp::Return), None);
}

#[test]
fn call_stub_sets_written_places_to_top() {
    let ctx = context();
    let written = vec![
        Location::Register(1),
        Location::Register(9),
        Location::Memory(2, 0),
        Location::Memory(2, 64),
    ];
    let next = ctx.update_call_stub(&state(), &extern_call(written)).unwrap();
    let mut expected: State<StringLengthDomain> = State::new();
    expected.set_register(1, top(3));
    expected.set_pointer(1, 8, length(4, 5));
    expected.set_pointer(2, 0, top(7));
    assert_eq!(next, expected);
    assert_eq!(ctx.update_call_stub(&state(), &Jmp::Return), None);
    assert_eq!(ctx.update_call_stub(&state(), &call(vec![Location::Register(1)])), None);
    let mut havocked = state();
    havocked.set_register(1, top(3));
    assert_eq!(
        ctx.update_call_stub(&state(), &indirect_call(vec![Location::Register(1)])),
        Some(havocked)
    );
}

#[test]
fn no_branch_is_found_infeasible() {
    let ctx = context();
    let condition = Expression::Var(1);
    assert_eq!(ctx.specialize_conditional(&state(), &condition, true), Some(state()));
    assert_eq!(ctx.specialize_conditional(&state(), &condition, false), Some(state()));
}

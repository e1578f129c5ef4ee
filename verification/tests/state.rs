use abstract_string::character_inclusion::CharacterInclusionDomain;
use abstract_string::domain::AbstractDomain;
use abstract_string::domain::ByteSize;
use abstract_string::ordered_set::OrderedSet;
use abstract_string::state::State;
use abstract_string::string_length::StringLengthDomain;

fn length(lower: u64, upper: u64) -> StringLengthDomain {
    StringLengthDomain::Value((ByteSize(lower), ByteSize(upper)))
}

fn ci(concrete: &str) -> CharacterInclusionDomain {
    let set: OrderedSet<char> = OrderedSet::from_vec(concrete.chars().collect());
    CharacterInclusionDomain::Value((set.clone(), set))
}

#[test]
fn new_state_has_no_entries() {
    let state: State<StringLengthDomain> = State::new();
    assert!(state.is_top());
    assert_eq!(state.get_register(0), None);
    assert_eq!(state.get_pointer(0, 0), None);
}

#[test]
fn merge_drops_a_key_of_one_state_only() {
    let mut first: State<StringLengthDomain> = State::new();
    let mut second: State<StringLengthDomain> = State::new();
    first.set_register(1, length(2, 3));
    first.set_register(2, length(1, 1));
    second.set_register(1, length(5, 8));
    second.set_register(3, length(4, 4));
    first.set_pointer(7, -8, length(1, 2));
    second.set_pointer(7, 8, length(1, 2));

    let merged = first.merge(&second);

    assert_eq!(merged.get_register(1), Some(&length(2, 8)));
    assert_eq!(merged.get_register(2), None);
    assert_eq!(merged.get_register(3), None);
    assert_eq!(merged.get_pointer(7, -8), None);
    assert_eq!(merged.get_pointer(7, 8), None);
}

#[test]
fn merge_joins_the_values_of_a_key_of_both_states() {
    let mut first: State<CharacterInclusionDomain> = State::new();
    let mut second: State<CharacterInclusionDomain> = State::new();
    first.set_pointer(4, 16, ci("dabc"));
    second.set_pointer(4, 16, ci("def"));
    first.set_register(9, ci("x"));
    second.set_register(9, CharacterInclusionDomain::Top);

    let merged = first.merge(&second);
    let expected = CharacterInclusionDomain::Value((
        OrderedSet::from_vec(vec!['d']),
        OrderedSet::from_vec("abcdef".chars().collect()),
    ));

    assert_eq!(merged.get_pointer(4, 16), Some(&expected));
    assert_eq!(merged.get_register(9), Some(&CharacterInclusionDomain::Top));
    assert!(!merged.is_top());
}

#[test]
fn merge_of_states_is_commutative_and_idempotent_on_an_example() {
    let mut first: State<CharacterInclusionDomain> = State::new();
    let mut second: State<CharacterInclusionDomain> = State::new();
    first.set_register(1, ci("ab"));
    first.set_register(2, ci("c"));
    second.set_register(1, ci("bc"));
    second.set_pointer(1, 0, ci("z"));

    assert_eq!(first.merge(&second), second.merge(&first));
    assert_eq!(first.merge(&first), first);
}

#[test]
fn merge_with_the_empty_state_is_empty() {
    let mut first: State<StringLengthDomain> = State::new();
    first.set_register(1, length(2, 3));
    let empty: State<StringLengthDomain> = State::new();
    assert!(first.merge(&empty).is_top());
    assert!(empty.merge(&first).is_top());
}

#[test]
fn set_and_remove_entries() {
    let mut state: State<StringLengthDomain> = State::new();
    state.set_register(1, length(2, 3));
    state.set_register(1, length(4, 5));
    state.set_pointer(1, 8, length(0, 1));
    state.set_pointer(2, 8, length(0, 2));
    assert_eq!(state.get_register(1), Some(&length(4, 5)));
    assert!(state.forget_cells_on(1));
    assert!(!state.forget_cells_on(1));
    assert_eq!(state.get_pointer(1, 8), None);
    assert_eq!(state.get_pointer(2, 8), Some(&length(0, 2)));
    state.remove_register(1);
    assert_eq!(state.get_register(1), None);
    state.remove_pointer(2, 8);
    assert_eq!(state.get_pointer(2, 8), None);
    state.set_pointer(3, 0, length(1, 1));
    assert!(state.clear_pointers());
    assert!(!state.clear_pointers());
    assert!(state.is_top());
}

#[test]
fn duplicate_of_a_state_is_equal() {
    let mut state: State<StringLengthDomain> = State::new();
    state.set_register(1, length(2, 3));
    state.set_pointer(1, 8, length(0, 1));
    assert_eq!(state.duplicate(), state);
}

#[test]
fn merge_of_states_of_lengths_does_not_depend_on_the_order() {
    let mut first: State<StringLengthDomain> = State::new();
    let mut second: State<StringLengthDomain> = State::new();
    first.set_register(1, StringLengthDomain::Top(ByteSize(4)));
    second.set_register(1, StringLengthDomain::Top(ByteSize(8)));
    first.set_pointer(2, 0, length(1, 2));
    second.set_pointer(2, 0, StringLengthDomain::Top(ByteSize(2)));
    let merged = first.merge(&second);
    assert_eq!(merged, second.merge(&first));
    assert_eq!(merged.get_register(1), Some(&StringLengthDomain::Top(ByteSize(8))));
    assert_eq!(merged.get_pointer(2, 0), Some(&StringLengthDomain::Top(ByteSize(2))));
}

use abstract_string::brick::Brick;
use abstract_string::bricks::BrickDomain;
use abstract_string::bricks::BricksDomain;

fn brick(items: &[&str], min: u32, max: u32) -> BrickDomain {
    let sequence: Vec<String> = items.iter().map(|&s| String::from(s)).collect();
    BrickDomain::Value(Brick::new(sequence, min, max).unwrap())
}

#[test]
fn normalize_is_idempotent_on_an_example() {
    let list = BricksDomain::Value(vec![
        brick(&["a"], 1, 1),
        brick(&["a", "b"], 2, 3),
        brick(&["a", "b"], 0, 1),
    ]);
    let once = list.normalize();
    let twice = once.normalize();
    assert_eq!(once, twice);
}

#[test]
fn normalize_within_reaches_the_normal_form_in_three_rounds() {
    let list = BricksDomain::Value(vec![
        brick(&["a"], 1, 1),
        brick(&["a", "b"], 2, 3),
        brick(&["a", "b"], 0, 1),
    ]);
    let expected = BricksDomain::Value(vec![
        brick(&["aaa", "aab", "aba", "abb"], 1, 1),
        brick(&["a", "b"], 0, 2),
    ]);
    assert_eq!(list.normalize_within(2), None);
    assert_eq!(list.normalize_within(3), Some(expected.clone()));
    assert_eq!(list.normalize_within(100), Some(expected));
}

#[test]
fn normalize_within_gives_up_on_a_list_that_never_settles() {
    // [{a,b}]^{1,1} [{a,b}]^{0,1} is fused into [{a,b}]^{1,2}, which is split
    // into the two bricks it came from.
    let list = BricksDomain::Value(vec![brick(&["a", "b"], 1, 1), brick(&["a", "b"], 0, 1)]);
    assert_eq!(list.normalize_within(0), None);
    assert_eq!(list.normalize_within(1), None);
    assert_eq!(list.normalize_within(1000), None);
}

#[test]
fn normalize_drops_bricks_of_the_empty_string() {
    let list = BricksDomain::Value(vec![
        BrickDomain::get_empty_brick(),
        brick(&["x"], 0, 1),
        BrickDomain::get_empty_brick(),
    ]);
    let expected = BricksDomain::Value(vec![brick(&["x"], 0, 1)]);
    assert_eq!(list.normalize(), expected);
}

#[test]
fn normalize_flattens_a_constant_repetition() {
    let list = BricksDomain::Value(vec![brick(&["a", "b"], 2, 2)]);
    let expected = BricksDomain::Value(vec![brick(&["aa", "ab", "ba", "bb"], 1, 1)]);
    assert_eq!(list.normalize(), expected);
}

#[test]
fn normalize_flattens_by_the_number_of_candidates_not_of_characters() {
    let list = BricksDomain::Value(vec![brick(&["cd"], 2, 2)]);
    let expected = BricksDomain::Value(vec![brick(&["cdcd"], 1, 1)]);
    assert_eq!(list.normalize(), expected);
}

#[test]
fn normalize_fuses_neighbours_taken_once() {
    let list = BricksDomain::Value(vec![brick(&["a", "cd"], 1, 1), brick(&["b", "ef"], 1, 1)]);
    let expected = BricksDomain::Value(vec![brick(&["ab", "aef", "cdb", "cdef"], 1, 1)]);
    assert_eq!(list.normalize(), expected);
}

#[test]
fn normalize_fuses_neighbours_with_equal_content() {
    let list = BricksDomain::Value(vec![brick(&["a", "b"], 0, 1), brick(&["a", "b"], 0, 2)]);
    let expected = BricksDomain::Value(vec![brick(&["a", "b"], 0, 3)]);
    assert_eq!(list.normalize(), expected);
}

#[test]
fn normalize_leaves_top_bricks_alone() {
    let list = BricksDomain::Value(vec![
        brick(&["a"], 1, 1),
        BrickDomain::Top,
        brick(&["a"], 1, 1),
    ]);
    let expected = list.clone();
    assert_eq!(list.normalize(), expected);
}

#[test]
fn normalize_within_refuses_a_sum_of_bounds_beyond_u32() {
    let list = BricksDomain::Value(vec![brick(&["a"], 0, u32::MAX), brick(&["a"], 0, 1)]);
    assert_eq!(list.normalize_within(10), None);
}

#[test]
fn equal_content_reaches_the_sum_of_the_bounds() {
    // [{a,b}]^{1,1} and [{a,b}]^{0,1} fuse into [{a,b}]^{1,2}.
    let first = Brick::new(vec![String::from("a"), String::from("b")], 1, 1).unwrap();
    let second = Brick::new(vec![String::from("a"), String::from("b")], 0, 1).unwrap();
    let expected = Brick::new(vec![String::from("a"), String::from("b")], 1, 2).unwrap();
    assert_eq!(first.merge_bricks_with_equal_content(second), expected);
}

#[test]
fn splitting_a_brick() {
    // [{a}]^{2,5} splits into [{aa}]^{1,1} and [{a}]^{0,3}.
    let whole = Brick::new(vec![String::from("a")], 2, 5).unwrap();
    let (exact, rest) = whole.break_single_brick_into_simpler_bricks();
    assert_eq!(exact, Brick::new(vec![String::from("aa")], 1, 1).unwrap());
    assert_eq!(rest, Brick::new(vec![String::from("a")], 0, 3).unwrap());
}

use abstract_string::brick::Brick;
use abstract_string::bricks::BrickDomain;
use abstract_string::bricks::BricksDomain;
use abstract_string::domain::AbstractDomain;
use abstract_string::ordered_set::OrderedSet;

struct Setup {
    brick0: BrickDomain,
    brick1: BrickDomain,
    brick2: BrickDomain,
    brick3: BrickDomain,
    brick4: BrickDomain,
    brick5: BrickDomain,
}

impl Setup {
    fn new() -> Self {
        Setup {
            brick0: BrickDomain::Value(Setup::mock_brick(
                vec![String::from("a"), String::from("b")],
                2,
                2,
            )),
            brick1: BrickDomain::Value(Setup::mock_brick(
                vec![String::from("a"), String::from("cd")],
                1,
                1,
            )),
            brick2: BrickDomain::Value(Setup::mock_brick(
                vec![String::from("b"), String::from("ef")],
                1,
                1,
            )),
            brick3: BrickDomain::Value(Setup::mock_brick(
                vec![String::from("a"), String::from("b")],
                2,
                3,
            )),
            brick4: BrickDomain::Value(Setup::mock_brick(
                vec![String::from("a"), String::from("b")],
                0,
                1,
            )),
            brick5: BrickDomain::Value(Setup::mock_brick(vec![String::from("a")], 1, 1)),
        }
    }

    fn mock_brick(sequence: Vec<String>, min: u32, max: u32) -> Brick {
        Brick::new(sequence, min, max).unwrap()
    }
}

fn strings(items: &[&str]) -> Vec<String> {
    items.iter().map(|&s| String::from(s)).collect()
}

#[test]
fn merging_brick_domain() {
    let setup = Setup::new();
    let merged_brick_domain = setup.brick0.merge(&setup.brick4);
    let expected = BrickDomain::Value(Setup::mock_brick(
        vec![String::from("a"), String::from("b")],
        0,
        2,
    ));

    assert_eq!(merged_brick_domain, expected);
}

#[test]
fn merging_bricks_domain() {
    let setup = Setup::new();
    let first_bricks = BricksDomain::Value(vec![setup.brick0.clone()]);
    let second_bricks = BricksDomain::Value(vec![setup.brick0.clone(), setup.brick1.clone()]);

    let merged_bricks = first_bricks.merge(&second_bricks);

    let merged_with_empty = BrickDomain::Value(Setup::mock_brick(
        vec![String::from("a"), String::from("cd")],
        0,
        1,
    ));
    let expected = BricksDomain::Value(vec![setup.brick0.clone(), merged_with_empty]);

    assert_eq!(merged_bricks, expected);
}

#[test]
fn generating_permutations_of_fixed_length() {
    let length: usize = 2;
    let sequence: OrderedSet<String> = OrderedSet::from_vec(strings(&["a", "b", "c"]));
    let result = Brick::generate_permutations_of_fixed_length(length, &sequence, Vec::new());
    let expected: Vec<String> =
        strings(&["aa", "ba", "ca", "ab", "bb", "cb", "ac", "bc", "cc"]);

    assert_eq!(result, expected);
}

#[test]
fn breaking_single_brick_into_simpler_bricks() {
    let setup = Setup::new();
    let complex_brick = setup.brick3.unwrap_value(); // ["a", "b"]^{2,3}
    let (result1, result2) = complex_brick.break_single_brick_into_simpler_bricks();
    let expected1 = Setup::mock_brick(strings(&["aa", "ba", "ab", "bb"]), 1, 1);
    let expected2 = Setup::mock_brick(strings(&["a", "b"]), 0, 1);

    assert_eq!(result1, expected1);
    assert_eq!(result2, expected2);
}

#[test]
fn merging_bricks_with_equal_content() {
    let setup = Setup::new();
    let merge1 = setup.brick0.unwrap_value();
    let merge2 = setup.brick4.unwrap_value();

    let result = merge1.merge_bricks_with_equal_content(merge2);
    let expected = setup.brick3.unwrap_value();

    assert_eq!(result, expected);
}

#[test]
fn transforming_brick_with_min_max_equal() {
    let setup = Setup::new();
    let not_normalized = setup.brick0.unwrap_value();
    let result =
        not_normalized.transform_brick_with_min_max_equal(not_normalized.min() as usize);
    let expected = Setup::mock_brick(strings(&["aa", "ba", "ab", "bb"]), 1, 1);

    assert_eq!(result, expected);
}

#[test]
fn merging_bricks_with_bound_one() {
    let setup = Setup::new();
    let merge1 = setup.brick1.unwrap_value();
    let merge2 = setup.brick2.unwrap_value();

    let result = merge1.merge_bricks_with_bound_one(merge2);
    let expected = Setup::mock_brick(strings(&["ab", "aef", "cdb", "cdef"]), 1, 1);

    assert_eq!(result, expected);
}

#[test]
fn empty_string() {
    let setup = Setup::new();
    let brick = setup.brick5.unwrap_value();
    let empty_brick = BrickDomain::get_empty_brick().unwrap_value();

    assert_eq!(brick.is_empty_string(), false);
    assert_eq!(empty_brick.is_empty_string(), true);
}

#[test]
fn padding_list() {
    let setup = Setup::new();
    let empty_brick = BrickDomain::get_empty_brick();
    let short_list = vec![
        setup.brick0.clone(),
        setup.brick1.clone(),
        setup.brick2.clone(),
    ];
    let long_list = vec![
        setup.brick3,
        setup.brick0.clone(),
        setup.brick1.clone(),
        setup.brick4,
        setup.brick5,
    ];

    let new_list = BricksDomain::Value(short_list).pad_list(&BricksDomain::Value(long_list));
    let expected_list = BricksDomain::Value(vec![
        empty_brick.clone(),
        setup.brick0,
        setup.brick1,
        empty_brick.clone(),
        setup.brick2,
    ]);

    assert_eq!(new_list, expected_list);
}

#[test]
fn normalizing() {
    let setup = Setup::new();
    // ["a"]^{1,1}["a", "b"]^{2,3}["a", "b"]^{0,1}
    let to_normalize: BricksDomain =
        BricksDomain::Value(vec![setup.brick5, setup.brick3, setup.brick4]);
    let normalized = to_normalize.normalize();

    let expected_brick1 =
        BrickDomain::Value(Setup::mock_brick(strings(&["aaa", "aab", "aba", "abb"]), 1, 1));
    let expected_brick2 = BrickDomain::Value(Setup::mock_brick(strings(&["a", "b"]), 0, 2));

    let expected = BricksDomain::Value(vec![expected_brick1, expected_brick2]);

    assert_eq!(normalized, expected);
}

#[test]
fn brick_with_bounds_out_of_order_is_refused() {
    assert_eq!(Brick::new(strings(&["a"]), 2, 1), None);
    assert!(Brick::new(strings(&["a"]), 2, 2).is_some());
    assert!(Brick::new(Vec::new(), 0, 0).unwrap().is_empty_string());
}

#[test]
fn brick_keeps_each_candidate_once() {
    let brick = Setup::mock_brick(strings(&["b", "a", "b"]), 0, 4);
    assert_eq!(brick.sequence().len(), 2);
    assert_eq!(brick.min(), 0);
    assert_eq!(brick.max(), 4);
    assert_eq!(brick, Setup::mock_brick(strings(&["a", "b"]), 0, 4));
    assert!(brick.equals(&Setup::mock_brick(strings(&["a", "b"]), 0, 4)));
    assert!(!brick.equals(&Setup::mock_brick(strings(&["a", "b"]), 1, 4)));
    assert!(!brick.equals(&Setup::mock_brick(strings(&["a"]), 0, 4)));
}

#[test]
fn empty_string_needs_no_candidate_and_no_repetition() {
    assert!(!Setup::mock_brick(strings(&["a"]), 0, 0).is_empty_string());
    assert!(!Setup::mock_brick(Vec::new(), 0, 1).is_empty_string());
}

#[test]
fn permutations_make_at_least_one_round() {
    let sequence = OrderedSet::from_vec(strings(&["b", "a"]));
    let zero = Brick::generate_permutations_of_fixed_length(0, &sequence, Vec::new());
    let one = Brick::generate_permutations_of_fixed_length(1, &sequence, Vec::new());
    assert_eq!(zero, strings(&["a", "b"]));
    assert_eq!(one, strings(&["a", "b"]));
}

#[test]
fn permutations_count_candidates_not_characters() {
    let sequence = OrderedSet::from_vec(strings(&["cd", "e"]));
    let result = Brick::generate_permutations_of_fixed_length(2, &sequence, Vec::new());
    assert_eq!(result, strings(&["cdcd", "ecd", "cde", "ee"]));
}

#[test]
fn permutations_lengthen_what_was_generated() {
    let sequence = OrderedSet::from_vec(strings(&["a", "b"]));
    let result = Brick::generate_permutations_of_fixed_length(1, &sequence, strings(&["x", "y"]));
    assert_eq!(result, strings(&["xa", "ya", "xb", "yb"]));
}

#[test]
fn permutations_of_no_candidate_are_none() {
    let sequence: OrderedSet<String> = OrderedSet::new();
    let result = Brick::generate_permutations_of_fixed_length(3, &sequence, Vec::new());
    assert_eq!(result, Vec::<String>::new());
    let result = Brick::generate_permutations_of_fixed_length(3, &sequence, strings(&["x"]));
    assert_eq!(result, Vec::<String>::new());
}

#[test]
fn bound_one_merge_of_equal_concatenations_keeps_one() {
    let first = Setup::mock_brick(strings(&["a", "ab"]), 1, 1);
    let second = Setup::mock_brick(strings(&["bc", "c"]), 1, 1);
    let result = first.merge_bricks_with_bound_one(second);
    assert_eq!(result, Setup::mock_brick(strings(&["abc", "abbc", "ac"]), 1, 1));
}

#[test]
fn bound_one_merge_with_no_candidate_has_no_candidate() {
    let first = Setup::mock_brick(strings(&["a", "ab"]), 1, 1);
    let second = Setup::mock_brick(Vec::new(), 1, 1);
    assert_eq!(
        first.merge_bricks_with_bound_one(second.clone()),
        Setup::mock_brick(Vec::new(), 1, 1)
    );
    assert_eq!(second.merge_bricks_with_bound_one(first), Setup::mock_brick(Vec::new(), 1, 1));
}

#[test]
fn merging_with_top_gives_top() {
    let setup = Setup::new();
    assert_eq!(setup.brick0.merge(&BrickDomain::Top), BrickDomain::Top);
    assert_eq!(BrickDomain::Top.merge(&setup.brick0), BrickDomain::Top);
    let bricks = BricksDomain::Value(vec![setup.brick0.clone()]);
    assert_eq!(bricks.merge(&BricksDomain::Top), BricksDomain::Top);
    assert_eq!(BricksDomain::Top.merge(&bricks), BricksDomain::Top);
    assert!(BricksDomain::Top.is_top());
    assert!(!bricks.is_top());
}

#[test]
fn merging_bricks_is_commutative_and_idempotent_on_an_example() {
    let setup = Setup::new();
    let first = BricksDomain::Value(vec![setup.brick0.clone(), setup.brick2.clone()]);
    let second = BricksDomain::Value(vec![
        setup.brick3.clone(),
        setup.brick0.clone(),
        BrickDomain::Top,
        setup.brick5.clone(),
    ]);
    assert_eq!(first.merge(&second), second.merge(&first));
    assert_eq!(first.merge(&first), first);
    assert_eq!(second.merge(&second), second);
    assert_eq!(setup.brick1.merge(&setup.brick2), setup.brick2.merge(&setup.brick1));
}

#[test]
fn padding_compares_top_bricks_too() {
    let setup = Setup::new();
    let empty_brick = BrickDomain::get_empty_brick();
    let short_list = vec![BrickDomain::Top];
    let long_list = vec![setup.brick0.clone(), BrickDomain::Top, setup.brick1.clone()];
    let padded = BricksDomain::Value(short_list).pad_list(&BricksDomain::Value(long_list));
    let expected = BricksDomain::Value(vec![empty_brick.clone(), BrickDomain::Top, empty_brick]);
    assert_eq!(padded, expected);
}

#[test]
fn padding_fills_the_end_with_the_bricks_left() {
    let setup = Setup::new();
    let empty_brick = BrickDomain::get_empty_brick();
    let short_list = vec![setup.brick1.clone(), setup.brick2.clone()];
    let long_list = vec![setup.brick0.clone(), setup.brick3.clone(), setup.brick4.clone()];
    let padded = BricksDomain::Value(short_list).pad_list(&BricksDomain::Value(long_list));
    let expected = BricksDomain::Value(vec![empty_brick, setup.brick1, setup.brick2]);
    assert_eq!(padded, expected);
}

#[test]
fn padding_a_list_of_the_same_length_changes_nothing() {
    let setup = Setup::new();
    let list = BricksDomain::Value(vec![setup.brick1.clone(), setup.brick2.clone()]);
    let other = BricksDomain::Value(vec![setup.brick3.clone(), setup.brick4.clone()]);
    assert_eq!(list.pad_list(&other), list);
}

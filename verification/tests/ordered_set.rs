use abstract_string::ordered_set::Ordered;
use abstract_string::ordered_set::OrderedSet;

fn set(items: &[&str]) -> OrderedSet<String> {
    OrderedSet::from_vec(items.iter().map(|&s| String::from(s)).collect())
}

fn listing(s: &OrderedSet<String>) -> Vec<String> {
    (0..s.len()).map(|i| s.get(i).clone()).collect()
}

#[test]
fn from_vec_sorts_and_drops_duplicates() {
    let s = set(&["b", "a", "ab", "b", "", "a"]);
    assert_eq!(s.len(), 4);
    assert_eq!(listing(&s), vec!["", "a", "ab", "b"]);
}

#[test]
fn strings_are_ordered_as_std_orders_them() {
    let words = ["", "a", "ab", "abc", "b", "B", "é", "z", "zz", "aé", "\u{10000}", "\u{ffff}"];
    for x in words.iter() {
        for y in words.iter() {
            let a = String::from(*x);
            let b = String::from(*y);
            assert_eq!(a.precedes(&b), a < b);
        }
    }
}

#[test]
fn characters_are_ordered_by_code_point() {
    assert!('a'.precedes(&'b'));
    assert!(!'b'.precedes(&'a'));
    assert!(!'a'.precedes(&'a'));
    assert!('Z'.precedes(&'a'));
}

#[test]
fn insert_tells_whether_the_element_is_new() {
    let mut s = set(&["a"]);
    assert!(s.insert(String::from("b")));
    assert!(!s.insert(String::from("a")));
    assert_eq!(s, set(&["a", "b"]));
}

#[test]
fn contains_finds_elements_only() {
    let s = set(&["a", "c"]);
    assert!(s.contains(&String::from("a")));
    assert!(!s.contains(&String::from("b")));
    assert!(!OrderedSet::<String>::new().contains(&String::from("a")));
}

#[test]
fn union_and_intersection() {
    let a = set(&["a", "b", "c"]);
    let b = set(&["b", "d"]);
    assert_eq!(a.union(&b), set(&["a", "b", "c", "d"]));
    assert_eq!(a.intersection(&b), set(&["b"]));
    assert_eq!(a.intersection(&set(&[])), set(&[]));
    assert!(a.intersection(&set(&["x"])).is_empty());
}

#[test]
fn equals_compares_the_elements() {
    assert!(set(&["a", "b"]).equals(&set(&["b", "a", "a"])));
    assert!(!set(&["a", "b"]).equals(&set(&["a"])));
    assert!(!set(&["a", "b"]).equals(&set(&["a", "c"])));
}

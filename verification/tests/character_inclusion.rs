use abstract_string::character_inclusion::CharacterInclusionDomain;
use abstract_string::domain::AbstractDomain;
use abstract_string::domain::HasTop;
use abstract_string::ordered_set::OrderedSet;

fn chars(concrete: &str) -> OrderedSet<char> {
    OrderedSet::from_vec(concrete.chars().collect())
}

fn ci(concrete: &str) -> CharacterInclusionDomain {
    let abstract_set = chars(concrete);
    CharacterInclusionDomain::Value((abstract_set.clone(), abstract_set.clone()))
}

#[test]
fn merging() {
    let first = ci("abc");
    let second = ci("def");
    let third = ci("dabc");
    let possible_set = chars("abcdef");
    let certain_set = chars("d");

    assert_eq!(
        first.merge(&second),
        CharacterInclusionDomain::Value((OrderedSet::new(), possible_set.clone()))
    );
    assert_eq!(
        third.merge(&second),
        CharacterInclusionDomain::Value((certain_set, possible_set))
    );
    assert_eq!(
        first.merge(&CharacterInclusionDomain::Top),
        CharacterInclusionDomain::Top
    );
    assert_eq!(
        CharacterInclusionDomain::Top.merge(&CharacterInclusionDomain::Top),
        CharacterInclusionDomain::Top
    );
}

#[test]
fn merging_is_commutative_and_idempotent_on_an_example() {
    let first = ci("abc");
    let second = ci("bcd");
    assert_eq!(first.merge(&second), second.merge(&first));
    assert_eq!(first.merge(&first), first);
}

#[test]
fn unwrapping_gives_both_sets() {
    let value = CharacterInclusionDomain::Value((chars("a"), chars("ab")));
    assert_eq!(value.unwrap_value(), (chars("a"), chars("ab")));
}

#[test]
fn top_is_top() {
    assert!(CharacterInclusionDomain::Top.is_top());
    assert!(!ci("a").is_top());
    assert_eq!(ci("a").top(), CharacterInclusionDomain::Top);
}

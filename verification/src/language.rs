//! The strings that a list of bricks stands for, and the proof that the
//! rewriting rules of the normal form keep them.

use crate::brick::concat_product;
use crate::brick::lemma_product_with_empty_string;
use crate::brick::repetitions;
use crate::brick::BrickModel;
use crate::bricks::lemma_pad_len;
use crate::bricks::merge_brick_values;
use crate::bricks::merge_bricks_values;
use crate::bricks::merge_pairwise;
use crate::bricks::pad;
use crate::bricks::pads_first;
use crate::bricks::BrickValue;
use crate::bricks::BricksValue;
use crate::normalize::apply_rule;
use crate::normalize::first_rule;
use crate::normalize::is_normal;
use crate::normalize::normal_form;
use crate::normalize::normalized;
use crate::normalize::normalizes;
use crate::normalize::rewrite;
use crate::normalize::rule_at;
use crate::normalize::Rule;
use vstd::prelude::*;

verus! {

/// The set of the empty string alone.
pub open spec fn only_empty_string() -> Set<Seq<char>> {
    set![Seq::<char>::empty()]
}

/// The strings of a brick: the concatenations of `k` candidates for each
/// `k` from `min` to `max`. `Top` stands for every string.
pub open spec fn brick_language(brick: BrickValue) -> Set<Seq<char>> {
    match brick {
        BrickValue::Top => Set::full(),
        BrickValue::Value(model) => Set::new(
            |w: Seq<char>|
                exists|k: nat|
                    model.min <= k <= model.max && #[trigger] repetitions(model.strings, k).contains(
                        w,
                    ),
        ),
    }
}

/// The strings of a list of bricks: the concatenations of one string of
/// each brick, from left to right.
pub open spec fn language(list: Seq<BrickValue>) -> Set<Seq<char>>
    decreases list.len(),
{
    if list.len() == 0 {
        only_empty_string()
    } else {
        concat_product(brick_language(list[0]), language(list.drop_first()))
    }
}

/// In every brick of the list `min` does not exceed `max`.
pub open spec fn bounds_in_order(list: Seq<BrickValue>) -> bool {
    forall|i: int|
        0 <= i < list.len() && (#[trigger] list[i]) is Value ==> list[i]->Value_0.min
            <= list[i]->Value_0.max
}

/// The product of string sets is associative.
pub proof fn lemma_product_associative(a: Set<Seq<char>>, b: Set<Seq<char>>, c: Set<Seq<char>>)
    ensures
        concat_product(concat_product(a, b), c) == concat_product(a, concat_product(b, c)),
{
    let ab = concat_product(a, b);
    let bc = concat_product(b, c);
    assert forall|w: Seq<char>| concat_product(ab, c).contains(w) == concat_product(a, bc).contains(
        w,
    ) by {
        if concat_product(ab, c).contains(w) {
            let (u, z) = choose|u: Seq<char>, z: Seq<char>|
                #![trigger ab.contains(u), c.contains(z)]
                ab.contains(u) && c.contains(z) && w == u + z;
            let (x, y) = choose|x: Seq<char>, y: Seq<char>|
                #![trigger a.contains(x), b.contains(y)]
                a.contains(x) && b.contains(y) && u == x + y;
            assert(b.contains(y) && c.contains(z) && y + z == y + z);
            assert(bc.contains(y + z));
            assert((x + y) + z =~= x + (y + z));
            assert(a.contains(x) && bc.contains(y + z) && w == x + (y + z));
        }
        if concat_product(a, bc).contains(w) {
            let (x, v) = choose|x: Seq<char>, v: Seq<char>|
                #![trigger a.contains(x), bc.contains(v)]
                a.contains(x) && bc.contains(v) && w == x + v;
            let (y, z) = choose|y: Seq<char>, z: Seq<char>|
                #![trigger b.contains(y), c.contains(z)]
                b.contains(y) && c.contains(z) && v == y + z;
            assert(a.contains(x) && b.contains(y) && x + y == x + y);
            assert(ab.contains(x + y));
            assert((x + y) + z =~= x + (y + z));
            assert(ab.contains(x + y) && c.contains(z) && w == (x + y) + z);
        }
    }
    assert(concat_product(ab, c) =~= concat_product(a, bc));
}

/// The product with only the empty string on the right is the left operand.
pub proof fn lemma_product_with_empty_string_right(s: Set<Seq<char>>)
    ensures
        concat_product(s, only_empty_string()) == s,
{
    let unit = only_empty_string();
    assert forall|w: Seq<char>| concat_product(s, unit).contains(w) == s.contains(w) by {
        if concat_product(s, unit).contains(w) {
            let (x, y) = choose|x: Seq<char>, y: Seq<char>|
                #![trigger s.contains(x), unit.contains(y)]
                s.contains(x) && unit.contains(y) && w == x + y;
            assert(x + y =~= x);
        }
        if s.contains(w) {
            assert(w + Seq::<char>::empty() =~= w);
            assert(s.contains(w) && unit.contains(Seq::<char>::empty()) && w == w + Seq::<
                char,
            >::empty());
        }
    }
    assert(concat_product(s, unit) =~= s);
}

/// Concatenating `a + b` candidates is concatenating `a` and then `b`.
pub proof fn lemma_repetitions_add(s: Set<Seq<char>>, a: nat, b: nat)
    ensures
        repetitions(s, a + b) == concat_product(repetitions(s, a), repetitions(s, b)),
    decreases b,
{
    if b == 0 {
        lemma_product_with_empty_string_right(repetitions(s, a));
    } else {
        lemma_repetitions_add(s, a, (b - 1) as nat);
        lemma_product_associative(repetitions(s, a), repetitions(s, (b - 1) as nat), s);
        assert(repetitions(s, a + b) == concat_product(repetitions(s, (a + b - 1) as nat), s));
    }
}

/// One repetition gives the candidates themselves.
pub proof fn lemma_repetitions_once(s: Set<Seq<char>>)
    ensures
        repetitions(s, 1) == s,
{
    lemma_product_with_empty_string(s);
    assert(repetitions(s, 1) == concat_product(repetitions(s, 0), s));
}

/// The strings of two lists in a row are the concatenations of a string of
/// the first with a string of the second.
pub proof fn lemma_language_concat(a: Seq<BrickValue>, b: Seq<BrickValue>)
    ensures
        language(a + b) == concat_product(language(a), language(b)),
    decreases a.len(),
{
    if a.len() == 0 {
        assert(a + b =~= b);
        lemma_product_with_empty_string(language(b));
    } else {
        assert((a + b).drop_first() =~= a.drop_first() + b);
        assert((a + b)[0] == a[0]);
        lemma_language_concat(a.drop_first(), b);
        lemma_product_associative(brick_language(a[0]), language(a.drop_first()), language(b));
    }
}

/// A list of one brick stands for the strings of the brick.
pub proof fn lemma_language_of_one(x: BrickValue)
    ensures
        language(seq![x]) == brick_language(x),
{
    assert(seq![x].drop_first() =~= Seq::<BrickValue>::empty());
    assert(language(seq![x].drop_first()) == only_empty_string());
    lemma_product_with_empty_string_right(brick_language(x));
}

/// A list of two bricks stands for the concatenations of a string of each.
pub proof fn lemma_language_of_two(x: BrickValue, y: BrickValue)
    ensures
        language(seq![x, y]) == concat_product(brick_language(x), brick_language(y)),
{
    assert(seq![x, y] =~= seq![x] + seq![y]);
    lemma_language_concat(seq![x], seq![y]);
    lemma_language_of_one(x);
    lemma_language_of_one(y);
}

/// Replacing a part of a list by a part with the same strings keeps the
/// strings of the list.
pub proof fn lemma_language_replace(
    before: Seq<BrickValue>,
    old_part: Seq<BrickValue>,
    new_part: Seq<BrickValue>,
    after: Seq<BrickValue>,
)
    requires
        language(old_part) == language(new_part),
    ensures
        language(before + old_part + after) == language(before + new_part + after),
{
    lemma_language_concat(before + old_part, after);
    lemma_language_concat(before, old_part);
    lemma_language_concat(before + new_part, after);
    lemma_language_concat(before, new_part);
}

/// A brick that is taken exactly once stands for its candidates.
pub proof fn lemma_language_taken_once(strings: Set<Seq<char>>)
    ensures
        brick_language(BrickValue::Value(BrickModel { strings, min: 1, max: 1 })) == strings,
{
    let model = BrickModel { strings, min: 1, max: 1 };
    lemma_repetitions_once(strings);
    assert forall|w: Seq<char>| brick_language(BrickValue::Value(model)).contains(w)
        == strings.contains(w) by {
        if strings.contains(w) {
            assert(model.min <= 1 <= model.max && repetitions(model.strings, 1).contains(w));
        }
    }
    assert(brick_language(BrickValue::Value(model)) =~= strings);
}

/// A brick with equal bounds stands for the concatenations of that many
/// candidates.
pub proof fn lemma_language_exact(strings: Set<Seq<char>>, k: nat)
    ensures
        brick_language(BrickValue::Value(BrickModel { strings, min: k, max: k })) == repetitions(
            strings,
            k,
        ),
{
    let model = BrickModel { strings, min: k, max: k };
    assert forall|w: Seq<char>| brick_language(BrickValue::Value(model)).contains(w)
        == repetitions(strings, k).contains(w) by {
        if repetitions(strings, k).contains(w) {
            assert(model.min <= k <= model.max && repetitions(model.strings, k).contains(w));
        }
    }
    assert(brick_language(BrickValue::Value(model)) =~= repetitions(strings, k));
}

/// The brick of the empty string stands for the empty string alone.
pub proof fn lemma_language_empty_string()
    ensures
        brick_language(BrickValue::Value(BrickModel::empty_string())) == only_empty_string(),
{
    lemma_language_exact(Set::empty(), 0);
}

/// A brick stands for the strings of its first `min` repetitions followed
/// by those of the repetitions left.
pub proof fn lemma_language_split(model: BrickModel)
    requires
        model.min <= model.max,
    ensures
        brick_language(BrickValue::Value(model)) == concat_product(
            repetitions(model.strings, model.min),
            brick_language(
                BrickValue::Value(
                    BrickModel {
                        strings: model.strings,
                        min: 0,
                        max: (model.max - model.min) as nat,
                    },
                ),
            ),
        ),
{
    let s = model.strings;
    let rest = BrickModel { strings: s, min: 0, max: (model.max - model.min) as nat };
    let whole = brick_language(BrickValue::Value(model));
    let front = repetitions(s, model.min);
    let back = brick_language(BrickValue::Value(rest));
    let product = concat_product(front, back);
    assert forall|w: Seq<char>| whole.contains(w) == product.contains(w) by {
        if whole.contains(w) {
            let k = choose|k: nat|
                model.min <= k <= model.max && #[trigger] repetitions(s, k).contains(w);
            let j = (k - model.min) as nat;
            lemma_repetitions_add(s, model.min, j);
            assert(model.min + j == k);
            let (x, y) = choose|x: Seq<char>, y: Seq<char>|
                #![trigger front.contains(x), repetitions(s, j).contains(y)]
                front.contains(x) && repetitions(s, j).contains(y) && w == x + y;
            assert(rest.min <= j <= rest.max && repetitions(rest.strings, j).contains(y));
            assert(front.contains(x) && back.contains(y) && w == x + y);
        }
        if product.contains(w) {
            let (x, y) = choose|x: Seq<char>, y: Seq<char>|
                #![trigger front.contains(x), back.contains(y)]
                front.contains(x) && back.contains(y) && w == x + y;
            let j = choose|j: nat|
                rest.min <= j <= rest.max && #[trigger] repetitions(rest.strings, j).contains(y);
            lemma_repetitions_add(s, model.min, j);
            assert(front.contains(x) && repetitions(s, j).contains(y) && w == x + y);
            assert(repetitions(s, model.min + j).contains(w));
            assert(model.min <= model.min + j <= model.max && repetitions(
                model.strings,
                model.min + j,
            ).contains(w));
        }
    }
    assert(whole =~= product);
}

/// Two bricks with the same candidates in a row stand for the strings of
/// the one brick whose bounds are the sums of theirs.
pub proof fn lemma_language_fuse_equal(x: BrickModel, y: BrickModel)
    requires
        x.strings == y.strings,
        x.min <= x.max,
        y.min <= y.max,
    ensures
        concat_product(brick_language(BrickValue::Value(x)), brick_language(BrickValue::Value(y)))
            == brick_language(
            BrickValue::Value(
                BrickModel { strings: x.strings, min: x.min + y.min, max: x.max + y.max },
            ),
        ),
{
    let s = x.strings;
    let fused = BrickModel { strings: s, min: x.min + y.min, max: x.max + y.max };
    let lx = brick_language(BrickValue::Value(x));
    let ly = brick_language(BrickValue::Value(y));
    let product = concat_product(lx, ly);
    let whole = brick_language(BrickValue::Value(fused));
    assert forall|w: Seq<char>| product.contains(w) == whole.contains(w) by {
        if product.contains(w) {
            let (u, v) = choose|u: Seq<char>, v: Seq<char>|
                #![trigger lx.contains(u), ly.contains(v)]
                lx.contains(u) && ly.contains(v) && w == u + v;
            let a = choose|a: nat| x.min <= a <= x.max && #[trigger] repetitions(s, a).contains(u);
            let b = choose|b: nat| y.min <= b <= y.max && #[trigger] repetitions(s, b).contains(v);
            lemma_repetitions_add(s, a, b);
            assert(repetitions(s, a).contains(u) && repetitions(s, b).contains(v) && w == u + v);
            assert(repetitions(s, a + b).contains(w));
            assert(fused.min <= a + b <= fused.max && repetitions(fused.strings, a + b).contains(
                w,
            ));
        }
        if whole.contains(w) {
            let k = choose|k: nat|
                fused.min <= k <= fused.max && #[trigger] repetitions(s, k).contains(w);
            let a: nat = if k - y.min <= x.max {
                (k - y.min) as nat
            } else {
                x.max
            };
            let b: nat = (k - a) as nat;
            assert(x.min <= a <= x.max);
            assert(y.min <= b <= y.max);
            lemma_repetitions_add(s, a, b);
            assert(a + b == k);
            let (u, v) = choose|u: Seq<char>, v: Seq<char>|
                #![trigger repetitions(s, a).contains(u), repetitions(s, b).contains(v)]
                repetitions(s, a).contains(u) && repetitions(s, b).contains(v) && w == u + v;
            assert(x.min <= a <= x.max && repetitions(x.strings, a).contains(u));
            assert(y.min <= b <= y.max && repetitions(y.strings, b).contains(v));
            assert(lx.contains(u) && ly.contains(v) && w == u + v);
        }
    }
    assert(product =~= whole);
}

/// The first position at which a rule applies is a position of the list,
/// and a rule applies there.
pub proof fn lemma_first_rule(list: Seq<BrickValue>, from: int)
    requires
        0 <= from,
        first_rule(list, from) is Some,
    ensures
        from <= first_rule(list, from)->0 < list.len(),
        rule_at(list, first_rule(list, from)->0) is Some,
    decreases list.len() - from,
{
    if from < list.len() && !(rule_at(list, from) is Some) {
        lemma_first_rule(list, from + 1);
    }
}

/// Each rule keeps the strings of the list, and keeps the bounds in order.
pub proof fn lemma_rule_keeps_language(list: Seq<BrickValue>, i: int, rule: Rule)
    requires
        bounds_in_order(list),
        0 <= i < list.len(),
        rule_at(list, i) == Some(rule),
    ensures
        language(apply_rule(list, i, rule)) == language(list),
        bounds_in_order(apply_rule(list, i, rule)),
{
    let result = apply_rule(list, i, rule);
    let before = list.take(i);
    let current = list[i]->Value_0;
    assert(list[i] == BrickValue::Value(current));
    assert(current.min <= current.max);
    match rule {
        Rule::DropEmpty => {
            let after = list.skip(i + 1);
            assert(list =~= before + seq![list[i]] + after);
            assert(result =~= before + Seq::<BrickValue>::empty() + after);
            lemma_language_of_one(list[i]);
            assert(current == BrickModel::empty_string()) by {
                assert(current.strings =~= Set::<Seq<char>>::empty());
            }
            lemma_language_empty_string();
            lemma_language_replace(before, seq![list[i]], Seq::empty(), after);
            assert forall|k: int| 0 <= k < result.len() && (#[trigger] result[k]) is Value implies result[k]->Value_0.min
                <= result[k]->Value_0.max by {
                if k < i {
                    assert(result[k] == list[k]);
                } else {
                    assert(result[k] == list[k + 1]);
                }
            }
        },
        Rule::Flatten => {
            let after = list.skip(i + 1);
            let flat = BrickValue::Value(
                BrickModel { strings: repetitions(current.strings, current.min), min: 1, max: 1 },
            );
            assert(list =~= before + seq![list[i]] + after);
            assert(result =~= before + seq![flat] + after);
            lemma_language_of_one(list[i]);
            lemma_language_of_one(flat);
            lemma_language_exact(current.strings, current.min);
            lemma_language_taken_once(repetitions(current.strings, current.min));
            lemma_language_replace(before, seq![list[i]], seq![flat], after);
            assert forall|k: int| 0 <= k < result.len() && (#[trigger] result[k]) is Value implies result[k]->Value_0.min
                <= result[k]->Value_0.max by {
                if k != i {
                    assert(result[k] == list[k]);
                }
            }
        },
        Rule::Split => {
            let after = list.skip(i + 1);
            let exact = BrickValue::Value(
                BrickModel { strings: repetitions(current.strings, current.min), min: 1, max: 1 },
            );
            let rest = BrickValue::Value(
                BrickModel {
                    strings: current.strings,
                    min: 0,
                    max: (current.max - current.min) as nat,
                },
            );
            assert(list =~= before + seq![list[i]] + after);
            assert(result =~= before + seq![exact, rest] + after);
            lemma_language_of_one(list[i]);
            lemma_language_of_two(exact, rest);
            lemma_language_taken_once(repetitions(current.strings, current.min));
            lemma_language_split(current);
            lemma_language_replace(before, seq![list[i]], seq![exact, rest], after);
            assert forall|k: int| 0 <= k < result.len() && (#[trigger] result[k]) is Value implies result[k]->Value_0.min
                <= result[k]->Value_0.max by {
                if k < i {
                    assert(result[k] == list[k]);
                } else if k > i + 1 {
                    assert(result[k] == list[k - 1]);
                }
            }
        },
        Rule::FuseSingletons => {
            let after = list.skip(i + 2);
            let next = list[i + 1]->Value_0;
            assert(list[i + 1] == BrickValue::Value(next));
            let fused = BrickValue::Value(
                BrickModel {
                    strings: concat_product(current.strings, next.strings),
                    min: 1,
                    max: 1,
                },
            );
            assert(list =~= before + seq![list[i], list[i + 1]] + after);
            assert(result =~= before + seq![fused] + after);
            lemma_language_of_two(list[i], list[i + 1]);
            lemma_language_of_one(fused);
            lemma_language_taken_once(current.strings);
            lemma_language_taken_once(next.strings);
            lemma_language_taken_once(concat_product(current.strings, next.strings));
            assert(current == BrickModel { strings: current.strings, min: 1, max: 1 });
            assert(next == BrickModel { strings: next.strings, min: 1, max: 1 });
            lemma_language_replace(before, seq![list[i], list[i + 1]], seq![fused], after);
            assert forall|k: int| 0 <= k < result.len() && (#[trigger] result[k]) is Value implies result[k]->Value_0.min
                <= result[k]->Value_0.max by {
                if k < i {
                    assert(result[k] == list[k]);
                } else if k > i {
                    assert(result[k] == list[k + 1]);
                }
            }
        },
        Rule::FuseEqual => {
            let after = list.skip(i + 2);
            let next = list[i + 1]->Value_0;
            assert(list[i + 1] == BrickValue::Value(next));
            assert(next.min <= next.max);
            let fused = BrickValue::Value(
                BrickModel {
                    strings: current.strings,
                    min: current.min + next.min,
                    max: current.max + next.max,
                },
            );
            assert(list =~= before + seq![list[i], list[i + 1]] + after);
            assert(result =~= before + seq![fused] + after);
            lemma_language_of_two(list[i], list[i + 1]);
            lemma_language_of_one(fused);
            lemma_language_fuse_equal(current, next);
            lemma_language_replace(before, seq![list[i], list[i + 1]], seq![fused], after);
            assert forall|k: int| 0 <= k < result.len() && (#[trigger] result[k]) is Value implies result[k]->Value_0.min
                <= result[k]->Value_0.max by {
                if k < i {
                    assert(result[k] == list[k]);
                } else if k > i {
                    assert(result[k] == list[k + 1]);
                }
            }
        },
    }
}

/// A round keeps the strings of the list, and keeps the bounds in order.
pub proof fn lemma_rewrite_keeps_language(list: Seq<BrickValue>)
    requires
        bounds_in_order(list),
        !is_normal(list),
    ensures
        language(rewrite(list)) == language(list),
        bounds_in_order(rewrite(list)),
{
    lemma_first_rule(list, 0);
    let i = first_rule(list, 0)->0;
    lemma_rule_keeps_language(list, i, rule_at(list, i)->0);
}

/// However many rounds are made, the list stands for the same strings.
pub proof fn lemma_normal_form_keeps_language(list: Seq<BrickValue>, rounds: nat)
    requires
        bounds_in_order(list),
    ensures
        language(normal_form(list, rounds)) == language(list),
        bounds_in_order(normal_form(list, rounds)),
    decreases rounds,
{
    if !is_normal(list) && rounds > 0 {
        lemma_rewrite_keeps_language(list);
        lemma_normal_form_keeps_language(rewrite(list), (rounds - 1) as nat);
    }
}

/// Normalizing is sound: the normal form stands for exactly the strings of
/// the list it was made from, so for no string more.
pub proof fn lemma_normalized_keeps_language(list: Seq<BrickValue>)
    requires
        bounds_in_order(list),
        normalizes(list),
    ensures
        language(normalized(list)) == language(list),
{
    let rounds = choose|n: nat| crate::normalize::normalizes_within(list, n);
    lemma_normal_form_keeps_language(list, rounds);
}

/// The strings of a value of the bricks domain: those of its list, and
/// every string for `Top`.
pub open spec fn bricks_language(value: BricksValue) -> Set<Seq<char>> {
    match value {
        BricksValue::Top => Set::full(),
        BricksValue::Value(list) => language(list),
    }
}

/// The product grows with its operands.
pub proof fn lemma_product_monotone(
    a: Set<Seq<char>>,
    larger_a: Set<Seq<char>>,
    b: Set<Seq<char>>,
    larger_b: Set<Seq<char>>,
)
    requires
        a.subset_of(larger_a),
        b.subset_of(larger_b),
    ensures
        concat_product(a, b).subset_of(concat_product(larger_a, larger_b)),
{
    assert forall|w: Seq<char>| concat_product(a, b).contains(w) implies concat_product(
        larger_a,
        larger_b,
    ).contains(w) by {
        let (x, y) = choose|x: Seq<char>, y: Seq<char>|
            #![trigger a.contains(x), b.contains(y)]
            a.contains(x) && b.contains(y) && w == x + y;
        assert(larger_a.contains(x) && larger_b.contains(y) && w == x + y);
    }
}

/// More candidates give more concatenations of `k` candidates.
pub proof fn lemma_repetitions_monotone(s: Set<Seq<char>>, larger: Set<Seq<char>>, k: nat)
    requires
        s.subset_of(larger),
    ensures
        repetitions(s, k).subset_of(repetitions(larger, k)),
    decreases k,
{
    if k > 0 {
        lemma_repetitions_monotone(s, larger, (k - 1) as nat);
        lemma_product_monotone(
            repetitions(s, (k - 1) as nat),
            repetitions(larger, (k - 1) as nat),
            s,
            larger,
        );
    }
}

/// The join of two bricks covers both: a string of either brick is a
/// string of their join.
pub proof fn lemma_brick_merge_covers(x: BrickValue, y: BrickValue)
    ensures
        brick_language(x).subset_of(brick_language(merge_brick_values(x, y))),
        brick_language(y).subset_of(brick_language(merge_brick_values(x, y))),
{
    let joined = merge_brick_values(x, y);
    match (x, y) {
        (BrickValue::Value(a), BrickValue::Value(b)) => {
            let j = joined->Value_0;
            assert forall|w: Seq<char>| brick_language(x).contains(w) implies brick_language(
                joined,
            ).contains(w) by {
                let k = choose|k: nat|
                    a.min <= k <= a.max && #[trigger] repetitions(a.strings, k).contains(w);
                lemma_repetitions_monotone(a.strings, j.strings, k);
                assert(j.min <= k <= j.max && repetitions(j.strings, k).contains(w));
            }
            assert forall|w: Seq<char>| brick_language(y).contains(w) implies brick_language(
                joined,
            ).contains(w) by {
                let k = choose|k: nat|
                    b.min <= k <= b.max && #[trigger] repetitions(b.strings, k).contains(w);
                lemma_repetitions_monotone(b.strings, j.strings, k);
                assert(j.min <= k <= j.max && repetitions(j.strings, k).contains(w));
            }
        },
        _ => {},
    }
}

/// Joining two lists of the same length brick by brick covers both lists.
pub proof fn lemma_pairwise_merge_covers(left: Seq<BrickValue>, right: Seq<BrickValue>)
    requires
        left.len() == right.len(),
    ensures
        language(left).subset_of(language(merge_pairwise(left, right))),
        language(right).subset_of(language(merge_pairwise(left, right))),
    decreases left.len(),
{
    let joined = merge_pairwise(left, right);
    if left.len() > 0 {
        assert(joined.drop_first() =~= merge_pairwise(left.drop_first(), right.drop_first()));
        assert(joined[0] == merge_brick_values(left[0], right[0]));
        lemma_pairwise_merge_covers(left.drop_first(), right.drop_first());
        lemma_brick_merge_covers(left[0], right[0]);
        lemma_product_monotone(
            brick_language(left[0]),
            brick_language(joined[0]),
            language(left.drop_first()),
            language(joined.drop_first()),
        );
        lemma_product_monotone(
            brick_language(right[0]),
            brick_language(joined[0]),
            language(right.drop_first()),
            language(joined.drop_first()),
        );
    } else {
        assert(joined =~= left);
        assert(joined =~= right);
    }
}

/// Padding keeps the strings of a list: a brick of the empty string adds
/// nothing to a concatenation.
pub proof fn lemma_pad_keeps_language(short: Seq<BrickValue>, long: Seq<BrickValue>)
    requires
        short.len() <= long.len(),
    ensures
        language(pad(short, long)) == language(short),
    decreases long.len(),
{
    let padded = pad(short, long);
    if long.len() == 0 {
        assert(short =~= Seq::<BrickValue>::empty());
    } else if pads_first(short, long) {
        let rest = pad(short, long.drop_first());
        lemma_pad_keeps_language(short, long.drop_first());
        assert(padded.drop_first() =~= rest);
        lemma_language_empty_string();
        lemma_product_with_empty_string(language(rest));
    } else {
        let rest = pad(short.drop_first(), long.drop_first());
        lemma_pad_keeps_language(short.drop_first(), long.drop_first());
        assert(padded.drop_first() =~= rest);
        assert(padded[0] == short[0]);
    }
}

/// The join covers both operands: every string of either value of the
/// bricks domain is a string of their join.
pub proof fn lemma_merge_covers(a: BricksValue, b: BricksValue)
    ensures
        bricks_language(a).subset_of(bricks_language(merge_bricks_values(a, b))),
        bricks_language(b).subset_of(bricks_language(merge_bricks_values(a, b))),
{
    match (a, b) {
        (BricksValue::Value(x), BricksValue::Value(y)) => {
            if x.len() < y.len() {
                lemma_pad_len(x, y);
                lemma_pad_keeps_language(x, y);
                lemma_pairwise_merge_covers(pad(x, y), y);
            } else if y.len() < x.len() {
                lemma_pad_len(y, x);
                lemma_pad_keeps_language(y, x);
                lemma_pairwise_merge_covers(x, pad(y, x));
            } else {
                lemma_pairwise_merge_covers(x, y);
            }
        },
        _ => {},
    }
}

} // verus!

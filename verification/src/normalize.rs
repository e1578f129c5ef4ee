//! The normal form of a list of bricks.
//!
//! Many lists of bricks stand for the same strings. Five rewriting rules
//! remove this redundancy: a round scans the list from the left and applies
//! the first rule that fits at the first position where one fits, and rounds
//! are made until none fits.
//!
//! The rounds may go on for ever: `[S]^{1,1} [S]^{0,1}` is fused into
//! `[S]^{1,2}`, which is split into `[S]^{1,1} [S]^{0,1}` again. So the
//! contracts speak of the lists from which finitely many rounds lead to a
//! normal form, and a bounded variant gives up after a number of rounds.

use crate::brick::concat_product;
use crate::brick::repetitions;
use crate::brick::Brick;
use crate::brick::BrickModel;
use crate::bricks::brick_values;
use crate::bricks::bricks_wf;
use crate::bricks::BrickDomain;
use crate::bricks::BrickValue;
use crate::bricks::BricksDomain;
use crate::bricks::BricksValue;
use crate::domain::AbstractDomain;
use vstd::prelude::*;

verus! {

/// The rewriting rules.
#[derive(Clone, Copy, Debug, PartialEq, Eq, Structural)]
pub enum Rule {
    /// Removes a brick of the empty string.
    DropEmpty,
    /// Replaces `[S]^{k,k}`, `k > 1`, by the brick of the concatenations of
    /// `k` strings of `S`, taken once.
    Flatten,
    /// Replaces `[S]^{min,max}`, `1 <= min < max`, by the flattened brick of
    /// `min` repetitions and `[S]^{0,max-min}`.
    Split,
    /// Replaces two neighbours that are both taken exactly once by the brick
    /// of the concatenations of a string of each, taken once.
    FuseSingletons,
    /// Replaces two neighbours with the same strings by one brick with
    /// these strings, whose bounds are the sums of theirs.
    FuseEqual,
}

/// The rule that applies at position `i`, if any. A `Top` brick is left
/// alone, and no brick is fused with a `Top` neighbour.
pub open spec fn rule_at(list: Seq<BrickValue>, i: int) -> Option<Rule> {
    match list[i] {
        BrickValue::Top => None,
        BrickValue::Value(current) => {
            if current.is_empty_string() {
                Some(Rule::DropEmpty)
            } else if current.min == current.max && current.min > 1 {
                Some(Rule::Flatten)
            } else if current.min >= 1 && current.max > current.min {
                Some(Rule::Split)
            } else if i + 1 < list.len() {
                match list[i + 1] {
                    BrickValue::Top => None,
                    BrickValue::Value(next) => {
                        if current.min == 1 && current.max == 1 && next.min == 1 && next.max == 1 {
                            Some(Rule::FuseSingletons)
                        } else if current.strings == next.strings {
                            Some(Rule::FuseEqual)
                        } else {
                            None
                        }
                    },
                }
            } else {
                None
            }
        },
    }
}

/// Whether the machine can hold the result of the rule at position `i`: the
/// number of pairs that `FuseSingletons` concatenates fits in `usize`, and
/// the upper bound that `FuseEqual` adds up fits in `u32`.
pub open spec fn rule_fits(list: Seq<BrickValue>, i: int, rule: Rule) -> bool {
    match rule {
        Rule::FuseSingletons => list[i]->Value_0.strings.len() * list[i + 1]->Value_0.strings.len()
            <= usize::MAX,
        Rule::FuseEqual => list[i]->Value_0.max + list[i + 1]->Value_0.max <= u32::MAX,
        _ => true,
    }
}

/// The list after the rule was applied at position `i`.
pub open spec fn apply_rule(list: Seq<BrickValue>, i: int, rule: Rule) -> Seq<BrickValue> {
    let current = list[i]->Value_0;
    match rule {
        Rule::DropEmpty => list.remove(i),
        Rule::Flatten => list.update(
            i,
            BrickValue::Value(
                BrickModel { strings: repetitions(current.strings, current.min), min: 1, max: 1 },
            ),
        ),
        Rule::Split => list.update(
            i,
            BrickValue::Value(
                BrickModel { strings: repetitions(current.strings, current.min), min: 1, max: 1 },
            ),
        ).insert(
            i + 1,
            BrickValue::Value(
                BrickModel {
                    strings: current.strings,
                    min: 0,
                    max: (current.max - current.min) as nat,
                },
            ),
        ),
        Rule::FuseSingletons => list.update(
            i,
            BrickValue::Value(
                BrickModel {
                    strings: concat_product(current.strings, list[i + 1]->Value_0.strings),
                    min: 1,
                    max: 1,
                },
            ),
        ).remove(i + 1),
        Rule::FuseEqual => list.update(
            i,
            BrickValue::Value(
                BrickModel {
                    strings: current.strings,
                    min: current.min + list[i + 1]->Value_0.min,
                    max: current.max + list[i + 1]->Value_0.max,
                },
            ),
        ).remove(i + 1),
    }
}

/// The first position at or behind `from` at which a rule applies.
pub open spec fn first_rule(list: Seq<BrickValue>, from: int) -> Option<int>
    decreases list.len() - from,
{
    if from < 0 || from >= list.len() {
        None
    } else if rule_at(list, from) is Some {
        Some(from)
    } else {
        first_rule(list, from + 1)
    }
}

/// No rule applies anywhere.
pub open spec fn is_normal(list: Seq<BrickValue>) -> bool {
    first_rule(list, 0) is None
}

/// Whether the machine can hold the result of the next round.
pub open spec fn round_fits(list: Seq<BrickValue>) -> bool {
    let i = first_rule(list, 0)->0;
    rule_fits(list, i, rule_at(list, i)->0)
}

/// The list after one round, for a list that is not normal.
pub open spec fn rewrite(list: Seq<BrickValue>) -> Seq<BrickValue> {
    let i = first_rule(list, 0)->0;
    apply_rule(list, i, rule_at(list, i)->0)
}

/// At most `rounds` rounds lead from `list` to a normal list, and the
/// machine can hold the result of each.
pub open spec fn normalizes_within(list: Seq<BrickValue>, rounds: nat) -> bool
    decreases rounds,
{
    is_normal(list) || (rounds > 0 && round_fits(list) && normalizes_within(
        rewrite(list),
        (rounds - 1) as nat,
    ))
}

/// The list after `rounds` rounds, or after fewer if it is normal by then.
pub open spec fn normal_form(list: Seq<BrickValue>, rounds: nat) -> Seq<BrickValue>
    decreases rounds,
{
    if is_normal(list) || rounds == 0 {
        list
    } else {
        normal_form(rewrite(list), (rounds - 1) as nat)
    }
}

/// Some number of rounds leads from `list` to a normal list.
pub open spec fn normalizes(list: Seq<BrickValue>) -> bool {
    exists|rounds: nat| normalizes_within(list, rounds)
}

/// The normal list that the rounds lead to from a list that `normalizes`.
pub open spec fn normalized(list: Seq<BrickValue>) -> Seq<BrickValue> {
    normal_form(list, choose|rounds: nat| normalizes_within(list, rounds))
}

/// However many rounds are allowed beyond those needed, the normal form is
/// the same, and it is normal.
pub proof fn lemma_normal_form_unique(list: Seq<BrickValue>, a: nat, b: nat)
    requires
        normalizes_within(list, a),
        normalizes_within(list, b),
    ensures
        normal_form(list, a) == normal_form(list, b),
        is_normal(normal_form(list, a)),
    decreases a,
{
    if !is_normal(list) {
        lemma_normal_form_unique(rewrite(list), (a - 1) as nat, (b - 1) as nat);
    }
}

/// The normal form reached within any sufficient number of rounds is the
/// normalized list.
pub proof fn lemma_normalized(list: Seq<BrickValue>, rounds: nat)
    requires
        normalizes_within(list, rounds),
    ensures
        normalizes(list),
        normalized(list) == normal_form(list, rounds),
        is_normal(normalized(list)),
{
    let chosen = choose|n: nat| normalizes_within(list, n);
    lemma_normal_form_unique(list, rounds, chosen);
}

/// Normalizing is idempotent: the normal form of a list normalizes, in no
/// round at all, to itself.
pub proof fn lemma_normalize_idempotent(list: Seq<BrickValue>)
    requires
        normalizes(list),
    ensures
        normalizes(normalized(list)),
        normalized(normalized(list)) == normalized(list),
{
    let rounds = choose|n: nat| normalizes_within(list, n);
    lemma_normalized(list, rounds);
    lemma_normalized(normalized(list), 0);
}

/// A list to which no rule applies is its own normal form.
pub proof fn lemma_normal_is_normalized(list: Seq<BrickValue>)
    requires
        is_normal(list),
    ensures
        normalizes(list),
        normalized(list) == list,
{
    lemma_normalized(list, 0);
}

/// Finds the first position at which a rule applies, and the rule.
fn find_rule(list: &Vec<BrickDomain>) -> (r: Option<(usize, Rule)>)
    requires
        bricks_wf(list@),
    ensures
        match r {
            None => is_normal(brick_values(list@)),
            Some((i, rule)) => i < list.len() && first_rule(brick_values(list@), 0) == Some(
                i as int,
            ) && rule_at(brick_values(list@), i as int) == Some(rule),
        },
{
    let ghost values = brick_values(list@);
    let mut index: usize = 0;
    while index < list.len()
        invariant
            index <= list.len(),
            values == brick_values(list@),
            bricks_wf(list@),
            first_rule(values, 0) == first_rule(values, index as int),
        decreases list.len() - index,
    {
        proof {
            assert(values[index as int] == list@[index as int]@);
            assert(list@[index as int].wf());
            if index + 1 < list.len() {
                assert(values[index + 1] == list@[index + 1]@);
                assert(list@[index + 1].wf());
            }
        }
        match &list[index] {
            BrickDomain::Top => {},
            BrickDomain::Value(current) => {
                if current.is_empty_string() {
                    return Some((index, Rule::DropEmpty));
                }
                if current.min() == current.max() && current.min() > 1 {
                    return Some((index, Rule::Flatten));
                }
                if current.min() >= 1 && current.max() > current.min() {
                    return Some((index, Rule::Split));
                }
                if index + 1 < list.len() {
                    match &list[index + 1] {
                        BrickDomain::Top => {},
                        BrickDomain::Value(next) => {
                            if current.min() == 1 && current.max() == 1 && next.min() == 1
                                && next.max() == 1 {
                                return Some((index, Rule::FuseSingletons));
                            } else if current.sequence().equals(next.sequence()) {
                                return Some((index, Rule::FuseEqual));
                            }
                        },
                    }
                }
            },
        }
        index += 1;
    }
    None
}

/// Decides `rule_fits` for a rule that applies at position `i`.
fn fits(list: &Vec<BrickDomain>, i: usize, rule: Rule) -> (r: bool)
    requires
        bricks_wf(list@),
        i < list.len(),
        rule_at(brick_values(list@), i as int) == Some(rule),
    ensures
        r == rule_fits(brick_values(list@), i as int, rule),
{
    proof {
        assert(brick_values(list@)[i as int] == list@[i as int]@);
        assert(list@[i as int].wf());
        if i + 1 < list.len() {
            assert(brick_values(list@)[i + 1] == list@[i + 1]@);
            assert(list@[i + 1].wf());
        }
    }
    match rule {
        Rule::FuseSingletons => {
            let current = list[i].unwrap_value();
            let next = list[i + 1].unwrap_value();
            let left = current.sequence();
            let right = next.sequence();
            proof {
                left.lemma_cardinality();
                right.lemma_cardinality();
            }
            left.len().checked_mul(right.len()).is_some()
        },
        Rule::FuseEqual => {
            let current = list[i].unwrap_value();
            let next = list[i + 1].unwrap_value();
            current.max().checked_add(next.max()).is_some()
        },
        _ => true,
    }
}

/// Applies the rule at position `i`.
fn apply(list: &mut Vec<BrickDomain>, i: usize, rule: Rule)
    requires
        bricks_wf(old(list)@),
        i < old(list).len(),
        rule_at(brick_values(old(list)@), i as int) == Some(rule),
        rule_fits(brick_values(old(list)@), i as int, rule),
    ensures
        bricks_wf(final(list)@),
        brick_values(final(list)@) == apply_rule(brick_values(old(list)@), i as int, rule),
{
    let ghost before = list@;
    let ghost values = brick_values(list@);
    proof {
        assert(values[i as int] == list@[i as int]@);
        assert(list@[i as int].wf());
        if i + 1 < list.len() {
            assert(values[i + 1] == list@[i + 1]@);
            assert(list@[i + 1].wf());
        }
    }
    match rule {
        Rule::DropEmpty => {
            list.remove(i);
            proof {
                assert(brick_values(list@) =~= values.remove(i as int));
                assert forall|k: int| 0 <= k < list@.len() implies (#[trigger] list@[k]).wf() by {
                    if k < i {
                        assert(before[k].wf());
                    } else {
                        assert(before[k + 1].wf());
                    }
                }
            }
        },
        Rule::Flatten => {
            let current = list[i].unwrap_value();
            let flat = BrickDomain::Value(
                current.transform_brick_with_min_max_equal(current.min() as usize),
            );
            list.set(i, flat);
            proof {
                assert(brick_values(list@) =~= values.update(i as int, flat@));
                assert forall|k: int| 0 <= k < list@.len() implies (#[trigger] list@[k]).wf() by {
                    if k != i {
                        assert(before[k].wf());
                    }
                }
            }
        },
        Rule::Split => {
            let current = list[i].unwrap_value();
            let (exact, rest) = current.break_single_brick_into_simpler_bricks();
            let first = BrickDomain::Value(exact);
            let second = BrickDomain::Value(rest);
            list.set(i, first);
            list.insert(i + 1, second);
            proof {
                assert(brick_values(list@) =~= values.update(i as int, first@).insert(
                    i + 1,
                    second@,
                ));
                assert forall|k: int| 0 <= k < list@.len() implies (#[trigger] list@[k]).wf() by {
                    if k < i {
                        assert(before[k].wf());
                    } else if k > i + 1 {
                        assert(before[k - 1].wf());
                    }
                }
            }
        },
        Rule::FuseSingletons => {
            let current = list[i].unwrap_value();
            let next = list[i + 1].unwrap_value();
            let fused = BrickDomain::Value(current.merge_bricks_with_bound_one(next));
            list.set(i, fused);
            list.remove(i + 1);
            proof {
                assert(brick_values(list@) =~= values.update(i as int, fused@).remove(i + 1));
                assert forall|k: int| 0 <= k < list@.len() implies (#[trigger] list@[k]).wf() by {
                    if k < i {
                        assert(before[k].wf());
                    } else if k > i {
                        assert(before[k + 1].wf());
                    }
                }
            }
        },
        Rule::FuseEqual => {
            let current = list[i].unwrap_value();
            let next = list[i + 1].unwrap_value();
            let fused = BrickDomain::Value(current.merge_bricks_with_equal_content(next));
            list.set(i, fused);
            list.remove(i + 1);
            proof {
                assert(brick_values(list@) =~= values.update(i as int, fused@).remove(i + 1));
                assert forall|k: int| 0 <= k < list@.len() implies (#[trigger] list@[k]).wf() by {
                    if k < i {
                        assert(before[k].wf());
                    } else if k > i {
                        assert(before[k + 1].wf());
                    }
                }
            }
        },
    }
}

impl BricksDomain {
    /// Brings the list of bricks into its normal form: rounds are made until
    /// no rule applies.
    ///
    /// A round applies, at the first position where a rule fits, the first
    /// of: drop a brick of the empty string; flatten a brick whose bounds
    /// are equal and above one; split a brick with `1 <= min < max`; fuse
    /// two neighbours that are both taken exactly once; fuse two neighbours
    /// with the same strings.
    pub fn normalize(&self) -> (r: Self)
        requires
            self is Value,
            self.wf(),
            normalizes(self@->Value_0),
        ensures
            r.wf(),
            r@ == BricksValue::Value(normalized(self@->Value_0)),
            is_normal(normalized(self@->Value_0)),
    {
        let mut list = self.unwrap_value();
        let ghost start = self@->Value_0;
        let ghost total: nat = choose|n: nat| normalizes_within(start, n);
        let ghost mut left: nat = total;
        proof {
            lemma_normalized(start, total);
        }
        loop
            invariant
                start == self@->Value_0,
                bricks_wf(list@),
                normalizes_within(brick_values(list@), left),
                normal_form(brick_values(list@), left) == normalized(start),
                is_normal(normalized(start)),
            decreases left,
        {
            let ghost values = brick_values(list@);
            match find_rule(&list) {
                None => {
                    proof {
                        assert(normal_form(values, left) == values);
                    }
                    return BricksDomain::Value(list);
                },
                Some((i, rule)) => {
                    proof {
                        assert(!is_normal(values));
                        assert(left > 0 && round_fits(values));
                        assert(normal_form(values, left) == normal_form(
                            rewrite(values),
                            (left - 1) as nat,
                        ));
                    }
                    apply(&mut list, i, rule);
                    proof {
                        left = (left - 1) as nat;
                    }
                },
            }
        }
    }

    /// Makes at most `rounds` rounds towards the normal form. Returns the
    /// normal form if it is reached, and `None` if a rule still applies
    /// after `rounds` rounds or the machine cannot hold the result of one.
    pub fn normalize_within(&self, rounds: usize) -> (r: Option<Self>)
        requires
            self is Value,
            self.wf(),
        ensures
            r is Some == normalizes_within(self@->Value_0, rounds as nat),
            r matches Some(v) ==> v.wf() && v@ == BricksValue::Value(normalized(self@->Value_0))
                && is_normal(normalized(self@->Value_0)),
    {
        let mut list = self.unwrap_value();
        let ghost start = self@->Value_0;
        let mut left = rounds;
        loop
            invariant
                start == self@->Value_0,
                bricks_wf(list@),
                normalizes_within(start, rounds as nat) == normalizes_within(
                    brick_values(list@),
                    left as nat,
                ),
                normalizes_within(start, rounds as nat) ==> normal_form(start, rounds as nat)
                    == normal_form(brick_values(list@), left as nat),
            decreases left,
        {
            let ghost values = brick_values(list@);
            match find_rule(&list) {
                None => {
                    proof {
                        assert(normalizes_within(values, left as nat));
                        assert(normal_form(values, left as nat) == values);
                        lemma_normalized(start, rounds as nat);
                    }
                    return Some(BricksDomain::Value(list));
                },
                Some((i, rule)) => {
                    proof {
                        assert(!is_normal(values));
                    }
                    if left == 0 || !fits(&list, i, rule) {
                        proof {
                            assert(!normalizes_within(values, left as nat));
                        }
                        return None;
                    }
                    proof {
                        assert(normalizes_within(values, left as nat) == normalizes_within(
                            rewrite(values),
                            (left - 1) as nat,
                        ));
                        assert(normal_form(values, left as nat) == normal_form(
                            rewrite(values),
                            (left - 1) as nat,
                        ));
                    }
                    apply(&mut list, i, rule);
                    left -= 1;
                },
            }
        }
    }
}

} // verus!

//! The bricks domain: a string as the concatenation of a list of bricks, each
//! of which is a brick proper or stands for any string whatever.

use crate::brick::Brick;
use crate::brick::BrickModel;
use crate::domain::AbstractDomain;
use crate::domain::HasTop;
use crate::ordered_set::OrderedSet;
use vstd::prelude::*;

verus! {

/// What a `BrickDomain` stands for.
pub ghost enum BrickValue {
    /// Any string.
    Top,
    /// The strings of a brick.
    Value(BrickModel),
}

/// What a `BricksDomain` stands for.
pub ghost enum BricksValue {
    /// Any string.
    Top,
    /// The concatenations of one string of each brick, from left to right.
    Value(Seq<BrickValue>),
}

/// The join of two bricks: `Top` if either is `Top`, else the brick of the
/// candidates of both, from the smaller `min` to the larger `max`.
pub open spec fn merge_brick_values(a: BrickValue, b: BrickValue) -> BrickValue {
    match (a, b) {
        (BrickValue::Value(x), BrickValue::Value(y)) => BrickValue::Value(
            BrickModel {
                strings: x.strings.union(y.strings),
                min: if x.min <= y.min {
                    x.min
                } else {
                    y.min
                },
                max: if x.max >= y.max {
                    x.max
                } else {
                    y.max
                },
            },
        ),
        _ => BrickValue::Top,
    }
}

/// Whether `pad` puts a brick of the empty string first: `short` is the
/// shorter list still, and has no brick left or its first brick differs
/// from the first brick of `long`.
pub open spec fn pads_first(short: Seq<BrickValue>, long: Seq<BrickValue>) -> bool {
    short.len() < long.len() && (short.len() == 0 || short[0] != long[0])
}

/// The shorter list `short`, lengthened to the length of `long` by bricks of
/// the empty string.
///
/// The scan goes along `long`. As soon as the bricks left of `short` are as
/// many as the positions left, they fill those positions. Before that, a
/// position takes the next brick of `short` if that brick equals the brick
/// of `long` there, and the brick of the empty string otherwise.
pub open spec fn pad(short: Seq<BrickValue>, long: Seq<BrickValue>) -> Seq<BrickValue>
    decreases long.len(),
{
    if long.len() == 0 {
        Seq::empty()
    } else if pads_first(short, long) {
        seq![BrickValue::Value(BrickModel::empty_string())] + pad(short, long.drop_first())
    } else if short.len() > 0 {
        seq![short[0]] + pad(short.drop_first(), long.drop_first())
    } else {
        Seq::empty()
    }
}

/// The joins of the bricks of two lists, position by position, as far as
/// the shorter list goes.
pub open spec fn merge_pairwise(a: Seq<BrickValue>, b: Seq<BrickValue>) -> Seq<BrickValue> {
    Seq::new(
        if a.len() <= b.len() {
            a.len()
        } else {
            b.len()
        },
        |i: int| merge_brick_values(a[i], b[i]),
    )
}

/// The join of two brick lists: `Top` if either is `Top`; else the shorter
/// list is padded to the length of the longer one and the bricks are joined
/// position by position.
pub open spec fn merge_bricks_values(a: BricksValue, b: BricksValue) -> BricksValue {
    match (a, b) {
        (BricksValue::Value(x), BricksValue::Value(y)) => BricksValue::Value(
            if x.len() < y.len() {
                merge_pairwise(pad(x, y), y)
            } else if y.len() < x.len() {
                merge_pairwise(x, pad(y, x))
            } else {
                merge_pairwise(x, y)
            },
        ),
        _ => BricksValue::Top,
    }
}

/// The values of the bricks of a vector.
pub open spec fn brick_values(v: Seq<BrickDomain>) -> Seq<BrickValue> {
    v.map_values(|b: BrickDomain| b@)
}

/// Every brick of the vector is well formed.
pub open spec fn bricks_wf(v: Seq<BrickDomain>) -> bool {
    forall|i: int| 0 <= i < v.len() ==> (#[trigger] v[i]).wf()
}

/// A set of character sequences with the least and the greatest number of
/// them in a string; `Top` stands for any string.
#[derive(Debug, PartialEq, Eq)]
pub enum BrickDomain {
    Top,
    Value(Brick),
}

impl View for BrickDomain {
    type V = BrickValue;

    open spec fn view(&self) -> BrickValue {
        match self {
            BrickDomain::Top => BrickValue::Top,
            BrickDomain::Value(brick) => BrickValue::Value(brick@),
        }
    }
}

impl Clone for BrickDomain {
    fn clone(&self) -> (r: Self)
        ensures
            r@ == self@,
            r.wf() == self.wf(),
    {
        match self {
            BrickDomain::Top => BrickDomain::Top,
            BrickDomain::Value(brick) => BrickDomain::Value(brick.clone()),
        }
    }
}

impl BrickDomain {
    /// The brick of the empty string.
    pub fn get_empty_brick() -> (r: Self)
        ensures
            r.wf(),
            r@ == BrickValue::Value(BrickModel::empty_string()),
    {
        BrickDomain::Value(Brick::from_parts(OrderedSet::new(), 0, 0))
    }

    /// The brick of a value that is not `Top`.
    pub fn unwrap_value(&self) -> (r: Brick)
        requires
            self is Value,
        ensures
            self@ == BrickValue::Value(r@),
            r.wf() == self.wf(),
    {
        match self {
            BrickDomain::Value(brick) => brick.clone(),
            BrickDomain::Top => unreached(),
        }
    }

    /// Whether both stand for the same value.
    pub fn equals(&self, other: &Self) -> (r: bool)
        requires
            self.wf(),
            other.wf(),
        ensures
            r == (self@ == other@),
    {
        match (self, other) {
            (BrickDomain::Top, BrickDomain::Top) => true,
            (BrickDomain::Value(a), BrickDomain::Value(b)) => a.equals(b),
            _ => false,
        }
    }
}

impl AbstractDomain for BrickDomain {
    open spec fn wf(&self) -> bool {
        match self {
            BrickDomain::Top => true,
            BrickDomain::Value(brick) => brick.wf(),
        }
    }

    open spec fn merge_spec(a: BrickValue, b: BrickValue) -> BrickValue {
        merge_brick_values(a, b)
    }

    open spec fn is_top_spec(a: BrickValue) -> bool {
        a is Top
    }

    proof fn lemma_merge_idempotent(a: BrickValue) {
        match a {
            BrickValue::Top => {},
            BrickValue::Value(x) => {
                assert(x.strings.union(x.strings) =~= x.strings);
            },
        }
    }

    proof fn lemma_merge_top(a: BrickValue, t: BrickValue) {
    }

    /// Unites the candidates and takes the smaller `min` and the larger
    /// `max`; `Top` if either value is `Top`.
    fn merge(&self, other: &Self) -> (r: Self) {
        if self.is_top() || other.is_top() {
            BrickDomain::Top
        } else {
            let self_brick = self.unwrap_value();
            let other_brick = other.unwrap_value();
            proof {
                self_brick.lemma_wf();
                other_brick.lemma_wf();
            }
            let min = if self_brick.min() <= other_brick.min() {
                self_brick.min()
            } else {
                other_brick.min()
            };
            let max = if self_brick.max() >= other_brick.max() {
                self_brick.max()
            } else {
                other_brick.max()
            };
            BrickDomain::Value(
                Brick::from_parts(
                    self_brick.sequence().union(other_brick.sequence()),
                    min,
                    max,
                ),
            )
        }
    }

    fn is_top(&self) -> (r: bool) {
        matches!(self, BrickDomain::Top)
    }

    fn duplicate(&self) -> (r: Self) {
        self.clone()
    }

    proof fn lemma_merge_commutative(a: BrickValue, b: BrickValue) {
        match (a, b) {
            (BrickValue::Value(x), BrickValue::Value(y)) => {
                assert(x.strings.union(y.strings) =~= y.strings.union(x.strings));
            },
            _ => {},
        }
    }
}

/// A list of bricks whose concatenation makes up a string; `Top` stands for
/// any string.
#[derive(Debug, PartialEq, Eq)]
pub enum BricksDomain {
    Top,
    Value(Vec<BrickDomain>),
}

impl View for BricksDomain {
    type V = BricksValue;

    open spec fn view(&self) -> BricksValue {
        match self {
            BricksDomain::Top => BricksValue::Top,
            BricksDomain::Value(bricks) => BricksValue::Value(brick_values(bricks@)),
        }
    }
}

/// A copy of a list of bricks.
pub fn clone_bricks(bricks: &Vec<BrickDomain>) -> (r: Vec<BrickDomain>)
    ensures
        brick_values(r@) == brick_values(bricks@),
        bricks_wf(r@) == bricks_wf(bricks@),
{
    let mut copy: Vec<BrickDomain> = Vec::new();
    let mut i: usize = 0;
    while i < bricks.len()
        invariant
            i <= bricks.len(),
            copy@.len() == i,
            forall|k: int|
                0 <= k < i ==> (#[trigger] copy@[k])@ == bricks@[k]@ && copy@[k].wf()
                    == bricks@[k].wf(),
        decreases bricks.len() - i,
    {
        copy.push(bricks[i].clone());
        i += 1;
    }
    proof {
        assert(brick_values(copy@) =~= brick_values(bricks@));
        if bricks_wf(bricks@) {
            assert forall|k: int| 0 <= k < copy@.len() implies (#[trigger] copy@[k]).wf() by {
                assert(bricks@[k].wf());
            }
        }
        if bricks_wf(copy@) {
            assert forall|k: int| 0 <= k < bricks@.len() implies (#[trigger] bricks@[k]).wf() by {
                assert(copy@[k].wf());
            }
        }
    }
    copy
}

impl Clone for BricksDomain {
    fn clone(&self) -> (r: Self)
        ensures
            r@ == self@,
            r.wf() == self.wf(),
    {
        match self {
            BricksDomain::Top => BricksDomain::Top,
            BricksDomain::Value(bricks) => BricksDomain::Value(clone_bricks(bricks)),
        }
    }
}

impl BricksDomain {
    /// The list of bricks of a value that is not `Top`.
    pub fn unwrap_value(&self) -> (r: Vec<BrickDomain>)
        requires
            self is Value,
        ensures
            self@ == BricksValue::Value(brick_values(r@)),
            bricks_wf(r@) == self.wf(),
    {
        match self {
            BricksDomain::Value(bricks) => clone_bricks(bricks),
            BricksDomain::Top => unreached(),
        }
    }

    /// Pads the list of `self`, the shorter one, with bricks of the empty
    /// string to the length of the list of `other`, so that equal bricks of
    /// the two lists get the same position where the padding allows it.
    pub fn pad_list(&self, other: &BricksDomain) -> (r: Self)
        requires
            self is Value,
            other is Value,
            self.wf(),
            other.wf(),
            self@->Value_0.len() <= other@->Value_0.len(),
        ensures
            r.wf(),
            r@ == BricksValue::Value(pad(self@->Value_0, other@->Value_0)),
    {
        let short_list = self.unwrap_value();
        let long_list = other.unwrap_value();
        let ghost short = brick_values(short_list@);
        let ghost long = brick_values(long_list@);
        let mut new_list: Vec<BrickDomain> = Vec::new();
        let mut taken: usize = 0;
        let mut i: usize = 0;
        proof {
            assert(short.skip(0) =~= short);
            assert(long.skip(0) =~= long);
            assert(brick_values(new_list@) + pad(short, long) =~= pad(short, long));
        }
        while i < long_list.len()
            invariant
                i <= long_list.len(),
                taken <= short_list.len(),
                short_list.len() - taken <= long_list.len() - i,
                short == brick_values(short_list@),
                long == brick_values(long_list@),
                bricks_wf(short_list@),
                bricks_wf(long_list@),
                bricks_wf(new_list@),
                pad(short, long) == brick_values(new_list@) + pad(
                    short.skip(taken as int),
                    long.skip(i as int),
                ),
            decreases long_list.len() - i,
        {
            let ghost rest_short = short.skip(taken as int);
            let ghost rest_long = long.skip(i as int);
            let ghost so_far = brick_values(new_list@);
            proof {
                assert(rest_long.drop_first() =~= long.skip(i + 1));
                assert(rest_long[0] == long_list@[i as int]@);
                if taken < short_list.len() {
                    assert(rest_short.drop_first() =~= short.skip(taken + 1));
                    assert(rest_short[0] == short_list@[taken as int]@);
                }
            }
            let padding_left = short_list.len() - taken < long_list.len() - i;
            if padding_left && (taken == short_list.len() || !short_list[taken].equals(
                &long_list[i],
            )) {
                let empty = BrickDomain::get_empty_brick();
                new_list.push(empty);
                proof {
                    assert(brick_values(new_list@) =~= so_far.push(empty@));
                    assert(brick_values(new_list@) + pad(rest_short, long.skip(i + 1)) =~= so_far
                        + pad(rest_short, rest_long));
                }
            } else {
                let next = short_list[taken].clone();
                new_list.push(next);
                proof {
                    assert(brick_values(new_list@) =~= so_far.push(next@));
                    assert(brick_values(new_list@) + pad(short.skip(taken + 1), long.skip(i + 1))
                        =~= so_far + pad(rest_short, rest_long));
                }
                taken += 1;
            }
            i += 1;
        }
        proof {
            assert(pad(short.skip(taken as int), long.skip(i as int)) =~= Seq::empty());
            assert(brick_values(new_list@) + Seq::<BrickValue>::empty() =~= brick_values(
                new_list@,
            ));
        }
        BricksDomain::Value(new_list)
    }
}

impl AbstractDomain for BricksDomain {
    open spec fn wf(&self) -> bool {
        match self {
            BricksDomain::Top => true,
            BricksDomain::Value(bricks) => bricks_wf(bricks@),
        }
    }

    open spec fn merge_spec(a: BricksValue, b: BricksValue) -> BricksValue {
        merge_bricks_values(a, b)
    }

    open spec fn is_top_spec(a: BricksValue) -> bool {
        a is Top
    }

    proof fn lemma_merge_idempotent(a: BricksValue) {
        match a {
            BricksValue::Top => {},
            BricksValue::Value(x) => {
                assert forall|i: int| 0 <= i < x.len() implies merge_brick_values(x[i], x[i])
                    == x[i] by {
                    BrickDomain::lemma_merge_idempotent(x[i]);
                }
                assert(merge_pairwise(x, x) =~= x);
            },
        }
    }

    proof fn lemma_merge_top(a: BricksValue, t: BricksValue) {
    }

    /// Pads the shorter list to the length of the longer one and joins the
    /// bricks position by position; `Top` if either value is `Top`.
    fn merge(&self, other: &Self) -> (r: Self) {
        if self.is_top() || other.is_top() {
            BricksDomain::Top
        } else {
            let self_len = self.unwrap_value().len();
            let other_len = other.unwrap_value().len();
            let mut new_self = self.clone();
            let mut new_other = other.clone();
            if self_len < other_len {
                new_self = self.pad_list(other);
            } else if other_len < self_len {
                new_other = other.pad_list(self);
            }
            let self_list = new_self.unwrap_value();
            let other_list = new_other.unwrap_value();
            proof {
                if self_len < other_len {
                    lemma_pad_len(self@->Value_0, other@->Value_0);
                } else if other_len < self_len {
                    lemma_pad_len(other@->Value_0, self@->Value_0);
                }
            }
            let ghost left = brick_values(self_list@);
            let ghost right = brick_values(other_list@);
            let mut merged_list: Vec<BrickDomain> = Vec::new();
            let mut i: usize = 0;
            while i < self_list.len()
                invariant
                    i <= self_list.len(),
                    self_list.len() == other_list.len(),
                    left == brick_values(self_list@),
                    right == brick_values(other_list@),
                    bricks_wf(self_list@),
                    bricks_wf(other_list@),
                    bricks_wf(merged_list@),
                    merged_list@.len() == i,
                    forall|k: int|
                        0 <= k < i ==> (#[trigger] merged_list@[k])@ == merge_brick_values(
                            left[k],
                            right[k],
                        ),
                decreases self_list.len() - i,
            {
                let joined = self_list[i].merge(&other_list[i]);
                merged_list.push(joined);
                i += 1;
            }
            proof {
                assert(brick_values(merged_list@) =~= merge_pairwise(left, right));
            }
            BricksDomain::Value(merged_list)
        }
    }

    /// Whether the value is `Top`.
    fn is_top(&self) -> (r: bool) {
        matches!(self, BricksDomain::Top)
    }

    fn duplicate(&self) -> (r: Self) {
        self.clone()
    }

    proof fn lemma_merge_commutative(a: BricksValue, b: BricksValue) {
        match (a, b) {
            (BricksValue::Value(x), BricksValue::Value(y)) => {
                let (l, r) = if x.len() < y.len() {
                    (pad(x, y), y)
                } else if y.len() < x.len() {
                    (x, pad(y, x))
                } else {
                    (x, y)
                };
                assert forall|i: int| 0 <= i < merge_pairwise(l, r).len() implies merge_pairwise(
                    l,
                    r,
                )[i] == merge_pairwise(r, l)[i] by {
                    BrickDomain::lemma_merge_commutative(l[i], r[i]);
                }
                assert(merge_pairwise(l, r) =~= merge_pairwise(r, l));
            },
            _ => {},
        }
    }
}

impl HasTop for BricksDomain {
    open spec fn top_spec(a: BricksValue) -> BricksValue {
        BricksValue::Top
    }

    /// `Top`, whatever `self` is.
    fn top(&self) -> (r: Self) {
        BricksDomain::Top
    }
}

/// A padded list is as long as the list it was padded to.
pub proof fn lemma_pad_len(short: Seq<BrickValue>, long: Seq<BrickValue>)
    requires
        short.len() <= long.len(),
    ensures
        pad(short, long).len() == long.len(),
    decreases long.len(),
{
    if long.len() > 0 {
        if short.len() < long.len() && (short.len() == 0 || short[0] != long[0]) {
            lemma_pad_len(short, long.drop_first());
        } else {
            lemma_pad_len(short.drop_first(), long.drop_first());
        }
    }
}

/// The position in `pad(short, long)` at which brick `k` of `short` stands.
pub open spec fn position_of(short: Seq<BrickValue>, long: Seq<BrickValue>, k: int) -> int
    decreases long.len(),
{
    if long.len() == 0 {
        0
    } else if pads_first(short, long) {
        1 + position_of(short, long.drop_first(), k)
    } else if k <= 0 {
        0
    } else {
        1 + position_of(short.drop_first(), long.drop_first(), k - 1)
    }
}

/// Padding keeps the bricks of the shorter list: brick `k` of `short`
/// stands in the padded list, at `position_of(short, long, k)`.
pub proof fn lemma_pad_keeps_bricks(short: Seq<BrickValue>, long: Seq<BrickValue>, k: int)
    requires
        short.len() <= long.len(),
        0 <= k < short.len(),
    ensures
        0 <= position_of(short, long, k) < long.len(),
        pad(short, long)[position_of(short, long, k)] == short[k],
    decreases long.len(),
{
    lemma_pad_len(short, long);
    if pads_first(short, long) {
        lemma_pad_keeps_bricks(short, long.drop_first(), k);
        lemma_pad_len(short, long.drop_first());
    } else if k > 0 {
        lemma_pad_keeps_bricks(short.drop_first(), long.drop_first(), k - 1);
        lemma_pad_len(short.drop_first(), long.drop_first());
    }
}

/// Padding keeps the order of the bricks of the shorter list: a later brick
/// stands at a later position.
pub proof fn lemma_pad_keeps_order(short: Seq<BrickValue>, long: Seq<BrickValue>, k: int)
    requires
        short.len() <= long.len(),
        0 <= k,
        k + 1 < short.len(),
    ensures
        position_of(short, long, k) < position_of(short, long, k + 1),
    decreases long.len(),
{
    if pads_first(short, long) {
        lemma_pad_keeps_order(short, long.drop_first(), k);
    } else if k > 0 {
        lemma_pad_keeps_order(short.drop_first(), long.drop_first(), k - 1);
    } else {
        lemma_pad_keeps_bricks(short.drop_first(), long.drop_first(), 0);
    }
}

/// Padding inserts bricks of the empty string only where the next brick of
/// the shorter list does not match: a position `p` that lies behind brick
/// `k - 1` of `short` (if there is one) and before brick `k` (if there is
/// one) holds the brick of the empty string, and brick `k`, where it
/// exists, differs from the brick of `long` at `p`.
pub proof fn lemma_pad_inserts_on_mismatch(
    short: Seq<BrickValue>,
    long: Seq<BrickValue>,
    p: int,
    k: int,
)
    requires
        short.len() <= long.len(),
        0 <= p < long.len(),
        0 <= k <= short.len(),
        k > 0 ==> position_of(short, long, k - 1) < p,
        k < short.len() ==> p < position_of(short, long, k),
    ensures
        pad(short, long)[p] == BrickValue::Value(BrickModel::empty_string()),
        k < short.len() ==> short[k] != long[p],
    decreases long.len(),
{
    lemma_pad_len(short, long);
    if pads_first(short, long) {
        lemma_pad_len(short, long.drop_first());
        if p == 0 {
            if k > 0 {
                lemma_pad_keeps_bricks(short, long.drop_first(), k - 1);
            }
        } else {
            lemma_pad_inserts_on_mismatch(short, long.drop_first(), p - 1, k);
        }
    } else {
        lemma_pad_len(short.drop_first(), long.drop_first());
        if k == 0 {
            assert(short.len() > 0 ==> position_of(short, long, 0) == 0);
            assert(short.len() == 0 ==> long.len() == 0);
        } else if p == 0 {
            assert(position_of(short, long, 0) == 0);
            if k - 1 > 0 {
                lemma_pad_keeps_bricks(short.drop_first(), long.drop_first(), k - 2);
            }
        } else {
            lemma_pad_inserts_on_mismatch(short.drop_first(), long.drop_first(), p - 1, k - 1);
        }
    }
}

/// Joining with `Top` gives `Top`.
pub proof fn lemma_merge_with_top(a: BricksValue)
    ensures
        merge_bricks_values(a, BricksValue::Top) == BricksValue::Top,
        merge_bricks_values(BricksValue::Top, a) == BricksValue::Top,
{
}

/// Joining a brick with `Top` gives `Top`.
pub proof fn lemma_merge_brick_with_top(a: BrickValue)
    ensures
        merge_brick_values(a, BrickValue::Top) == BrickValue::Top,
        merge_brick_values(BrickValue::Top, a) == BrickValue::Top,
{
}

} // verus!

//! A brick: a finite set of candidate strings with a repetition bound.
//!
//! `[S]^{min,max}` stands for the strings made by concatenating between
//! `min` and `max` elements of `S`, with repetition and in any order.

use crate::ordered_set::OrderedSet;
use itertools::Itertools;
use vstd::prelude::*;
use vstd::string::StringExecFns;

verus! {

/// What a `Brick` stands for.
pub ghost struct BrickModel {
    /// The candidate strings.
    pub strings: Set<Seq<char>>,
    /// The least number of candidates in a string.
    pub min: nat,
    /// The greatest number of candidates in a string.
    pub max: nat,
}

impl BrickModel {
    /// The brick of the empty string alone: no candidate, no repetition.
    pub open spec fn empty_string() -> BrickModel {
        BrickModel { strings: Set::empty(), min: 0, max: 0 }
    }

    /// Whether this is the brick of the empty string alone.
    pub open spec fn is_empty_string(self) -> bool {
        self.strings == Set::<Seq<char>>::empty() && self.min == 0 && self.max == 0
    }

    /// The candidate set is finite and the bounds are in order.
    pub open spec fn wf(self) -> bool {
        self.strings.finite() && self.min <= self.max
    }
}

/// Every concatenation of a string of `a` with a string of `b`.
pub open spec fn concat_product(a: Set<Seq<char>>, b: Set<Seq<char>>) -> Set<Seq<char>> {
    Set::new(
        |w: Seq<char>|
            exists|x: Seq<char>, y: Seq<char>|
                #![trigger a.contains(x), b.contains(y)]
                a.contains(x) && b.contains(y) && w == x + y,
    )
}

/// Every concatenation of exactly `k` strings of `s`.
pub open spec fn repetitions(s: Set<Seq<char>>, k: nat) -> Set<Seq<char>>
    decreases k,
{
    if k == 0 {
        set![Seq::<char>::empty()]
    } else {
        concat_product(repetitions(s, (k - 1) as nat), s)
    }
}

/// One round of lengthening: each string of `generated` followed by each
/// candidate, candidate by candidate. With nothing generated yet the round
/// yields the candidates themselves.
pub open spec fn extend(candidates: Seq<Seq<char>>, generated: Seq<Seq<char>>) -> Seq<Seq<char>>
    decreases candidates.len(),
{
    if generated.len() == 0 {
        candidates
    } else if candidates.len() == 0 {
        Seq::empty()
    } else {
        extend(candidates.drop_last(), generated) + generated.map_values(
            |g: Seq<char>| g + candidates.last(),
        )
    }
}

/// `length` rounds of lengthening, and one round where `length` is zero.
pub open spec fn rounds(length: nat, candidates: Seq<Seq<char>>, generated: Seq<Seq<char>>) -> Seq<
    Seq<char>,
>
    decreases length,
{
    if length <= 1 {
        extend(candidates, generated)
    } else {
        rounds((length - 1) as nat, candidates, extend(candidates, generated))
    }
}

/// The views of the strings of a vector.
pub open spec fn views(v: Seq<String>) -> Seq<Seq<char>> {
    v.map_values(|s: String| s@)
}

/// `rounds` made on sets: `k` times the product with `s`.
pub open spec fn grow(x: Set<Seq<char>>, s: Set<Seq<char>>, k: nat) -> Set<Seq<char>>
    decreases k,
{
    if k == 0 {
        x
    } else {
        grow(concat_product(x, s), s, (k - 1) as nat)
    }
}

/// The last of `k + 1` products can be made after the first `k`.
proof fn lemma_grow_last(x: Set<Seq<char>>, s: Set<Seq<char>>, k: nat)
    ensures
        grow(x, s, k + 1) == concat_product(grow(x, s, k), s),
    decreases k,
{
    let first = concat_product(x, s);
    assert(grow(x, s, k + 1) == grow(first, s, k));
    if k > 0 {
        lemma_grow_last(first, s, (k - 1) as nat);
        assert(grow(x, s, k) == grow(first, s, (k - 1) as nat));
    }
}

/// Concatenating `k` candidates is `k` products from the empty string.
proof fn lemma_repetitions_grow(s: Set<Seq<char>>, k: nat)
    ensures
        repetitions(s, k) == grow(set![Seq::<char>::empty()], s, k),
    decreases k,
{
    if k > 0 {
        lemma_repetitions_grow(s, (k - 1) as nat);
        lemma_grow_last(set![Seq::<char>::empty()], s, (k - 1) as nat);
    }
}

/// The product with only the empty string on the left is the right operand.
pub proof fn lemma_product_with_empty_string(s: Set<Seq<char>>)
    ensures
        concat_product(set![Seq::<char>::empty()], s) == s,
{
    let unit = set![Seq::<char>::empty()];
    assert forall|w: Seq<char>| concat_product(unit, s).contains(w) == s.contains(w) by {
        if concat_product(unit, s).contains(w) {
            let (x, y) = choose|x: Seq<char>, y: Seq<char>|
                #![trigger unit.contains(x), s.contains(y)]
                unit.contains(x) && s.contains(y) && w == x + y;
            assert(x + y =~= y);
        }
        if s.contains(w) {
            assert(unit.contains(Seq::<char>::empty()));
            assert(Seq::<char>::empty() + w =~= w);
            assert(unit.contains(Seq::<char>::empty()) && s.contains(w) && w == Seq::<char>::empty()
                + w);
        }
    }
    assert(concat_product(unit, s) =~= s);
}

/// A product with no string on the right holds no string.
proof fn lemma_product_with_nothing(x: Set<Seq<char>>)
    ensures
        concat_product(x, Set::<Seq<char>>::empty()) == Set::<Seq<char>>::empty(),
{
    assert(concat_product(x, Set::<Seq<char>>::empty()) =~= Set::<Seq<char>>::empty());
}

/// A round on a non-empty `generated` yields the product of what was
/// generated with the candidates.
proof fn lemma_extend_set(candidates: Seq<Seq<char>>, generated: Seq<Seq<char>>)
    requires
        generated.len() > 0,
    ensures
        extend(candidates, generated).to_set() == concat_product(
            generated.to_set(),
            candidates.to_set(),
        ),
        extend(candidates, generated).len() == 0 <==> candidates.len() == 0,
    decreases candidates.len(),
{
    let product = concat_product(generated.to_set(), candidates.to_set());
    let whole = extend(candidates, generated);
    if candidates.len() == 0 {
        assert(whole.to_set() =~= product);
    } else {
        let front = candidates.drop_last();
        let last = candidates.last();
        let head = extend(front, generated);
        let tail = generated.map_values(|g: Seq<char>| g + last);
        lemma_extend_set(front, generated);
        assert(whole == head + tail);
        assert(tail.len() > 0);
        assert forall|w: Seq<char>| whole.to_set().contains(w) == product.contains(w) by {
            if whole.contains(w) {
                let k = choose|k: int| 0 <= k < whole.len() && whole[k] == w;
                if k < head.len() {
                    assert(head[k] == w);
                    assert(head.to_set().contains(w));
                    let (x, y) = choose|x: Seq<char>, y: Seq<char>|
                        #![trigger generated.to_set().contains(x), front.to_set().contains(y)]
                        generated.to_set().contains(x) && front.to_set().contains(y) && w == x + y;
                    let m = choose|m: int| 0 <= m < front.len() && front[m] == y;
                    assert(candidates[m] == y);
                    assert(generated.to_set().contains(x) && candidates.to_set().contains(y) && w
                        == x + y);
                } else {
                    let m = k - head.len();
                    assert(tail[m] == w);
                    assert(w == generated[m] + last);
                    assert(generated.contains(generated[m]));
                    assert(candidates.contains(last));
                    assert(generated.to_set().contains(generated[m]) && candidates.to_set().contains(
                        last,
                    ) && w == generated[m] + last);
                }
            }
            if product.contains(w) {
                let (x, y) = choose|x: Seq<char>, y: Seq<char>|
                    #![trigger generated.to_set().contains(x), candidates.to_set().contains(y)]
                    generated.to_set().contains(x) && candidates.to_set().contains(y) && w == x + y;
                let m = choose|m: int| 0 <= m < candidates.len() && candidates[m] == y;
                let g = choose|g: int| 0 <= g < generated.len() && generated[g] == x;
                if m < front.len() {
                    assert(front[m] == y);
                    assert(front.contains(y));
                    assert(generated.to_set().contains(x) && front.to_set().contains(y) && w == x
                        + y);
                    assert(head.to_set().contains(w));
                    let k = choose|k: int| 0 <= k < head.len() && head[k] == w;
                    assert(whole[k] == w);
                } else {
                    assert(tail[g] == w);
                    assert(whole[head.len() + g] == w);
                }
            }
        }
        assert(whole.to_set() =~= product);
    }
}

/// The strings that `rounds` makes from nothing are the concatenations of
/// as many candidates as rounds were made.
pub proof fn lemma_rounds_are_repetitions(length: nat, candidates: Seq<Seq<char>>)
    ensures
        rounds(length, candidates, Seq::empty()).to_set() == repetitions(
            candidates.to_set(),
            if length == 0 {
                1
            } else {
                length
            },
        ),
{
    let k: nat = if length == 0 {
        1
    } else {
        length
    };
    let unit = set![Seq::<char>::empty()];
    lemma_repetitions_grow(candidates.to_set(), k);
    lemma_product_with_empty_string(candidates.to_set());
    assert(extend(candidates, Seq::empty()) == candidates);
    if length <= 1 {
        assert(grow(unit, candidates.to_set(), 1) == grow(
            concat_product(unit, candidates.to_set()),
            candidates.to_set(),
            0,
        ));
    } else {
        lemma_rounds_grow((length - 1) as nat, candidates, candidates);
    }
}

/// Further rounds on something generated multiply its strings with the
/// candidates once for each round. Where `generated` is empty the rounds go
/// on from the candidates themselves.
proof fn lemma_rounds_grow(length: nat, candidates: Seq<Seq<char>>, generated: Seq<Seq<char>>)
    requires
        length >= 1,
        generated.len() == 0 ==> candidates.len() == 0,
    ensures
        rounds(length, candidates, generated).to_set() == grow(
            generated.to_set(),
            candidates.to_set(),
            length,
        ),
    decreases length,
{
    let next = extend(candidates, generated);
    let product = concat_product(generated.to_set(), candidates.to_set());
    if generated.len() == 0 {
        assert(next == candidates);
        assert(candidates.to_set() =~= Set::<Seq<char>>::empty());
        lemma_product_with_nothing(generated.to_set());
        assert(next.to_set() == product);
    } else {
        lemma_extend_set(candidates, generated);
    }
    if length > 1 {
        lemma_rounds_grow((length - 1) as nat, candidates, next);
    } else {
        assert(grow(generated.to_set(), candidates.to_set(), 1) == grow(
            product,
            candidates.to_set(),
            0,
        ));
    }
}

/// The pairs `(i, j)` with `i < n` and `j < m`, row by row: all the pairs
/// of one `i` stand together, in the order of `j`.
pub open spec fn index_pairs(n: nat, m: nat) -> Seq<(usize, usize)> {
    Seq::new(n * m, |k: int| ((k / (m as int)) as usize, (k % (m as int)) as usize))
}

/// Calls `Itertools::cartesian_product` on the ranges `0..n` and `0..m` and
/// collects the pairs with `Itertools::collect_vec`.
///
/// Trusted: the adaptor takes the next item of the second range for each
/// item of the first, starting the second range anew whenever it is
/// exhausted, so the pairs come out row by row.
#[verifier::external_body]
fn cartesian_indices(n: usize, m: usize) -> (pairs: Vec<(usize, usize)>)
    requires
        n * m <= usize::MAX,
    ensures
        pairs@ == index_pairs(n as nat, m as nat),
{
    (0..n).cartesian_product(0..m).collect_vec()
}

/// The pair at position `k` of `index_pairs` is in range.
proof fn lemma_index_pair_in_range(n: nat, m: nat, k: int)
    requires
        n * m <= usize::MAX,
        0 <= k < n * m,
    ensures
        index_pairs(n, m)[k].0 < n,
        index_pairs(n, m)[k].1 < m,
{
    assert(m > 0 && n <= n * m && m <= n * m) by (nonlinear_arith)
        requires
            0 <= k < n * m,
    ;
    vstd::arithmetic::div_mod::lemma_fundamental_div_mod(k, m as int);
    vstd::arithmetic::div_mod::lemma_mod_bound(k, m as int);
    assert(0 <= k / (m as int) < n) by (nonlinear_arith)
        requires
            0 <= k < n * m,
            m > 0,
            k == (m as int) * (k / (m as int)) + k % (m as int),
            0 <= k % (m as int) < m,
    ;
}

/// The pair `(i, j)` stands at position `i * m + j` of `index_pairs`.
proof fn lemma_index_pair_position(n: nat, m: nat, i: int, j: int)
    requires
        n * m <= usize::MAX,
        0 <= i < n,
        0 <= j < m,
    ensures
        0 <= i * m + j < n * m,
        index_pairs(n, m)[i * m + j] == (i as usize, j as usize),
{
    assert(0 <= i * m + j < n * m && n <= n * m && m <= n * m) by (nonlinear_arith)
        requires
            0 <= i < n,
            0 <= j < m,
    ;
    vstd::arithmetic::div_mod::lemma_fundamental_div_mod_converse(i * m + j, m as int, i, j);
}

/// A set of candidate strings with a lower and an upper repetition bound.
#[derive(Debug, PartialEq, Eq)]
pub struct Brick {
    sequence: OrderedSet<String>,
    min: u32,
    max: u32,
}

impl View for Brick {
    type V = BrickModel;

    closed spec fn view(&self) -> BrickModel {
        BrickModel { strings: self.sequence@, min: self.min as nat, max: self.max as nat }
    }
}

impl Clone for Brick {
    fn clone(&self) -> (r: Self)
        ensures
            r@ == self@,
            r.wf() == self.wf(),
    {
        Brick { sequence: self.sequence.duplicate(), min: self.min, max: self.max }
    }
}

impl Brick {
    /// The candidate set is well formed and `min` does not exceed `max`.
    pub closed spec fn wf(&self) -> bool {
        self.sequence.wf() && self.min <= self.max
    }

    /// A well-formed brick stands for a well-formed model within the range
    /// of its bounds.
    pub proof fn lemma_wf(&self)
        requires
            self.wf(),
        ensures
            self@.wf(),
            self@.max <= u32::MAX,
    {
        self.sequence.lemma_cardinality();
    }

    /// The brick `[sequence]^{min,max}`, or `None` where `min` exceeds `max`.
    pub fn new(sequence: Vec<String>, min: u32, max: u32) -> (r: Option<Brick>)
        ensures
            r is Some == (min <= max),
            r matches Some(b) ==> b.wf() && b@ == (BrickModel {
                strings: views(sequence@).to_set(),
                min: min as nat,
                max: max as nat,
            }),
    {
        if min <= max {
            Some(Brick { sequence: OrderedSet::from_vec(sequence), min, max })
        } else {
            None
        }
    }

    /// The brick of the given parts.
    pub fn from_parts(sequence: OrderedSet<String>, min: u32, max: u32) -> (r: Brick)
        requires
            sequence.wf(),
            min <= max,
        ensures
            r.wf(),
            r@ == (BrickModel { strings: sequence@, min: min as nat, max: max as nat }),
    {
        Brick { sequence, min, max }
    }

    /// The candidate strings.
    pub fn sequence(&self) -> (r: &OrderedSet<String>)
        ensures
            r@ == self@.strings,
            self.wf() ==> r.wf(),
    {
        &self.sequence
    }

    /// The lower repetition bound.
    pub fn min(&self) -> (r: u32)
        ensures
            r == self@.min,
    {
        self.min
    }

    /// The upper repetition bound.
    pub fn max(&self) -> (r: u32)
        ensures
            r == self@.max,
    {
        self.max
    }

    /// Whether both bricks have the same candidates and the same bounds.
    pub fn equals(&self, other: &Brick) -> (r: bool)
        requires
            self.wf(),
            other.wf(),
        ensures
            r == (self@ == other@),
    {
        self.min == other.min && self.max == other.max && self.sequence.equals(&other.sequence)
    }

    /// Whether the brick stands for the empty string alone.
    pub fn is_empty_string(&self) -> (r: bool)
        ensures
            r == self@.is_empty_string(),
    {
        if self.sequence.is_empty() && self.min == 0 && self.max == 0 {
            return true;
        }
        false
    }

    /// Fuses two bricks with the same candidates: the bounds add up.
    /// The candidates are those of `self`.
    pub fn merge_bricks_with_equal_content(&self, other: Brick) -> (r: Brick)
        requires
            self.wf(),
            other.wf(),
            self@.max + other@.max <= u32::MAX,
        ensures
            r.wf(),
            r@ == (BrickModel {
                strings: self@.strings,
                min: self@.min + other@.min,
                max: self@.max + other@.max,
            }),
    {
        Brick {
            sequence: self.sequence.duplicate(),
            min: self.min + other.min,
            max: self.max + other.max,
        }
    }

    /// One round of lengthening: `extend` on strings.
    fn extend_once(sequence: &OrderedSet<String>, generated: &Vec<String>) -> (r: Vec<String>)
        ensures
            views(r@) == extend(sequence.elements(), views(generated@)),
    {
        let ghost candidates = sequence.elements();
        let ghost earlier = views(generated@);
        let mut new_gen: Vec<String> = Vec::new();
        let mut i: usize = 0;
        if generated.len() == 0 {
            while i < sequence.len()
                invariant
                    i <= candidates.len(),
                    candidates == sequence.elements(),
                    views(new_gen@) == candidates.take(i as int),
                decreases candidates.len() - i,
            {
                let ghost prev = new_gen@;
                let copy = sequence.get(i).clone();
                new_gen.push(copy);
                proof {
                    assert(views(new_gen@) =~= views(prev).push(copy@));
                    assert(candidates.take(i + 1) =~= candidates.take(i as int).push(
                        candidates[i as int],
                    ));
                }
                i += 1;
            }
            proof {
                assert(candidates.take(i as int) =~= candidates);
            }
            return new_gen;
        }
        proof {
            assert(views(new_gen@) =~= extend(candidates.take(0), earlier));
        }
        while i < sequence.len()
            invariant
                i <= candidates.len(),
                generated.len() > 0,
                candidates == sequence.elements(),
                earlier == views(generated@),
                views(new_gen@) == extend(candidates.take(i as int), earlier),
            decreases candidates.len() - i,
        {
            let s = sequence.get(i);
            let ghost done = views(new_gen@);
            let mut j: usize = 0;
            while j < generated.len()
                invariant
                    j <= generated.len(),
                    i < candidates.len(),
                    candidates == sequence.elements(),
                    earlier == views(generated@),
                    s@ == candidates[i as int],
                    views(new_gen@) == done + earlier.take(j as int).map_values(
                        |g: Seq<char>| g + candidates[i as int],
                    ),
                decreases generated.len() - j,
            {
                let ghost prev = new_gen@;
                let mut joined = generated[j].clone();
                joined.append(s.as_str());
                new_gen.push(joined);
                proof {
                    assert(joined@ == earlier[j as int] + candidates[i as int]);
                    assert(views(new_gen@) =~= views(prev).push(joined@));
                    assert(earlier.take(j + 1) =~= earlier.take(j as int).push(earlier[j as int]));
                    assert(earlier.take(j + 1).map_values(|g: Seq<char>| g + candidates[i as int])
                        =~= earlier.take(j as int).map_values(
                        |g: Seq<char>| g + candidates[i as int],
                    ).push(earlier[j as int] + candidates[i as int]));
                }
                j += 1;
            }
            proof {
                let upto = candidates.take(i + 1);
                assert(earlier.take(j as int) =~= earlier);
                assert(upto.drop_last() =~= candidates.take(i as int));
                assert(upto.last() == candidates[i as int]);
                assert(views(new_gen@) =~= extend(upto, earlier));
            }
            i += 1;
        }
        proof {
            assert(candidates.take(i as int) =~= candidates);
        }
        new_gen
    }

    /// Lengthens the strings of `generated` by `length` rounds: in each
    /// round every string made so far is followed by every candidate of
    /// `sequence`. The first round of an empty `generated` yields the
    /// candidates, and at least one round is made.
    pub fn generate_permutations_of_fixed_length(
        length: usize,
        sequence: &OrderedSet<String>,
        generated: Vec<String>,
    ) -> (r: Vec<String>)
        ensures
            views(r@) == rounds(length as nat, sequence.elements(), views(generated@)),
    {
        let mut current = generated;
        let mut remaining = length;
        loop
            invariant
                rounds(length as nat, sequence.elements(), views(generated@)) == rounds(
                    remaining as nat,
                    sequence.elements(),
                    views(current@),
                ),
            decreases remaining,
        {
            current = Self::extend_once(sequence, &current);
            if remaining <= 1 {
                return current;
            }
            remaining -= 1;
        }
    }

    /// Flattens `length` repetitions into one: the candidates of the result
    /// are the concatenations of exactly `length` candidates of `self` (of
    /// one where `length` is zero), and its bounds are both one.
    pub fn transform_brick_with_min_max_equal(&self, length: usize) -> (r: Brick)
        requires
            self.wf(),
        ensures
            r.wf(),
            r@ == (BrickModel {
                strings: repetitions(
                    self@.strings,
                    if length == 0 {
                        1
                    } else {
                        length as nat
                    },
                ),
                min: 1,
                max: 1,
            }),
    {
        let generated = Self::generate_permutations_of_fixed_length(
            length,
            &self.sequence,
            Vec::new(),
        );
        proof {
            assert(views(Seq::<String>::empty()) =~= Seq::<Seq<char>>::empty());
            lemma_rounds_are_repetitions(length as nat, self.sequence.elements());
            assert(generated@.map_values(|x: String| x@) =~= views(generated@));
        }
        let permutations = OrderedSet::from_vec(generated);
        Brick { sequence: permutations, min: 1, max: 1 }
    }

    /// Splits `[S]^{min,max}` into the brick of exactly `min` repetitions,
    /// flattened, and the brick `[S]^{0,max-min}` of the repetitions left.
    pub fn break_single_brick_into_simpler_bricks(&self) -> (r: (Brick, Brick))
        requires
            self.wf(),
        ensures
            r.0.wf(),
            r.1.wf(),
            r.0@ == (BrickModel {
                strings: repetitions(
                    self@.strings,
                    if self@.min == 0 {
                        1
                    } else {
                        self@.min
                    },
                ),
                min: 1,
                max: 1,
            }),
            r.1@ == (BrickModel {
                strings: self@.strings,
                min: 0,
                max: (self@.max - self@.min) as nat,
            }),
    {
        let brick_1 = self.transform_brick_with_min_max_equal(self.min as usize);
        let brick_2 = Brick {
            sequence: self.sequence.duplicate(),
            min: 0,
            max: self.max - self.min,
        };
        (brick_1, brick_2)
    }

    /// Fuses two bricks that each occur exactly once: the candidates of the
    /// result are the concatenations of a candidate of `self` with one of
    /// `other`, and its bounds are both one.
    pub fn merge_bricks_with_bound_one(&self, other: Brick) -> (r: Brick)
        requires
            self.wf(),
            other.wf(),
            self@.strings.len() * other@.strings.len() <= usize::MAX,
        ensures
            r.wf(),
            r@ == (BrickModel {
                strings: concat_product(self@.strings, other@.strings),
                min: 1,
                max: 1,
            }),
    {
        let ghost left = self.sequence.elements();
        let ghost right = other.sequence.elements();
        let n = self.sequence.len();
        let m = other.sequence.len();
        proof {
            self.sequence.lemma_cardinality();
            other.sequence.lemma_cardinality();
        }
        let product = cartesian_indices(n, m);
        let mut sequence: OrderedSet<String> = OrderedSet::new();
        let mut k: usize = 0;
        while k < product.len()
            invariant
                k <= product.len(),
                n == left.len(),
                m == right.len(),
                n * m <= usize::MAX,
                left == self.sequence.elements(),
                right == other.sequence.elements(),
                product@ == index_pairs(n as nat, m as nat),
                sequence.wf(),
                forall|w: Seq<char>|
                    sequence@.contains(w) == exists|p: int|
                        0 <= p < k && w == left[product@[p].0 as int] + right[product@[p].1 as int],
            decreases product.len() - k,
        {
            proof {
                lemma_index_pair_in_range(n as nat, m as nat, k as int);
            }
            let (i, j) = product[k];
            let mut joined = self.sequence.get(i).clone();
            joined.append(other.sequence.get(j).as_str());
            let ghost before = sequence@;
            sequence.insert(joined);
            proof {
                assert forall|w: Seq<char>|
                    sequence@.contains(w) == exists|p: int|
                        0 <= p < k + 1 && w == left[product@[p].0 as int]
                            + right[product@[p].1 as int] by {
                    if w == joined@ {
                        assert(0 <= k < k + 1 && w == left[product@[k as int].0 as int]
                            + right[product@[k as int].1 as int]);
                    }
                }
            }
            k += 1;
        }
        proof {
            let target = concat_product(self@.strings, other@.strings);
            assert forall|w: Seq<char>| sequence@.contains(w) == target.contains(w) by {
                if sequence@.contains(w) {
                    let p = choose|p: int|
                        0 <= p < k && w == left[product@[p].0 as int] + right[product@[p].1 as int];
                    lemma_index_pair_in_range(n as nat, m as nat, p);
                    let x = left[product@[p].0 as int];
                    let y = right[product@[p].1 as int];
                    assert(left.contains(x));
                    assert(right.contains(y));
                    assert(self@.strings.contains(x) && other@.strings.contains(y) && w == x + y);
                }
                if target.contains(w) {
                    let (x, y) = choose|x: Seq<char>, y: Seq<char>|
                        #![trigger self@.strings.contains(x), other@.strings.contains(y)]
                        self@.strings.contains(x) && other@.strings.contains(y) && w == x + y;
                    let i = choose|i: int| 0 <= i < left.len() && left[i] == x;
                    let j = choose|j: int| 0 <= j < right.len() && right[j] == y;
                    let p = i * m + j;
                    lemma_index_pair_position(n as nat, m as nat, i, j);
                    assert(product@[p] == (i as usize, j as usize));
                    assert(0 <= p < k && w == left[product@[p].0 as int]
                        + right[product@[p].1 as int]);
                }
            }
            assert(sequence@ =~= target);
        }
        Brick { sequence, min: 1, max: 1 }
    }
}

} // verus!

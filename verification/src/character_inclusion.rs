//! The domain of the characters that a string certainly holds and of those
//! that it may hold.

use crate::domain::AbstractDomain;
use crate::domain::HasTop;
use crate::ordered_set::OrderedSet;
use vstd::prelude::*;

verus! {

/// What a `CharacterInclusionDomain` stands for.
pub ghost enum CharacterInclusion {
    /// No character is certain and every character is possible.
    Top,
    /// Every string holds each character of `certain` and no character
    /// outside `possible`.
    Value { certain: Set<char>, possible: Set<char> },
}

/// The join of two character inclusions: `Top` if either is `Top`, else the
/// characters certain on both sides and those possible on either side.
pub open spec fn merge_inclusions(a: CharacterInclusion, b: CharacterInclusion) -> CharacterInclusion {
    match (a, b) {
        (
            CharacterInclusion::Value { certain: c1, possible: p1 },
            CharacterInclusion::Value { certain: c2, possible: p2 },
        ) => CharacterInclusion::Value { certain: c1.intersect(c2), possible: p1.union(p2) },
        _ => CharacterInclusion::Top,
    }
}

/// The characters a string certainly has and those it may have.
///
/// A `Value` holds the certainly contained characters first and the possibly
/// contained ones second.
#[derive(Debug, PartialEq, Eq)]
pub enum CharacterInclusionDomain {
    Top,
    Value((OrderedSet<char>, OrderedSet<char>)),
}

impl View for CharacterInclusionDomain {
    type V = CharacterInclusion;

    open spec fn view(&self) -> CharacterInclusion {
        match self {
            CharacterInclusionDomain::Top => CharacterInclusion::Top,
            CharacterInclusionDomain::Value(sets) => CharacterInclusion::Value {
                certain: sets.0@,
                possible: sets.1@,
            },
        }
    }
}

impl Clone for CharacterInclusionDomain {
    fn clone(&self) -> (r: Self)
        ensures
            r@ == self@,
            r.wf() == self.wf(),
    {
        match self {
            CharacterInclusionDomain::Top => CharacterInclusionDomain::Top,
            CharacterInclusionDomain::Value(sets) => CharacterInclusionDomain::Value(
                (sets.0.duplicate(), sets.1.duplicate()),
            ),
        }
    }
}

impl CharacterInclusionDomain {
    /// The two character sets of a value that is not `Top`.
    pub fn unwrap_value(&self) -> (r: (OrderedSet<char>, OrderedSet<char>))
        requires
            self is Value,
        ensures
            self@ == (CharacterInclusion::Value { certain: r.0@, possible: r.1@ }),
            r.0.wf() == self->Value_0.0.wf(),
            r.1.wf() == self->Value_0.1.wf(),
    {
        match self {
            CharacterInclusionDomain::Value(sets) => (sets.0.duplicate(), sets.1.duplicate()),
            CharacterInclusionDomain::Top => unreached(),
        }
    }
}

impl AbstractDomain for CharacterInclusionDomain {
    /// Both sets are well formed and every certain character is possible.
    open spec fn wf(&self) -> bool {
        match self {
            CharacterInclusionDomain::Top => true,
            CharacterInclusionDomain::Value(sets) => {
                &&& sets.0.wf()
                &&& sets.1.wf()
                &&& sets.0@.subset_of(sets.1@)
            },
        }
    }

    open spec fn merge_spec(a: CharacterInclusion, b: CharacterInclusion) -> CharacterInclusion {
        merge_inclusions(a, b)
    }

    open spec fn is_top_spec(a: CharacterInclusion) -> bool {
        a is Top
    }

    proof fn lemma_merge_idempotent(a: CharacterInclusion) {
        match a {
            CharacterInclusion::Top => {},
            CharacterInclusion::Value { certain, possible } => {
                assert(certain.intersect(certain) =~= certain);
                assert(possible.union(possible) =~= possible);
            },
        }
    }

    proof fn lemma_merge_top(a: CharacterInclusion, t: CharacterInclusion) {
    }

    /// Intersects the certain characters and unites the possible ones;
    /// `Top` if either value is `Top`.
    fn merge(&self, other: &Self) -> (r: Self) {
        if self.is_top() || other.is_top() {
            CharacterInclusionDomain::Top
        } else {
            let (self_certain, self_possible) = self.unwrap_value();
            let (other_certain, other_possible) = other.unwrap_value();
            CharacterInclusionDomain::Value(
                (
                    self_certain.intersection(&other_certain),
                    self_possible.union(&other_possible),
                ),
            )
        }
    }

    fn is_top(&self) -> (r: bool) {
        matches!(self, CharacterInclusionDomain::Top)
    }

    fn duplicate(&self) -> (r: Self) {
        self.clone()
    }

    proof fn lemma_merge_commutative(a: CharacterInclusion, b: CharacterInclusion) {
        match (a, b) {
            (
                CharacterInclusion::Value { certain: c1, possible: p1 },
                CharacterInclusion::Value { certain: c2, possible: p2 },
            ) => {
                assert(c1.intersect(c2) =~= c2.intersect(c1));
                assert(p1.union(p2) =~= p2.union(p1));
            },
            _ => {},
        }
    }
}

impl HasTop for CharacterInclusionDomain {
    open spec fn top_spec(a: CharacterInclusion) -> CharacterInclusion {
        CharacterInclusion::Top
    }

    /// `Top`, whatever `self` is: characters carry no width.
    fn top(&self) -> (r: Self) {
        CharacterInclusionDomain::Top
    }
}

/// Joining with `Top` gives `Top`.
pub proof fn lemma_merge_with_top(a: CharacterInclusion)
    ensures
        merge_inclusions(a, CharacterInclusion::Top) == CharacterInclusion::Top,
        merge_inclusions(CharacterInclusion::Top, a) == CharacterInclusion::Top,
{
}

/// Whether a string is one of those that the value stands for: it holds
/// every certain character and only possible ones.
pub open spec fn admits(value: CharacterInclusion, s: Seq<char>) -> bool {
    match value {
        CharacterInclusion::Top => true,
        CharacterInclusion::Value { certain, possible } => {
            &&& forall|c: char| certain.contains(c) ==> s.contains(c)
            &&& forall|i: int| 0 <= i < s.len() ==> possible.contains(#[trigger] s[i])
        },
    }
}

/// The join covers both operands: a string that either admits, the join
/// admits.
pub proof fn lemma_merge_covers(a: CharacterInclusion, b: CharacterInclusion, s: Seq<char>)
    requires
        admits(a, s) || admits(b, s),
    ensures
        admits(merge_inclusions(a, b), s),
{
}

} // verus!

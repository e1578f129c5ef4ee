//! The orders by which characters and strings are kept in sets: characters
//! by code point, strings lexicographically by their characters.

use crate::ordered_set::Ordered;
use vstd::std_specs::iter::IteratorSpec;
use vstd::prelude::*;

verus! {

/// `a` has the smaller code point.
pub open spec fn char_before(a: char, b: char) -> bool {
    (a as int) < (b as int)
}

/// `a` comes before `b` in the lexicographic order: at the first position
/// where they differ `a` has the smaller character, or `a` is a proper
/// prefix of `b`.
pub open spec fn lex_before(a: Seq<char>, b: Seq<char>) -> bool
    decreases a.len(),
{
    if b.len() == 0 {
        false
    } else if a.len() == 0 {
        true
    } else if a[0] != b[0] {
        char_before(a[0], b[0])
    } else {
        lex_before(a.drop_first(), b.drop_first())
    }
}

/// No string comes before itself.
pub proof fn lemma_lex_irreflexive(a: Seq<char>)
    ensures
        !lex_before(a, a),
    decreases a.len(),
{
    if a.len() > 0 {
        lemma_lex_irreflexive(a.drop_first());
    }
}

/// The lexicographic order is transitive.
pub proof fn lemma_lex_transitive(a: Seq<char>, b: Seq<char>, c: Seq<char>)
    requires
        lex_before(a, b),
        lex_before(b, c),
    ensures
        lex_before(a, c),
    decreases a.len(),
{
    if a.len() > 0 && b.len() > 0 && c.len() > 0 {
        if a[0] == b[0] && b[0] == c[0] {
            lemma_lex_transitive(a.drop_first(), b.drop_first(), c.drop_first());
        }
    }
}

/// Of two different strings one comes before the other.
pub proof fn lemma_lex_total(a: Seq<char>, b: Seq<char>)
    requires
        a != b,
    ensures
        lex_before(a, b) || lex_before(b, a),
    decreases a.len(),
{
    if a.len() > 0 && b.len() > 0 {
        if a[0] == b[0] {
            if a.drop_first() == b.drop_first() {
                assert(a =~= seq![a[0]] + a.drop_first());
                assert(b =~= seq![b[0]] + b.drop_first());
            }
            lemma_lex_total(a.drop_first(), b.drop_first());
        }
    } else if a.len() == 0 && b.len() == 0 {
        assert(a =~= b);
    }
}

impl Ordered for char {
    open spec fn before(a: char, b: char) -> bool {
        char_before(a, b)
    }

    proof fn lemma_strict_total_order(a: char, b: char, c: char) {
    }

    fn precedes(&self, other: &Self) -> (r: bool) {
        *self < *other
    }

    fn duplicate(&self) -> (r: Self) {
        *self
    }
}

impl Ordered for String {
    open spec fn before(a: Seq<char>, b: Seq<char>) -> bool {
        lex_before(a, b)
    }

    proof fn lemma_strict_total_order(a: Seq<char>, b: Seq<char>, c: Seq<char>) {
        lemma_lex_irreflexive(a);
        if lex_before(a, b) && lex_before(b, c) {
            lemma_lex_transitive(a, b, c);
        }
        if a != b {
            lemma_lex_total(a, b);
        }
    }

    fn precedes(&self, other: &Self) -> (r: bool) {
        broadcast use vstd::string::next_postcondition;
        broadcast use vstd::string::axiom_spec_iter;

        let mut left = self.as_str().chars();
        let mut right = other.as_str().chars();
        loop
            invariant
                left.decrease() is Some,
                lex_before(self@, other@) == lex_before(left.remaining(), right.remaining()),
            decreases left.decrease()->0,
        {
            let a = left.next();
            let b = right.next();
            match (a, b) {
                (_, None) => {
                    return false;
                },
                (None, Some(_)) => {
                    return true;
                },
                (Some(x), Some(y)) => {
                    if x != y {
                        return x < y;
                    }
                },
            }
        }
    }

    fn duplicate(&self) -> (r: Self) {
        self.clone()
    }
}

} // verus!

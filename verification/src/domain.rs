//! The vocabulary that every abstract value shares: joining two
//! approximations, recognising and producing the least precise one, and, for
//! values that live in registers, fixed-width operator semantics.

use vstd::prelude::*;

verus! {

/// A size in bytes.
#[derive(Clone, Copy, Debug, PartialEq, Eq, Structural, PartialOrd, Ord, Hash)]
pub struct ByteSize(pub u64);

/// The binary operators of the intermediate representation.
#[derive(Clone, Copy, Debug, PartialEq, Eq, Structural, Hash)]
pub enum BinOpType {
    Piece,
    IntEqual,
    IntNotEqual,
    IntLess,
    IntSLess,
    IntLessEqual,
    IntSLessEqual,
    IntAdd,
    IntSub,
    IntCarry,
    IntSCarry,
    IntSBorrow,
    IntXOr,
    IntAnd,
    IntOr,
    IntLeft,
    IntRight,
    IntSRight,
    IntMult,
    IntDiv,
    IntRem,
    IntSDiv,
    IntSRem,
    BoolXOr,
    BoolAnd,
    BoolOr,
}

/// The unary operators of the intermediate representation.
#[derive(Clone, Copy, Debug, PartialEq, Eq, Structural, Hash)]
pub enum UnOpType {
    IntNegate,
    Int2Comp,
    BoolNegate,
}

/// The casts of the intermediate representation.
#[derive(Clone, Copy, Debug, PartialEq, Eq, Structural, Hash)]
pub enum CastOpType {
    IntZExt,
    IntSExt,
    PopCount,
}

impl BinOpType {
    /// Whether the operator yields a truth value, which takes one byte.
    pub open spec fn yields_flag(self) -> bool {
        match self {
            BinOpType::IntEqual
            | BinOpType::IntNotEqual
            | BinOpType::IntLess
            | BinOpType::IntSLess
            | BinOpType::IntLessEqual
            | BinOpType::IntSLessEqual
            | BinOpType::IntCarry
            | BinOpType::IntSCarry
            | BinOpType::IntSBorrow => true,
            _ => false,
        }
    }

    /// The width in bytes of the result, given the widths of the operands:
    /// `Piece` concatenates, comparisons and carry tests yield one byte, and
    /// every other operator keeps the width of its left operand.
    pub open spec fn result_width(self, lhs: nat, rhs: nat) -> nat {
        if self == BinOpType::Piece {
            lhs + rhs
        } else if self.yields_flag() {
            1
        } else {
            lhs
        }
    }

    /// Decides `yields_flag`.
    pub fn is_flag(&self) -> (r: bool)
        ensures
            r == self.yields_flag(),
    {
        match self {
            BinOpType::IntEqual
            | BinOpType::IntNotEqual
            | BinOpType::IntLess
            | BinOpType::IntSLess
            | BinOpType::IntLessEqual
            | BinOpType::IntSLessEqual
            | BinOpType::IntCarry
            | BinOpType::IntSCarry
            | BinOpType::IntSBorrow => true,
            _ => false,
        }
    }
}

/// An approximation of a set of concrete values, with a join.
///
/// Contracts speak of the view. `merge_spec` is the least upper bound that
/// `merge` computes; it is idempotent and commutative. `is_top_spec` tells
/// the least precise values, of which a domain may have several (one for
/// each width, say).
pub trait AbstractDomain: Sized + View {
    /// The validity of a value of this domain.
    spec fn wf(&self) -> bool;

    /// The join of two approximations.
    spec fn merge_spec(a: Self::V, b: Self::V) -> Self::V;

    /// Whether an approximation admits every concrete value.
    spec fn is_top_spec(a: Self::V) -> bool;

    /// Joining a value with itself changes nothing.
    proof fn lemma_merge_idempotent(a: Self::V)
        ensures
            Self::merge_spec(a, a) == a,
    ;

    /// The join does not depend on the order of its operands.
    proof fn lemma_merge_commutative(a: Self::V, b: Self::V)
        ensures
            Self::merge_spec(a, b) == Self::merge_spec(b, a),
    ;

    /// Joining with a top value, on either side, gives a top value.
    proof fn lemma_merge_top(a: Self::V, t: Self::V)
        requires
            Self::is_top_spec(t),
        ensures
            Self::is_top_spec(Self::merge_spec(a, t)),
            Self::is_top_spec(Self::merge_spec(t, a)),
    ;

    /// Joins two values.
    fn merge(&self, other: &Self) -> (r: Self)
        requires
            self.wf(),
            other.wf(),
        ensures
            r.wf(),
            r@ == Self::merge_spec(self@, other@),
    ;

    /// Whether the value is a top value.
    fn is_top(&self) -> (r: bool)
        ensures
            r == Self::is_top_spec(self@),
    ;

    /// A second value that stands for the same.
    fn duplicate(&self) -> (r: Self)
        ensures
            r@ == self@,
            r.wf() == self.wf(),
    ;
}

/// A domain that can widen a value to the top value of the same shape.
pub trait HasTop: AbstractDomain {
    /// The top value that stands for `a`.
    spec fn top_spec(a: Self::V) -> Self::V;

    /// The top value of the same shape as `self`.
    fn top(&self) -> (r: Self)
        requires
            self.wf(),
        ensures
            r.wf(),
            r@ == Self::top_spec(self@),
            Self::is_top_spec(r@),
    ;
}

/// A value with a size in bytes.
pub trait HasByteSize: View {
    /// The size of the approximated values.
    spec fn bytesize_spec(a: Self::V) -> nat;

    /// The size of the approximated values.
    fn bytesize(&self) -> (r: ByteSize)
        ensures
            r.0 == Self::bytesize_spec(self@),
    ;
}

/// A domain for values held in registers of a fixed width.
///
/// An operator is either modelled exactly or answered with a top value; in
/// both cases the result has the width that the operator gives it.
pub trait RegisterDomain: AbstractDomain + HasTop + HasByteSize {
    /// The top value of the given width.
    fn new_top(bytesize: ByteSize) -> (r: Self)
        ensures
            r.wf(),
            Self::is_top_spec(r@),
            Self::bytesize_spec(r@) == bytesize.0,
    ;

    /// The value of `self op rhs`.
    fn bin_op(&self, op: BinOpType, rhs: &Self) -> (r: Self)
        requires
            self.wf(),
            rhs.wf(),
            op.result_width(Self::bytesize_spec(self@), Self::bytesize_spec(rhs@)) <= u64::MAX,
        ensures
            r.wf(),
            Self::bytesize_spec(r@) == op.result_width(
                Self::bytesize_spec(self@),
                Self::bytesize_spec(rhs@),
            ),
    ;

    /// The value of `op self`.
    fn un_op(&self, op: UnOpType) -> (r: Self)
        requires
            self.wf(),
        ensures
            r.wf(),
            Self::bytesize_spec(r@) == Self::bytesize_spec(self@),
    ;

    /// The `size` bytes of `self` that start at `low_byte`.
    fn subpiece(&self, low_byte: ByteSize, size: ByteSize) -> (r: Self)
        requires
            self.wf(),
        ensures
            r.wf(),
            Self::bytesize_spec(r@) == size.0,
    ;

    /// `self`, cast to `width` bytes.
    fn cast(&self, kind: CastOpType, width: ByteSize) -> (r: Self)
        requires
            self.wf(),
        ensures
            r.wf(),
            Self::bytesize_spec(r@) == width.0,
    ;
}

} // verus!

//! The domain of the lower and upper bound of a string's length.

use crate::domain::AbstractDomain;
use crate::domain::BinOpType;
use crate::domain::ByteSize;
use crate::domain::CastOpType;
use crate::domain::HasByteSize;
use crate::domain::HasTop;
use crate::domain::RegisterDomain;
use crate::domain::UnOpType;
use vstd::prelude::*;

verus! {

/// What a `StringLengthDomain` stands for.
pub ghost enum StringLength {
    /// Any length; the string is stored in `width` bytes.
    Top { width: nat },
    /// A length between `lower` and `upper`, both included.
    Value { lower: nat, upper: nat },
}

impl StringLength {
    /// The storage size: the width of a `Top`, the upper bound of a `Value`.
    pub open spec fn bytesize(self) -> nat {
        match self {
            StringLength::Top { width } => width,
            StringLength::Value { lower, upper } => upper,
        }
    }
}

/// The larger of two numbers.
pub open spec fn larger(a: nat, b: nat) -> nat {
    if a >= b {
        a
    } else {
        b
    }
}

/// The smaller of two numbers.
pub open spec fn smaller(a: nat, b: nat) -> nat {
    if a <= b {
        a
    } else {
        b
    }
}

/// The join of two length approximations. A `Top` and an interval give the
/// `Top`, with its width; two `Top`s give the `Top` of the larger width; two
/// intervals give the smallest interval that holds both.
pub open spec fn merge_lengths(a: StringLength, b: StringLength) -> StringLength {
    match (a, b) {
        (StringLength::Top { width: w1 }, StringLength::Top { width: w2 }) => StringLength::Top {
            width: larger(w1, w2),
        },
        (StringLength::Top { width }, StringLength::Value { .. }) => StringLength::Top { width },
        (StringLength::Value { .. }, StringLength::Top { width }) => StringLength::Top { width },
        (
            StringLength::Value { lower: l1, upper: u1 },
            StringLength::Value { lower: l2, upper: u2 },
        ) => StringLength::Value { lower: smaller(l1, l2), upper: larger(u1, u2) },
    }
}

/// The lower and upper bound of the length of a string at a point in time.
#[derive(Clone, Copy, Debug, PartialEq, Eq, Hash)]
pub enum StringLengthDomain {
    Top(ByteSize),
    Value((ByteSize, ByteSize)),
}

impl View for StringLengthDomain {
    type V = StringLength;

    open spec fn view(&self) -> StringLength {
        match self {
            StringLengthDomain::Top(width) => StringLength::Top { width: width.0 as nat },
            StringLengthDomain::Value(bounds) => StringLength::Value {
                lower: bounds.0.0 as nat,
                upper: bounds.1.0 as nat,
            },
        }
    }
}

impl AbstractDomain for StringLengthDomain {
    /// The lower bound of an interval does not exceed its upper bound.
    open spec fn wf(&self) -> bool {
        match self {
            StringLengthDomain::Top(_) => true,
            StringLengthDomain::Value(bounds) => bounds.0.0 <= bounds.1.0,
        }
    }

    open spec fn merge_spec(a: StringLength, b: StringLength) -> StringLength {
        merge_lengths(a, b)
    }

    open spec fn is_top_spec(a: StringLength) -> bool {
        a is Top
    }

    proof fn lemma_merge_idempotent(a: StringLength) {
    }

    proof fn lemma_merge_top(a: StringLength, t: StringLength) {
    }

    proof fn lemma_merge_commutative(a: StringLength, b: StringLength) {
    }

    /// Equal values pass through; a `Top` and an interval give the `Top`
    /// with its width; two `Top`s give the `Top` of the larger width; two
    /// different intervals give the interval from the smaller lower bound
    /// to the larger upper bound.
    fn merge(&self, other: &Self) -> (r: Self) {
        match (self, other) {
            (StringLengthDomain::Value(bounds), StringLengthDomain::Value(other_bounds)) => {
                if bounds.0.0 == other_bounds.0.0 && bounds.1.0 == other_bounds.1.0 {
                    *self
                } else {
                    let lower = if bounds.0.0 <= other_bounds.0.0 {
                        bounds.0
                    } else {
                        other_bounds.0
                    };
                    let upper = if bounds.1.0 >= other_bounds.1.0 {
                        bounds.1
                    } else {
                        other_bounds.1
                    };
                    StringLengthDomain::Value((lower, upper))
                }
            },
            (StringLengthDomain::Value(_), StringLengthDomain::Top(_)) => other.top(),
            (StringLengthDomain::Top(_), StringLengthDomain::Value(_)) => self.top(),
            (StringLengthDomain::Top(width), StringLengthDomain::Top(other_width)) => {
                if width.0 >= other_width.0 {
                    self.top()
                } else {
                    other.top()
                }
            },
        }
    }

    fn is_top(&self) -> (r: bool) {
        matches!(self, StringLengthDomain::Top(_))
    }

    fn duplicate(&self) -> (r: Self) {
        *self
    }
}

impl HasTop for StringLengthDomain {
    open spec fn top_spec(a: StringLength) -> StringLength {
        StringLength::Top { width: a.bytesize() }
    }

    /// The `Top` of the byte size of `self`.
    fn top(&self) -> (r: Self) {
        StringLengthDomain::Top(self.bytesize())
    }
}

impl HasByteSize for StringLengthDomain {
    open spec fn bytesize_spec(a: StringLength) -> nat {
        a.bytesize()
    }

    /// The width that a `Top` carries; for an interval its upper bound, the
    /// most storage that a string of such a length takes.
    fn bytesize(&self) -> (r: ByteSize) {
        match self {
            StringLengthDomain::Top(bytesize) => *bytesize,
            StringLengthDomain::Value(bounds) => bounds.1,
        }
    }
}

impl RegisterDomain for StringLengthDomain {
    fn new_top(bytesize: ByteSize) -> (r: Self)
        ensures
            r == StringLengthDomain::Top(bytesize),
    {
        StringLengthDomain::Top(bytesize)
    }

    /// No binary operator has a meaning on lengths that is tracked: the
    /// result is the `Top` of the width that the operator yields.
    fn bin_op(&self, op: BinOpType, rhs: &Self) -> (r: Self)
        ensures
            r@ == (StringLength::Top {
                width: op.result_width(self@.bytesize(), rhs@.bytesize()),
            }),
    {
        let width = match op {
            BinOpType::Piece => ByteSize(self.bytesize().0 + rhs.bytesize().0),
            _ => if op.is_flag() {
                ByteSize(1)
            } else {
                self.bytesize()
            },
        };
        StringLengthDomain::Top(width)
    }

    /// The `Top` of the operand's width.
    fn un_op(&self, op: UnOpType) -> (r: Self)
        ensures
            r@ == (StringLength::Top { width: self@.bytesize() }),
    {
        self.top()
    }

    /// The `Top` of `size` bytes.
    fn subpiece(&self, low_byte: ByteSize, size: ByteSize) -> (r: Self)
        ensures
            r == StringLengthDomain::Top(size),
    {
        StringLengthDomain::Top(size)
    }

    /// The `Top` of `width` bytes.
    fn cast(&self, kind: CastOpType, width: ByteSize) -> (r: Self)
        ensures
            r == StringLengthDomain::Top(width),
    {
        StringLengthDomain::Top(width)
    }
}

/// Joining with a `Top`, on either side, gives a `Top`: of the width of that
/// `Top` where the other operand is an interval, and of the larger of the
/// two widths where it is a `Top` too.
pub proof fn lemma_merge_with_top(a: StringLength, width: nat)
    ensures
        merge_lengths(a, StringLength::Top { width }) == (StringLength::Top {
            width: match a {
                StringLength::Top { width: other } => larger(other, width),
                StringLength::Value { .. } => width,
            },
        }),
        merge_lengths(StringLength::Top { width }, a) == merge_lengths(
            a,
            StringLength::Top { width },
        ),
{
}

/// Whether a string of the given length is one of those that the value
/// stands for: any length for a `Top`, a length within the bounds for an
/// interval.
pub open spec fn admits(value: StringLength, length: nat) -> bool {
    match value {
        StringLength::Top { .. } => true,
        StringLength::Value { lower, upper } => lower <= length <= upper,
    }
}

/// The join covers both operands: a length that either admits, the join
/// admits.
pub proof fn lemma_merge_covers(a: StringLength, b: StringLength, length: nat)
    requires
        admits(a, length) || admits(b, length),
    ensures
        admits(merge_lengths(a, b), length),
{
}

} // verus!

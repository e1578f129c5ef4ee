//! What the analysis reads of the intermediate representation of a program:
//! the places that an instruction reads and writes, and the kind of a
//! control transfer. Registers, blocks and nodes go by their identifiers.

use vstd::prelude::*;

verus! {

/// A place that can hold a string.
#[derive(Clone, Copy, Debug, PartialEq, Eq, Structural)]
pub enum Location {
    /// The register with the given identifier.
    Register(u64),
    /// The memory cell at an offset in bytes from the address in a register.
    Memory(u64, i64),
}

/// An expression, as far as its value or the address it denotes is tracked.
#[derive(Clone, Copy, Debug, PartialEq, Eq, Structural)]
pub enum Expression {
    /// The value of a register.
    Var(u64),
    /// The value of a register plus a constant.
    Offset(u64, i64),
    /// Any other expression.
    Other,
}

/// A straight-line instruction.
#[derive(Clone, Copy, Debug, PartialEq, Eq, Structural)]
pub enum Def {
    /// `var := value`.
    Assign { var: u64, value: Expression },
    /// `var := *address`.
    Load { var: u64, address: Expression },
    /// `*address := value`.
    Store { address: Expression, value: Expression },
}

/// A control transfer.
#[derive(Debug, PartialEq, Eq)]
pub enum Jmp {
    /// A jump to a block.
    Branch(u64),
    /// A jump to a block that is taken if the condition holds.
    CBranch { target: u64, condition: Expression },
    /// A call, of the function with the given identifier where it is known,
    /// with the places that the callee may write.
    Call { target: Option<u64>, written: Vec<Location> },
    /// A return to the caller.
    Return,
}

/// The control-flow graph of a program: the identifiers of its nodes and
/// the edges between them.
#[derive(Debug, PartialEq, Eq)]
pub struct Graph {
    pub nodes: Vec<u64>,
    pub edges: Vec<(u64, u64)>,
}

} // verus!

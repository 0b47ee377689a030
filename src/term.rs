//! The four operators of an expression.
use vstd::prelude::*;

verus! {

/// The operator that a term applies to the running result.
#[derive(Clone, Copy, Debug, PartialEq, Eq, Structural)]
pub enum OperationKind {
    Add,
    Subtract,
    Multiply,
    Divide,
}

/// Add and Subtract: the terms that start a product and feed the sum.
pub open spec fn additive(k: OperationKind) -> bool {
    k is Add || k is Subtract
}

/// The operator that the character `c` denotes, if any.
pub open spec fn operator_of(c: char) -> Option<OperationKind> {
    if c == '+' {
        Some(OperationKind::Add)
    } else if c == '-' {
        Some(OperationKind::Subtract)
    } else if c == '*' {
        Some(OperationKind::Multiply)
    } else if c == '/' {
        Some(OperationKind::Divide)
    } else {
        None
    }
}

impl OperationKind {
    /// Multiply and Divide bind tighter than Add and Subtract.
    pub fn is_multiply_or_divide(&self) -> (r: bool)
        ensures
            r == !additive(*self),
    {
        match self {
            OperationKind::Multiply => true,
            OperationKind::Divide => true,
            _ => false,
        }
    }

    /// The operator written as the character `c`.
    pub fn from_char(c: char) -> (r: Option<OperationKind>)
        ensures
            r == operator_of(c),
    {
        if c == '+' {
            Some(OperationKind::Add)
        } else if c == '-' {
            Some(OperationKind::Subtract)
        } else if c == '*' {
            Some(OperationKind::Multiply)
        } else if c == '/' {
            Some(OperationKind::Divide)
        } else {
            None
        }
    }
}

} // verus!

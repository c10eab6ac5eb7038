//! The operations of the calculator command.

use crate::text::str_eq;
use vstd::prelude::*;

verus! {

/// An arithmetic operation that the calculator command offers.
#[derive(Clone, Copy, Debug, PartialEq, Eq, Structural)]
pub enum MathOperation {
    Add,
    Subtract,
    Multiply,
    Divide,
}

impl MathOperation {
    /// The sign under which the operation is offered.
    pub open spec fn sign(self) -> Seq<char> {
        match self {
            MathOperation::Add => "+"@,
            MathOperation::Subtract => "-"@,
            MathOperation::Multiply => "*"@,
            MathOperation::Divide => "/"@,
        }
    }

    /// The sign under which the operation is offered.
    pub fn name(&self) -> (s: &'static str)
        ensures
            s@ == self.sign(),
    {
        match self {
            MathOperation::Add => "+",
            MathOperation::Subtract => "-",
            MathOperation::Multiply => "*",
            MathOperation::Divide => "/",
        }
    }

    /// The operation offered under `name`, if there is one.
    pub fn from_name(name: &str) -> (r: Option<MathOperation>)
        ensures
            match r {
                Some(op) => op.sign() == name@,
                None => forall|op: MathOperation| op.sign() != name@,
            },
    {
        if str_eq(name, "+") {
            Some(MathOperation::Add)
        } else if str_eq(name, "-") {
            Some(MathOperation::Subtract)
        } else if str_eq(name, "*") {
            Some(MathOperation::Multiply)
        } else if str_eq(name, "/") {
            Some(MathOperation::Divide)
        } else {
            None
        }
    }
}
} // verus!

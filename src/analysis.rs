//! Constant folding: the constant that a node denotes, given the constants
//! its children denote.
use vstd::prelude::*;
use crate::interp::cond_i64_spec;
use crate::lang::{Lang, Node};

verus! {

/// A known constant value.
#[derive(PartialEq, Eq, Debug, Clone, Copy, Structural)]
pub enum Constant {
    Bool(bool),
    Num(i32),
}

impl Constant {
    /// The boolean, if this is one.
    pub fn get_bool(self) -> (r: Option<bool>)
        ensures
            r == (match self {
                Constant::Bool(b) => Some(b),
                Constant::Num(_) => None,
            }),
    {
        match self {
            Constant::Bool(b) => Some(b),
            Constant::Num(_) => None,
        }
    }

    /// The number, if this is one.
    pub fn get_num(self) -> (r: Option<i32>)
        ensures
            r == (match self {
                Constant::Num(n) => Some(n),
                Constant::Bool(_) => None,
            }),
    {
        match self {
            Constant::Num(n) => Some(n),
            Constant::Bool(_) => None,
        }
    }
}

/// A 32-bit result, if the exact value fits.
pub open spec fn num_if_fits(v: int) -> Option<Constant> {
    if i32::MIN <= v <= i32::MAX {
        Some(Constant::Num(v as i32))
    } else {
        None
    }
}

pub open spec fn num_of(c: Option<Constant>) -> Option<i32> {
    match c {
        Some(Constant::Num(n)) => Some(n),
        _ => None,
    }
}

pub open spec fn bool_of(c: Option<Constant>) -> Option<bool> {
    match c {
        Some(Constant::Bool(b)) => Some(b),
        _ => None,
    }
}

/// The constant a node denotes when its children denote `data`, in order:
/// literals, and integer arithmetic, comparisons and boolean operators over
/// known constants. Integer results that leave 32 bits are not folded.
pub open spec fn fold_spec(n: Node, data: Seq<Option<Constant>>) -> Option<Constant> {
    match n {
        Node::I64(v) => num_if_fits(v as int),
        Node::I1(b) => Some(Constant::Bool(b)),
        Node::Add(..) | Node::Sub(..) | Node::Mul(..) => match (num_of(data[0]), num_of(data[1])) {
            (Some(a), Some(b)) => num_if_fits(
                match n {
                    Node::Add(..) => a + b,
                    Node::Sub(..) => a - b,
                    _ => a * b,
                },
            ),
            _ => None,
        },
        Node::ICmp(c, ..) => match (num_of(data[0]), num_of(data[1])) {
            (Some(a), Some(b)) => Some(Constant::Bool(cond_i64_spec(c, a as i64, b as i64))),
            _ => None,
        },
        Node::Not(..) => match bool_of(data[0]) {
            Some(b) => Some(Constant::Bool(!b)),
            None => None,
        },
        Node::And(..) | Node::Or(..) => match (bool_of(data[0]), bool_of(data[1])) {
            (Some(a), Some(b)) => Some(Constant::Bool(if n is And { a && b } else { a || b })),
            _ => None,
        },
        _ => None,
    }
}

/// Folds constants bottom-up over an expression.
pub struct ConstFold;

impl ConstFold {
    /// The constant that `enode` denotes, given what its children denote.
    pub fn make(enode: &Lang, data: &[Option<Constant>]) -> (r: Option<Constant>)
        requires
            data@.len() == enode@.children().len(),
        ensures
            r == fold_spec(enode@, data@),
    {
        match enode {
            Lang::I64(v) => {
                if i32::MIN as i64 <= *v && *v <= i32::MAX as i64 {
                    Some(Constant::Num(*v as i32))
                } else {
                    None
                }
            },
            Lang::I1(b) => Some(Constant::Bool(*b)),
            Lang::Add(_) | Lang::Sub(_) | Lang::Mul(_) => {
                let a = match data[0] {
                    Some(Constant::Num(a)) => a as i64,
                    _ => {
                        return None;
                    },
                };
                let b = match data[1] {
                    Some(Constant::Num(b)) => b as i64,
                    _ => {
                        return None;
                    },
                };
                assert(a * b <= 0x4000_0000_0000_0000 && a * b >= -0x4000_0000_0000_0000) by (nonlinear_arith)
                    requires
                        -0x8000_0000 <= a <= 0x7fff_ffff,
                        -0x8000_0000 <= b <= 0x7fff_ffff,
                ;
                let v: i64 = match enode {
                    Lang::Add(_) => a + b,
                    Lang::Sub(_) => a - b,
                    _ => a * b,
                };
                if i32::MIN as i64 <= v && v <= i32::MAX as i64 {
                    Some(Constant::Num(v as i32))
                } else {
                    None
                }
            },
            Lang::ICmp(c, _) => match (data[0], data[1]) {
                (Some(Constant::Num(a)), Some(Constant::Num(b))) => {
                    let (a, b) = (a as i64, b as i64);
                    Some(Constant::Bool(
                        match c {
                            crate::lang::Cond::Eq => a == b,
                            crate::lang::Cond::Neq => a != b,
                            crate::lang::Cond::Lt => a < b,
                            crate::lang::Cond::Leq => a <= b,
                            crate::lang::Cond::Gt => a > b,
                            crate::lang::Cond::Geq => a >= b,
                        },
                    ))
                },
                _ => None,
            },
            Lang::Not(_) => match data[0] {
                Some(Constant::Bool(b)) => Some(Constant::Bool(!b)),
                _ => None,
            },
            Lang::And(_) | Lang::Or(_) => match (data[0], data[1]) {
                (Some(Constant::Bool(a)), Some(Constant::Bool(b))) => Some(
                    Constant::Bool(
                        match enode {
                            Lang::And(_) => a && b,
                            _ => a || b,
                        },
                    ),
                ),
                _ => None,
            },
            _ => None,
        }
    }
}

} // verus!

//! The input program: a function of basic blocks, each a list of
//! instructions closed by one terminator.
use vstd::prelude::*;
use crate::lang::Cond;

verus! {

/// An instruction operand: a local value by name, or an integer constant.
#[derive(Clone, Debug, PartialEq, Eq, Hash)]
pub enum Operand {
    Constant(i64),
    Variable(String),
}

/// An instruction of the supported subset; anything else is `Unsupported`.
#[derive(Clone, Debug, PartialEq, Eq)]
pub enum Instruction {
    Alloca { dest: String },
    Load { dest: String, address: Operand },
    Store { address: Operand, value: Operand },
    ICmp { dest: String, predicate: Cond, operand0: Operand, operand1: Operand },
    Add { dest: String, operand0: Operand, operand1: Operand },
    Sub { dest: String, operand0: Operand, operand1: Operand },
    Mul { dest: String, operand0: Operand, operand1: Operand },
    Unsupported,
}

/// How a block ends.
#[derive(Clone, Debug, PartialEq, Eq)]
pub enum Terminator {
    Br { dest: String },
    CondBr { condition: Operand, true_dest: String, false_dest: String },
    Ret { return_operand: Option<Operand> },
    Unsupported,
}

/// A named block: instructions, then a terminator.
#[derive(Clone, Debug, PartialEq, Eq)]
pub struct BasicBlock {
    pub name: String,
    pub instrs: Vec<Instruction>,
    pub term: Terminator,
}

/// A function: its name, its parameters' names, and its blocks, the entry
/// block first.
#[derive(Clone, Debug, PartialEq, Eq)]
pub struct IrFunction {
    pub name: String,
    pub parameters: Vec<String>,
    pub basic_blocks: Vec<BasicBlock>,
}

} // verus!

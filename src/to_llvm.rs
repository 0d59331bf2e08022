//! Text of a small LLVM-style function: a sketch of code emission.
use vstd::prelude::*;
use vstd::string::*;
use crate::lang::Cond;
use crate::text::{int_text, push_int_text};

verus! {

pub type Id = String;

pub enum LLVMType {
    I64,
    I1,
    Void,
}

pub enum LLVMValue {
    I64(i64),
    Bool(bool),
    Id(Id),
}

pub enum LLVMInstr {
    Add((Id, LLVMType, LLVMValue, LLVMValue)),
    Mul((Id, LLVMType, LLVMValue, LLVMValue)),
    ICmp((Id, Cond, LLVMType, LLVMValue, LLVMValue)),
}

pub enum LLVMTerm {
    Ret((LLVMType, LLVMValue)),
    Br(Id),
    CBr((LLVMValue, Id, Id)),
}

pub struct LLVMBlock {
    pub instrs: Vec<LLVMInstr>,
    pub term: LLVMTerm,
}

pub struct LLVMFunction {
    pub name: String,
    pub params: Vec<(LLVMType, Id)>,
    pub ret_ty: LLVMType,
    pub entry: LLVMBlock,
    pub blocks: Vec<(Id, LLVMBlock)>,
}

pub open spec fn type_text(t: LLVMType) -> Seq<char> {
    match t {
        LLVMType::I64 => seq!['i', '6', '4'],
        LLVMType::I1 => seq!['i', '1'],
        LLVMType::Void => seq!['v', 'o', 'i', 'd'],
    }
}

pub open spec fn value_text(v: LLVMValue) -> Seq<char> {
    match v {
        LLVMValue::I64(i) => int_text(i as int),
        LLVMValue::Bool(b) => if b { seq!['t', 'r', 'u', 'e'] } else { seq!['f', 'a', 'l', 's', 'e'] },
        LLVMValue::Id(id) => seq!['%'] + id@,
    }
}

pub open spec fn pred_text(c: Cond) -> Seq<char> {
    match c {
        Cond::Eq => seq!['e', 'q'],
        Cond::Neq => seq!['n', 'e'],
        Cond::Lt => seq!['s', 'l', 't'],
        Cond::Leq => seq!['s', 'l', 'e'],
        Cond::Gt => seq!['s', 'g', 't'],
        Cond::Geq => seq!['s', 'g', 'e'],
    }
}

/// `<tab>%dst = op`, the start of an instruction that defines `dst`.
pub open spec fn def_text(dst: Seq<char>, op: Seq<char>) -> Seq<char> {
    seq!['\t', '%'] + dst + seq![' ', '=', ' '] + op + seq![' ']
}

/// `ty lhs, rhs`
pub open spec fn operands_text(ty: LLVMType, lhs: LLVMValue, rhs: LLVMValue) -> Seq<char> {
    type_text(ty) + seq![' '] + value_text(lhs) + seq![',', ' '] + value_text(rhs)
}

pub open spec fn instr_text(i: LLVMInstr) -> Seq<char> {
    match i {
        LLVMInstr::Add((dst, ty, lhs, rhs)) => def_text(dst@, seq!['a', 'd', 'd']) + operands_text(ty, lhs, rhs),
        LLVMInstr::Mul((dst, ty, lhs, rhs)) => def_text(dst@, seq!['m', 'u', 'l']) + operands_text(ty, lhs, rhs),
        LLVMInstr::ICmp((dst, cond, ty, lhs, rhs)) => def_text(dst@, seq!['i', 'c', 'm', 'p']) + pred_text(cond)
            + seq![' '] + operands_text(ty, lhs, rhs),
    }
}

pub open spec fn term_text(t: LLVMTerm) -> Seq<char> {
    match t {
        LLVMTerm::Ret((ty, v)) => seq!['\t', 'r', 'e', 't', ' '] + type_text(ty) + seq![' '] + value_text(v),
        LLVMTerm::Br(b) => seq!['\t', 'b', 'r', ' ', 'l', 'a', 'b', 'e', 'l', ' ', '%'] + b@,
        LLVMTerm::CBr((c, t, f)) => seq!['\t', 'b', 'r', ' ', 'i', '1', ' '] + value_text(c) + seq![
            ',', ' ', 'l', 'a', 'b', 'e', 'l', ' ', '%'] + t@ + seq![',', ' ', 'l', 'a', 'b', 'e', 'l', ' ', '%'] + f@,
    }
}

/// The first `k` instructions, one per line.
pub open spec fn instrs_text(instrs: Seq<LLVMInstr>, k: int) -> Seq<char>
    decreases k,
{
    if k <= 0 {
        seq![]
    } else {
        instrs_text(instrs, k - 1) + instr_text(instrs[k - 1]) + seq!['\n']
    }
}

pub open spec fn block_text(b: LLVMBlock) -> Seq<char> {
    instrs_text(b.instrs@, b.instrs@.len() as int) + term_text(b.term)
}

/// The first `k` parameters, separated by commas.
pub open spec fn params_text(params: Seq<(LLVMType, Id)>, k: int) -> Seq<char>
    decreases k,
{
    if k <= 0 {
        seq![]
    } else {
        params_text(params, k - 1) + (if k > 1 { seq![',', ' '] } else { seq![] }) + type_text(params[k - 1].0)
            + seq![' ', '%'] + params[k - 1].1@
    }
}

/// The first `k` labelled blocks after the entry.
pub open spec fn blocks_text(blocks: Seq<(Id, LLVMBlock)>, k: int) -> Seq<char>
    decreases k,
{
    if k <= 0 {
        seq![]
    } else {
        blocks_text(blocks, k - 1) + blocks[k - 1].0@ + seq![':', '\n'] + block_text(blocks[k - 1].1) + seq!['\n']
    }
}

pub open spec fn function_text(f: LLVMFunction) -> Seq<char> {
    seq!['d', 'e', 'f', 'i', 'n', 'e', ' '] + type_text(f.ret_ty) + seq![' ', '@'] + f.name@ + seq!['(']
        + params_text(f.params@, f.params@.len() as int) + seq![')', ' ', '{', '\n'] + block_text(f.entry)
        + seq!['\n'] + blocks_text(f.blocks@, f.blocks@.len() as int) + seq!['}', '\n']
}

/// Appends a text literal.
fn put(out: &mut String, s: &str)
    ensures
        final(out)@ == old(out)@ + s@,
{
    out.append(s);
}

impl LLVMType {
    pub fn write_to(&self, out: &mut String)
        ensures
            final(out)@ == old(out)@ + type_text(*self),
    {
        proof {
            reveal_strlit("i64");
            reveal_strlit("i1");
            reveal_strlit("void");
            assert("i64"@ =~= seq!['i', '6', '4']);
            assert("i1"@ =~= seq!['i', '1']);
            assert("void"@ =~= seq!['v', 'o', 'i', 'd']);
        }
        match self {
            LLVMType::I64 => put(out, "i64"),
            LLVMType::I1 => put(out, "i1"),
            LLVMType::Void => put(out, "void"),
        }
    }
}

impl LLVMValue {
    pub fn write_to(&self, out: &mut String)
        ensures
            final(out)@ == old(out)@ + value_text(*self),
    {
        proof {
            reveal_strlit("true");
            reveal_strlit("false");
            reveal_strlit("%");
            assert("true"@ =~= seq!['t', 'r', 'u', 'e']);
            assert("false"@ =~= seq!['f', 'a', 'l', 's', 'e']);
            assert("%"@ =~= seq!['%']);
        }
        match self {
            LLVMValue::I64(i) => push_int_text(out, *i),
            LLVMValue::Bool(b) => if *b {
                put(out, "true")
            } else {
                put(out, "false")
            },
            LLVMValue::Id(id) => {
                put(out, "%");
                put(out, id.as_str());
                assert(final(out)@ =~= old(out)@ + value_text(*self));
            },
        }
    }
}

fn write_def(out: &mut String, dst: &Id, op: &str)
    ensures
        final(out)@ == old(out)@ + def_text(dst@, op@),
{
    proof {
        reveal_strlit("\t%");
        reveal_strlit(" = ");
        reveal_strlit(" ");
        assert("\t%"@ =~= seq!['\t', '%']);
        assert(" = "@ =~= seq![' ', '=', ' ']);
        assert(" "@ =~= seq![' ']);
    }
    put(out, "\t%");
    put(out, dst.as_str());
    put(out, " = ");
    put(out, op);
    put(out, " ");
    assert(final(out)@ =~= old(out)@ + def_text(dst@, op@));
}

fn write_operands(out: &mut String, ty: &LLVMType, lhs: &LLVMValue, rhs: &LLVMValue)
    ensures
        final(out)@ == old(out)@ + operands_text(*ty, *lhs, *rhs),
{
    proof {
        reveal_strlit(" ");
        reveal_strlit(", ");
        assert(" "@ =~= seq![' ']);
        assert(", "@ =~= seq![',', ' ']);
    }
    ty.write_to(out);
    put(out, " ");
    lhs.write_to(out);
    put(out, ", ");
    rhs.write_to(out);
    assert(final(out)@ =~= old(out)@ + operands_text(*ty, *lhs, *rhs));
}

impl LLVMInstr {
    pub fn write_to(&self, out: &mut String)
        ensures
            final(out)@ == old(out)@ + instr_text(*self),
    {
        proof {
            reveal_strlit("add");
            reveal_strlit("mul");
            reveal_strlit("icmp");
            reveal_strlit(" ");
            reveal_strlit("eq");
            reveal_strlit("ne");
            reveal_strlit("slt");
            reveal_strlit("sle");
            reveal_strlit("sgt");
            reveal_strlit("sge");
            assert("add"@ =~= seq!['a', 'd', 'd']);
            assert("mul"@ =~= seq!['m', 'u', 'l']);
            assert("icmp"@ =~= seq!['i', 'c', 'm', 'p']);
            assert(" "@ =~= seq![' ']);
            assert("eq"@ =~= seq!['e', 'q']);
            assert("ne"@ =~= seq!['n', 'e']);
            assert("slt"@ =~= seq!['s', 'l', 't']);
            assert("sle"@ =~= seq!['s', 'l', 'e']);
            assert("sgt"@ =~= seq!['s', 'g', 't']);
            assert("sge"@ =~= seq!['s', 'g', 'e']);
        }
        match self {
            LLVMInstr::Add((dst, ty, lhs, rhs)) => {
                write_def(out, dst, "add");
                write_operands(out, ty, lhs, rhs);
                assert(final(out)@ =~= old(out)@ + instr_text(*self));
            },
            LLVMInstr::Mul((dst, ty, lhs, rhs)) => {
                write_def(out, dst, "mul");
                write_operands(out, ty, lhs, rhs);
                assert(final(out)@ =~= old(out)@ + instr_text(*self));
            },
            LLVMInstr::ICmp((dst, cond, ty, lhs, rhs)) => {
                write_def(out, dst, "icmp");
                let pred: &str = match cond {
                    Cond::Eq => "eq",
                    Cond::Neq => "ne",
                    Cond::Lt => "slt",
                    Cond::Leq => "sle",
                    Cond::Gt => "sgt",
                    Cond::Geq => "sge",
                };
                put(out, pred);
                put(out, " ");
                write_operands(out, ty, lhs, rhs);
                assert(final(out)@ =~= old(out)@ + instr_text(*self));
            },
        }
    }
}

impl LLVMTerm {
    pub fn write_to(&self, out: &mut String)
        ensures
            final(out)@ == old(out)@ + term_text(*self),
    {
        proof {
            reveal_strlit("\tret ");
            reveal_strlit(" ");
            reveal_strlit("\tbr label %");
            reveal_strlit("\tbr i1 ");
            reveal_strlit(", label %");
            assert("\tret "@ =~= seq!['\t', 'r', 'e', 't', ' ']);
            assert(" "@ =~= seq![' ']);
            assert("\tbr label %"@ =~= seq!['\t', 'b', 'r', ' ', 'l', 'a', 'b', 'e', 'l', ' ', '%']);
            assert("\tbr i1 "@ =~= seq!['\t', 'b', 'r', ' ', 'i', '1', ' ']);
            assert(", label %"@ =~= seq![',', ' ', 'l', 'a', 'b', 'e', 'l', ' ', '%']);
        }
        match self {
            LLVMTerm::Ret((ty, v)) => {
                put(out, "\tret ");
                ty.write_to(out);
                put(out, " ");
                v.write_to(out);
            },
            LLVMTerm::Br(b) => {
                put(out, "\tbr label %");
                put(out, b.as_str());
            },
            LLVMTerm::CBr((c, t, f)) => {
                put(out, "\tbr i1 ");
                c.write_to(out);
                put(out, ", label %");
                put(out, t.as_str());
                put(out, ", label %");
                put(out, f.as_str());
            },
        }
        assert(final(out)@ =~= old(out)@ + term_text(*self));
    }
}

impl LLVMBlock {
    pub fn write_to(&self, out: &mut String)
        ensures
            final(out)@ == old(out)@ + block_text(*self),
    {
        proof {
            reveal_strlit("\n");
            assert("\n"@ =~= seq!['\n']);
        }
        let ghost start = out@;
        let mut k: usize = 0;
        while k < self.instrs.len()
            invariant
                k <= self.instrs@.len(),
                out@ == start + instrs_text(self.instrs@, k as int),
                "\n"@ == seq!['\n'],
            decreases self.instrs@.len() - k,
        {
            self.instrs[k].write_to(out);
            put(out, "\n");
            k = k + 1;
            assert(out@ =~= start + instrs_text(self.instrs@, k as int));
        }
        self.term.write_to(out);
        assert(out@ =~= start + block_text(*self));
    }
}

impl LLVMFunction {
    pub fn write_to(&self, out: &mut String)
        ensures
            final(out)@ == old(out)@ + function_text(*self),
    {
        proof {
            reveal_strlit("define ");
            reveal_strlit(" @");
            reveal_strlit("(");
            reveal_strlit(", ");
            reveal_strlit(" %");
            reveal_strlit(") {\n");
            reveal_strlit("\n");
            reveal_strlit(":\n");
            reveal_strlit("}\n");
            assert("define "@ =~= seq!['d', 'e', 'f', 'i', 'n', 'e', ' ']);
            assert(" @"@ =~= seq![' ', '@']);
            assert("("@ =~= seq!['(']);
            assert(", "@ =~= seq![',', ' ']);
            assert(" %"@ =~= seq![' ', '%']);
            assert(") {\n"@ =~= seq![')', ' ', '{', '\n']);
            assert("\n"@ =~= seq!['\n']);
            assert(":\n"@ =~= seq![':', '\n']);
            assert("}\n"@ =~= seq!['}', '\n']);
        }
        let ghost start = out@;
        put(out, "define ");
        self.ret_ty.write_to(out);
        put(out, " @");
        put(out, self.name.as_str());
        put(out, "(");
        let ghost head = out@;
        let mut k: usize = 0;
        while k < self.params.len()
            invariant
                k <= self.params@.len(),
                out@ == head + params_text(self.params@, k as int),
                ", "@ == seq![',', ' '],
                " %"@ == seq![' ', '%'],
            decreases self.params@.len() - k,
        {
            if k > 0 {
                put(out, ", ");
            }
            self.params[k].0.write_to(out);
            put(out, " %");
            put(out, self.params[k].1.as_str());
            k = k + 1;
            assert(out@ =~= head + params_text(self.params@, k as int));
        }
        put(out, ") {\n");
        self.entry.write_to(out);
        put(out, "\n");
        let ghost mid = out@;
        let mut k: usize = 0;
        while k < self.blocks.len()
            invariant
                k <= self.blocks@.len(),
                out@ == mid + blocks_text(self.blocks@, k as int),
                "\n"@ == seq!['\n'],
                ":\n"@ == seq![':', '\n'],
            decreases self.blocks@.len() - k,
        {
            put(out, self.blocks[k].0.as_str());
            put(out, ":\n");
            self.blocks[k].1.write_to(out);
            put(out, "\n");
            k = k + 1;
            assert(out@ =~= mid + blocks_text(self.blocks@, k as int));
        }
        put(out, "}\n");
        assert(out@ =~= start + function_text(*self));
    }

    /// The text of the function.
    pub fn to_text(&self) -> (r: String)
        ensures
            r@ == function_text(*self),
    {
        let mut out = String::new();
        self.write_to(&mut out);
        assert(out@ =~= function_text(*self));
        out
    }
}

} // verus!

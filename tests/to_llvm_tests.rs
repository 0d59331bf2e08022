use lang::to_llvm::{LLVMBlock, LLVMFunction, LLVMInstr, LLVMTerm, LLVMType, LLVMValue};
use lang::lang::Cond;

#[test]
fn simple_function() {
    let f = LLVMFunction {
        name: "add".into(),
        params: vec![(LLVMType::I64, "a".into()), (LLVMType::I64, "b".into())],
        ret_ty: LLVMType::I64,
        entry: LLVMBlock {
            instrs: vec![LLVMInstr::Add(("res".into(), LLVMType::I64, LLVMValue::Id("a".into()), LLVMValue::Id("b".into())))],
            term: LLVMTerm::Ret((LLVMType::I64, LLVMValue::Id("res".into()))),
        },
        blocks: vec![],
    };

    println!("{}", f.to_text());
}

#[test]
fn function_text_is_exact() {
    let f = LLVMFunction {
        name: "pick".into(),
        params: vec![(LLVMType::I64, "a".into()), (LLVMType::I1, "c".into())],
        ret_ty: LLVMType::I64,
        entry: LLVMBlock {
            instrs: vec![
                LLVMInstr::Mul(("m".into(), LLVMType::I64, LLVMValue::Id("a".into()), LLVMValue::I64(-3))),
                LLVMInstr::ICmp(("t".into(), Cond::Geq, LLVMType::I64, LLVMValue::Id("m".into()), LLVMValue::I64(0))),
            ],
            term: LLVMTerm::CBr((LLVMValue::Id("t".into()), "yes".into(), "no".into())),
        },
        blocks: vec![
            ("yes".into(), LLVMBlock { instrs: vec![], term: LLVMTerm::Ret((LLVMType::I1, LLVMValue::Bool(true))) }),
            ("no".into(), LLVMBlock { instrs: vec![], term: LLVMTerm::Br("yes".into()) }),
        ],
    };
    let expected = "define i64 @pick(i64 %a, i1 %c) {\n\t%m = mul i64 %a, -3\n\t%t = icmp sge i64 %m, 0\n\tbr i1 %t, label %yes, label %no\nyes:\n\tret i1 true\nno:\n\tbr label %yes\n}\n";
    assert_eq!(f.to_text(), expected);
}

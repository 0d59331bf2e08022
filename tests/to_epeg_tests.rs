use lang::cfg::CfgError;
use lang::interp::{Env, Expr, Store, Value};
use lang::ir::{BasicBlock, Instruction, IrFunction, Operand, Terminator};
use lang::lang::{Cond, Lang};
use lang::to_epeg::{parse_function, TranslateError};

fn var(s: &str) -> Operand {
    Operand::Variable(s.to_string())
}

fn block(name: &str, instrs: Vec<Instruction>, term: Terminator) -> BasicBlock {
    BasicBlock { name: name.to_string(), instrs, term }
}

fn ret(op: Operand) -> Terminator {
    Terminator::Ret { return_operand: Some(op) }
}

fn run(f: &IrFunction, args: &[(&str, i64)]) -> Value {
    let t = parse_function(f).unwrap();
    let mut env = Env::new();
    for (name, v) in args {
        env.set(name.to_string(), Value::I64(*v));
    }
    Expr::with_root(&t.body, t.root).interp(&env, &mut Store::new()).unwrap()
}

fn add_function() -> IrFunction {
    IrFunction {
        name: "add".to_string(),
        parameters: vec!["a".to_string(), "b".to_string()],
        basic_blocks: vec![block(
            "entry",
            vec![Instruction::Add { dest: "res".to_string(), operand0: var("a"), operand1: var("b") }],
            ret(var("res")),
        )],
    }
}

/// `if (a < b) return a + b; else return a - b;`, with the result passed
/// through a stack slot into one returning block.
fn branch_function() -> IrFunction {
    IrFunction {
        name: "if_expr".to_string(),
        parameters: vec!["a".to_string(), "b".to_string(), "c".to_string()],
        basic_blocks: vec![
            block(
                "entry",
                vec![
                    Instruction::Alloca { dest: "slot".to_string() },
                    Instruction::ICmp {
                        dest: "lt".to_string(),
                        predicate: Cond::Lt,
                        operand0: var("a"),
                        operand1: var("b"),
                    },
                ],
                Terminator::CondBr { condition: var("lt"), true_dest: "then".to_string(), false_dest: "else".to_string() },
            ),
            block(
                "then",
                vec![
                    Instruction::Add { dest: "s".to_string(), operand0: var("a"), operand1: var("b") },
                    Instruction::Store { address: var("slot"), value: var("s") },
                ],
                Terminator::Br { dest: "end".to_string() },
            ),
            block(
                "else",
                vec![
                    Instruction::Sub { dest: "d".to_string(), operand0: var("a"), operand1: var("b") },
                    Instruction::Store { address: var("slot"), value: var("d") },
                ],
                Terminator::Br { dest: "end".to_string() },
            ),
            block(
                "end",
                vec![Instruction::Load { dest: "r".to_string(), address: var("slot") }],
                ret(var("r")),
            ),
        ],
    }
}

#[test]
fn add_translation_interprets_to_sum() {
    assert_eq!(run(&add_function(), &[("a", 3), ("b", 4)]), Value::I64(7));
}

#[test]
fn branch_translation_takes_each_side() {
    let f = branch_function();
    assert_eq!(run(&f, &[("a", 3), ("b", 4), ("c", 1)]), Value::I64(7));
    assert_eq!(run(&f, &[("a", 4), ("b", 3), ("c", 1)]), Value::I64(1));
}

#[test]
fn parameters_come_first() {
    let t = parse_function(&branch_function()).unwrap();
    assert_eq!(t.params, vec!["a".to_string(), "b".to_string(), "c".to_string()]);
    assert_eq!(t.body[0], Lang::Var("a".to_string()));
    assert_eq!(t.body[2], Lang::Var("c".to_string()));
    assert!(t.root < t.body.len());
}

#[test]
fn constants_are_interned_once() {
    let f = IrFunction {
        name: "k".to_string(),
        parameters: vec!["a".to_string()],
        basic_blocks: vec![block(
            "entry",
            vec![
                Instruction::Mul { dest: "x".to_string(), operand0: var("a"), operand1: Operand::Constant(5) },
                Instruction::Add { dest: "y".to_string(), operand0: var("x"), operand1: Operand::Constant(5) },
            ],
            ret(var("y")),
        )],
    };
    let t = parse_function(&f).unwrap();
    assert_eq!(t.body.iter().filter(|n| **n == Lang::I64(5)).count(), 1);
    assert_eq!(run(&f, &[("a", 2)]), Value::I64(15));
}

#[test]
fn use_before_definition_fails() {
    let f = IrFunction {
        name: "bad".to_string(),
        parameters: vec![],
        basic_blocks: vec![block(
            "entry",
            vec![Instruction::Add { dest: "x".to_string(), operand0: var("q"), operand1: Operand::Constant(1) }],
            ret(var("x")),
        )],
    };
    assert_eq!(parse_function(&f).err(), Some(TranslateError::UnknownVariable("q".to_string())));
}

#[test]
fn unknown_branch_target_fails() {
    let f = IrFunction {
        name: "bad".to_string(),
        parameters: vec![],
        basic_blocks: vec![block("entry", vec![], Terminator::Br { dest: "nowhere".to_string() })],
    };
    assert_eq!(
        parse_function(&f).err(),
        Some(TranslateError::Cfg(CfgError::UnknownTarget { block: 0 }))
    );
}

#[test]
fn load_without_store_on_every_path_fails() {
    let mut f = branch_function();
    // the slot is created only on one side
    f.basic_blocks[0].instrs.remove(0);
    f.basic_blocks[1].instrs.insert(0, Instruction::Alloca { dest: "slot".to_string() });
    f.basic_blocks[2].instrs.clear();
    f.basic_blocks[2].instrs.push(Instruction::Sub { dest: "d".to_string(), operand0: var("a"), operand1: var("b") });
    let r = parse_function(&f);
    assert!(matches!(r.err(), Some(TranslateError::UnknownVariable(_)) | Some(TranslateError::WitnessNotFound { .. })));
}

#[test]
fn void_return_and_cycles_fail() {
    let f = IrFunction {
        name: "v".to_string(),
        parameters: vec![],
        basic_blocks: vec![block("entry", vec![], Terminator::Ret { return_operand: None })],
    };
    assert_eq!(parse_function(&f).err(), Some(TranslateError::VoidReturn { block: 0 }));
    let g = IrFunction {
        name: "spin".to_string(),
        parameters: vec![],
        basic_blocks: vec![
            block("entry", vec![], Terminator::Br { dest: "loop".to_string() }),
            block("loop", vec![], Terminator::Br { dest: "loop".to_string() }),
        ],
    };
    assert_eq!(parse_function(&g).err(), Some(TranslateError::CyclicGraph));
    let h = IrFunction {
        name: "u".to_string(),
        parameters: vec![],
        basic_blocks: vec![block("entry", vec![Instruction::Unsupported], ret(Operand::Constant(0)))],
    };
    assert_eq!(parse_function(&h).err(), Some(TranslateError::UnsupportedInstruction { block: 0 }));
}

/// `add(a, b)` as an unoptimized compiler emits it: parameters spilled to
/// stack slots and reloaded.
#[test]
fn add_conversion() {
    let num = |s: &str| s.to_string();
    let f = IrFunction {
        name: "add".to_string(),
        parameters: vec![num("0"), num("1")],
        basic_blocks: vec![block(
            "2",
            vec![
                Instruction::Alloca { dest: num("3") },
                Instruction::Alloca { dest: num("4") },
                Instruction::Store { address: var("3"), value: var("0") },
                Instruction::Store { address: var("4"), value: var("1") },
                Instruction::Load { dest: num("5"), address: var("3") },
                Instruction::Load { dest: num("6"), address: var("4") },
                Instruction::Add { dest: num("7"), operand0: var("5"), operand1: var("6") },
            ],
            ret(var("7")),
        )],
    };
    assert_eq!(run(&f, &[("0", 3), ("1", 4)]), Value::I64(7));
}

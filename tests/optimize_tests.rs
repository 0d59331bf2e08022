//! The whole pipeline: translate, saturate with the rewrite catalog,
//! extract by the cost model, and compare evaluations.
use egg::{CostFunction, FromOp, Id, Language, Pattern, RecExpr, Rewrite};
use lang::cost_fn::NoAlloc;
use lang::lang::{from_op, Lang};
use lang::rules::rw_rules;
use std::fmt;
use lang::interp::{Env, Expr, Store, Value};
use lang::ir::{BasicBlock, Instruction, IrFunction, Operand, Terminator};
use lang::lang::Cond;
use lang::to_epeg::parse_function;
use egg::{Extractor, Runner};

/// A node kind (its own children set to zero) with its children as e-class ids.
#[derive(Debug, Clone, PartialEq, Eq, PartialOrd, Ord, Hash)]
struct Node {
    op: Lang,
    children: Vec<Id>,
}

/// The same kind over the given children.
fn with_children(op: &Lang, ch: &[usize]) -> Lang {
    match op {
        Lang::Add(_) => Lang::Add([ch[0], ch[1]]),
        Lang::Sub(_) => Lang::Sub([ch[0], ch[1]]),
        Lang::Mul(_) => Lang::Mul([ch[0], ch[1]]),
        Lang::BAnd(_) => Lang::BAnd([ch[0], ch[1]]),
        Lang::BOr(_) => Lang::BOr([ch[0], ch[1]]),
        Lang::BNot(_) => Lang::BNot(ch[0]),
        Lang::And(_) => Lang::And([ch[0], ch[1]]),
        Lang::Or(_) => Lang::Or([ch[0], ch[1]]),
        Lang::Not(_) => Lang::Not(ch[0]),
        Lang::ICmp(c, _) => Lang::ICmp(*c, [ch[0], ch[1]]),
        Lang::Phi(_) => Lang::Phi([ch[0], ch[1], ch[2]]),
        Lang::Ptr(_) => Lang::Ptr(ch[0]),
        Lang::Load(_) => Lang::Load([ch[0], ch[1]]),
        Lang::Store(_) => Lang::Store([ch[0], ch[1], ch[2]]),
        leaf => leaf.clone(),
    }
}

impl From<&Lang> for Node {
    fn from(l: &Lang) -> Self {
        let children = l.children();
        Node {
            op: with_children(l, &vec![0; children.len()]),
            children: children.into_iter().map(Id::from).collect(),
        }
    }
}

impl Language for Node {
    fn matches(&self, other: &Self) -> bool {
        self.op.matches(&other.op)
    }

    fn children(&self) -> &[Id] {
        &self.children
    }

    fn children_mut(&mut self) -> &mut [Id] {
        &mut self.children
    }
}

impl fmt::Display for Node {
    fn fmt(&self, f: &mut fmt::Formatter<'_>) -> fmt::Result {
        f.write_str(&self.op.op_text())
    }
}

impl FromOp for Node {
    type Error = String;

    fn from_op(op: &str, children: Vec<Id>) -> Result<Self, Self::Error> {
        // the patterns name no allocation site, so no counter is kept
        let mut ctr: u64 = 0;
        let op = from_op(op, &vec![0; children.len()], &mut ctr).map_err(|e| format!("{:?}: {}", e, op))?;
        Ok(Node { op, children })
    }
}

/// The expression under `root` as an e-graph expression whose last node is
/// the root; nodes after the root cannot be under it.
fn to_rec_expr(body: &[Lang], root: usize) -> RecExpr<Node> {
    let mut expr = RecExpr::default();
    for node in &body[..=root] {
        expr.add(Node::from(node));
    }
    expr
}

/// An extracted expression as a buffer.
fn from_rec_expr(expr: &RecExpr<Node>) -> Vec<Lang> {
    expr.as_ref()
        .iter()
        .map(|n| with_children(&n.op, &n.children.iter().map(|&i| usize::from(i)).collect::<Vec<_>>()))
        .collect()
}

/// The catalog as e-graph rewrites; a bidirectional rule gives two.
fn rewrites() -> Vec<Rewrite<Node, ()>> {
    let mut out = Vec::new();
    for rule in rw_rules() {
        let lhs: Pattern<Node> = rule.lhs.parse().unwrap();
        let rhs: Pattern<Node> = rule.rhs.parse().unwrap();
        if rule.bidirectional {
            out.push(Rewrite::new(format!("{}-rev", rule.name), rhs.clone(), lhs.clone()).unwrap());
        }
        out.push(Rewrite::new(rule.name, lhs, rhs).unwrap());
    }
    out
}

/// The library's cost model, in the units extraction compares.
struct NoAllocCost(NoAlloc);

impl NoAllocCost {
    fn new() -> Self {
        NoAllocCost(NoAlloc)
    }
}

impl CostFunction<Node> for NoAllocCost {
    type Cost = f64;

    fn cost<C>(&mut self, enode: &Node, mut costs: C) -> f64
    where
        C: FnMut(Id) -> f64,
    {
        let child: Vec<u64> = enode.children.iter().map(|&i| (costs(i) * 100.0).round() as u64).collect();
        let op = with_children(&enode.op, &vec![0; child.len()]);
        self.0.cost(&op, &child) as f64 / 100.0
    }
}

fn var(s: &str) -> Operand {
    Operand::Variable(s.to_string())
}

fn block(name: &str, instrs: Vec<Instruction>, term: Terminator) -> BasicBlock {
    BasicBlock { name: name.to_string(), instrs, term }
}

fn ret(op: Operand) -> Terminator {
    Terminator::Ret { return_operand: Some(op) }
}

fn add_function() -> IrFunction {
    IrFunction {
        name: "add".to_string(),
        parameters: vec!["a".to_string(), "b".to_string()],
        basic_blocks: vec![block(
            "entry",
            vec![Instruction::Add { dest: "res".to_string(), operand0: var("a"), operand1: var("b") }],
            ret(var("res")),
        )],
    }
}

/// `if (a < b) return a + b; else return a - b;`, with the result passed
/// through a stack slot into one returning block.
fn branch_function() -> IrFunction {
    IrFunction {
        name: "if_expr".to_string(),
        parameters: vec!["a".to_string(), "b".to_string(), "c".to_string()],
        basic_blocks: vec![
            block(
                "entry",
                vec![
                    Instruction::Alloca { dest: "slot".to_string() },
                    Instruction::ICmp {
                        dest: "lt".to_string(),
                        predicate: Cond::Lt,
                        operand0: var("a"),
                        operand1: var("b"),
                    },
                ],
                Terminator::CondBr { condition: var("lt"), true_dest: "then".to_string(), false_dest: "else".to_string() },
            ),
            block(
                "then",
                vec![
                    Instruction::Add { dest: "s".to_string(), operand0: var("a"), operand1: var("b") },
                    Instruction::Store { address: var("slot"), value: var("s") },
                ],
                Terminator::Br { dest: "end".to_string() },
            ),
            block(
                "else",
                vec![
                    Instruction::Sub { dest: "d".to_string(), operand0: var("a"), operand1: var("b") },
                    Instruction::Store { address: var("slot"), value: var("d") },
                ],
                Terminator::Br { dest: "end".to_string() },
            ),
            block(
                "end",
                vec![Instruction::Load { dest: "r".to_string(), address: var("slot") }],
                ret(var("r")),
            ),
        ],
    }
}


fn eval(nodes: &[Lang], root: usize, args: &[(&str, i64)]) -> Value {
    let mut env = Env::new();
    for (name, v) in args {
        env.set(name.to_string(), Value::I64(*v));
    }
    Expr::with_root(nodes, root).interp(&env, &mut Store::new()).unwrap()
}

/// Translates, optimizes, and evaluates before and after under each
/// binding of the arguments.
fn before_and_after(f: &IrFunction, cases: &[&[(&str, i64)]]) -> Vec<(Value, Value)> {
    let t = parse_function(f).unwrap();
    let expr = to_rec_expr(&t.body, t.root);
    let runner = Runner::default()
        .with_node_limit(20000)
        .with_iter_limit(15)
        .with_time_limit(std::time::Duration::from_secs(5))
        .with_expr(&expr)
        .run(&rewrites());
    let extractor = Extractor::new(&runner.egraph, NoAllocCost::new());
    let (_, best) = extractor.find_best(runner.roots[0]);
    let best_nodes = from_rec_expr(&best);
    cases
        .iter()
        .map(|args| (eval(&t.body, t.root, args), eval(&best_nodes, best_nodes.len() - 1, args)))
        .collect()
}

#[test]
fn add_scenario_before_and_after_optimization() {
    let r = before_and_after(&add_function(), &[&[("a", 3), ("b", 4)]]);
    assert_eq!(r, vec![(Value::I64(7), Value::I64(7))]);
}

#[test]
fn branch_scenario_before_and_after_optimization() {
    let r = before_and_after(
        &branch_function(),
        &[&[("a", 3), ("b", 4), ("c", 1)], &[("a", 4), ("b", 3), ("c", 1)]],
    );
    assert_eq!(r, vec![(Value::I64(7), Value::I64(7)), (Value::I64(1), Value::I64(1))]);
}

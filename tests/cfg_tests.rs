use lang::cfg::{topo_order, Cfg, CfgError};
use lang::ir::{BasicBlock, Operand, Terminator};

fn block(name: &str, term: Terminator) -> BasicBlock {
    BasicBlock { name: name.to_string(), instrs: vec![], term }
}

fn br(d: &str) -> Terminator {
    Terminator::Br { dest: d.to_string() }
}

fn cbr(t: &str, f: &str) -> Terminator {
    Terminator::CondBr { condition: Operand::Variable("c".to_string()), true_dest: t.to_string(), false_dest: f.to_string() }
}

fn ret() -> Terminator {
    Terminator::Ret { return_operand: Some(Operand::Constant(0)) }
}

fn diamond() -> Vec<BasicBlock> {
    vec![
        block("entry", cbr("left", "right")),
        block("right", br("join")),
        block("left", br("join")),
        block("join", ret()),
    ]
}

fn position(order: &[usize], x: usize) -> usize {
    order.iter().position(|&y| y == x).unwrap()
}

#[test]
fn diamond_order_puts_producers_first() {
    let cfg = Cfg::new(&diamond()).unwrap();
    let order = cfg.topo_order();
    assert_eq!(order.len(), 4);
    let mut seen = order.clone();
    seen.sort();
    assert_eq!(seen, vec![0, 1, 2, 3]);
    assert!(position(&order, 0) < position(&order, 1));
    assert!(position(&order, 0) < position(&order, 2));
    assert!(position(&order, 1) < position(&order, 3));
    assert!(position(&order, 2) < position(&order, 3));
}

#[test]
fn successors_and_predecessors() {
    let cfg = Cfg::new(&diamond()).unwrap();
    assert_eq!(cfg.succs(&"entry".to_string()), Some(&[2usize, 1][..]));
    assert_eq!(cfg.preds(&"join".to_string()), Some(&[1usize, 2][..]));
    assert_eq!(cfg.preds(&"entry".to_string()), Some(&[][..]));
    assert_eq!(cfg.succs(&"nowhere".to_string()), None);
    assert_eq!(cfg.id_of(&"left".to_string()), Some(2));
    assert_eq!(cfg.ret_blocks(), &[3]);
}

#[test]
fn branch_to_one_block_twice_counts_two_edges() {
    let cfg = Cfg::new(&[block("a", cbr("b", "b")), block("b", ret())]).unwrap();
    assert_eq!(cfg.preds_of(1), &[0, 0]);
    assert_eq!(cfg.topo_order(), vec![0, 1]);
}

#[test]
fn construction_errors_name_the_first_bad_block() {
    let blocks = vec![block("a", br("b")), block("b", br("zzz")), block("c", Terminator::Unsupported)];
    assert!(matches!(Cfg::new(&blocks), Err(CfgError::UnknownTarget { block: 1 })));
    let blocks = vec![block("a", Terminator::Unsupported), block("b", br("zzz"))];
    assert!(matches!(Cfg::new(&blocks), Err(CfgError::UnsupportedTerminator { block: 0 })));
}

#[test]
fn kahn_order_on_plain_graphs() {
    // 0 -> 2, 1 -> 2, 2 -> 3
    let g = vec![vec![2], vec![2], vec![3], vec![]];
    assert_eq!(topo_order(&g), vec![0, 1, 2, 3]);
    // a cycle leaves its members out
    let g = vec![vec![1], vec![2], vec![1]];
    assert_eq!(topo_order(&g), vec![0]);
    let empty: Vec<Vec<usize>> = vec![];
    assert_eq!(topo_order(&empty), Vec::<usize>::new());
}

#[test]
fn kahn_order_is_first_in_first_out() {
    // entry 0 branches to 1 and 2, which join at 3
    let g = vec![vec![1, 2], vec![3], vec![3], vec![]];
    assert_eq!(topo_order(&g), vec![0, 1, 2, 3]);
    // both sources first, in index order
    let g = vec![vec![2], vec![], vec![1]];
    assert_eq!(topo_order(&g), vec![0, 2, 1]);
    let g = vec![vec![], vec![0], vec![]];
    assert_eq!(topo_order(&g), vec![1, 2, 0]);
}

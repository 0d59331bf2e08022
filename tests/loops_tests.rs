use lang::cfg::Cfg;
use lang::ir::{BasicBlock, Operand, Terminator};
use lang::loops::{find_loop_nodes, find_loops, Dominance, LoopError};

fn block(name: &str, term: Terminator) -> BasicBlock {
    BasicBlock { name: name.to_string(), instrs: vec![], term }
}

fn br(d: &str) -> Terminator {
    Terminator::Br { dest: d.to_string() }
}

fn cbr(t: &str, f: &str) -> Terminator {
    Terminator::CondBr { condition: Operand::Variable("c".to_string()), true_dest: t.to_string(), false_dest: f.to_string() }
}

fn ret() -> Terminator {
    Terminator::Ret { return_operand: Some(Operand::Constant(0)) }
}

/// `dom[a][b]` from, for each block, the blocks it dominates.
fn dominance(n: usize, dominated: &[&[usize]]) -> Dominance {
    let mut dom = vec![vec![false; n]; n];
    for (a, bs) in dominated.iter().enumerate() {
        for &b in bs.iter() {
            dom[a][b] = true;
        }
    }
    Dominance::new(dom)
}

fn sorted(mut v: Vec<usize>) -> Vec<usize> {
    v.sort();
    v
}

#[test]
fn self_loop_is_one_loop_of_its_header() {
    let blocks = vec![block("entry", br("head")), block("head", cbr("head", "exit")), block("exit", ret())];
    let cfg = Cfg::new(&blocks).unwrap();
    let dom = dominance(3, &[&[0, 1, 2], &[1, 2], &[2]]);
    let loops = find_loops(&cfg, &dom).unwrap();
    assert_eq!(loops.len(), 1);
    assert_eq!(loops[0].header, 1);
    assert_eq!(loops[0].back_node, 1);
    assert_eq!(loops[0].exit_node, 1);
    assert_eq!(loops[0].parts, vec![1]);
}

#[test]
fn nested_loops_have_nested_bodies() {
    // 0 -> 1; 1 -> 2 | 5; 2 -> 3 | 4; 3 -> 2; 4 -> 1; 5 returns
    let blocks = vec![
        block("entry", br("h1")),
        block("h1", cbr("h2", "out")),
        block("h2", cbr("b2", "b1")),
        block("b2", br("h2")),
        block("b1", br("h1")),
        block("out", ret()),
    ];
    let cfg = Cfg::new(&blocks).unwrap();
    let dom = dominance(6, &[&[0, 1, 2, 3, 4, 5], &[1, 2, 3, 4, 5], &[2, 3, 4], &[3], &[4], &[5]]);
    let loops = find_loops(&cfg, &dom).unwrap();
    assert_eq!(loops.len(), 2);
    let (outer, inner) = (&loops[0], &loops[1]);
    assert_eq!((outer.header, outer.back_node, outer.exit_node), (1, 4, 1));
    assert_eq!(sorted(outer.parts.clone()), vec![1, 2, 3, 4]);
    assert_eq!((inner.header, inner.back_node, inner.exit_node), (2, 3, 2));
    assert_eq!(sorted(inner.parts.clone()), vec![2, 3]);
    assert!(inner.parts.iter().all(|p| outer.parts.contains(p)));
    assert!(inner.parts.len() < outer.parts.len());
}

#[test]
fn loop_body_walks_back_from_the_back_edge() {
    let blocks = vec![
        block("entry", br("h")),
        block("h", cbr("a", "out")),
        block("a", br("b")),
        block("b", br("h")),
        block("out", ret()),
    ];
    let cfg = Cfg::new(&blocks).unwrap();
    let dom = dominance(5, &[&[0, 1, 2, 3, 4], &[1, 2, 3, 4], &[2, 3], &[3], &[4]]);
    assert_eq!(sorted(find_loop_nodes(&cfg, &dom, 1, 3)), vec![1, 2, 3]);
}

#[test]
fn two_back_edges_are_rejected() {
    let blocks = vec![
        block("entry", br("h")),
        block("h", cbr("a", "b")),
        block("a", br("h")),
        block("b", cbr("h", "out")),
        block("out", ret()),
    ];
    let cfg = Cfg::new(&blocks).unwrap();
    let dom = dominance(5, &[&[0, 1, 2, 3, 4], &[1, 2, 3, 4], &[2], &[3, 4], &[4]]);
    assert!(matches!(find_loops(&cfg, &dom), Err(LoopError::MultipleBackEdges { header: 1 })));
}

#[test]
fn two_exits_are_rejected() {
    // the header and the latch both leave the loop
    let blocks = vec![
        block("entry", br("h")),
        block("h", cbr("l", "out")),
        block("l", cbr("h", "out")),
        block("out", ret()),
    ];
    let cfg = Cfg::new(&blocks).unwrap();
    let dom = dominance(4, &[&[0, 1, 2, 3], &[1, 2, 3], &[2], &[3]]);
    assert!(matches!(find_loops(&cfg, &dom), Err(LoopError::NotSingleExit { header: 1 })));
}

#[test]
fn acyclic_graph_has_no_loops() {
    let blocks = vec![block("entry", br("out")), block("out", ret())];
    let cfg = Cfg::new(&blocks).unwrap();
    let dom = dominance(2, &[&[0, 1], &[1]]);
    assert_eq!(find_loops(&cfg, &dom).unwrap().len(), 0);
    assert!(dom.dominates(0, 1));
    assert!(!dom.dominates(1, 0));
    assert!(dom.strictly_dominates(0, 1));
    assert!(!dom.strictly_dominates(1, 1));
    assert!(!dom.dominates(5, 0));
}

fn id(cfg: &Cfg, name: &str) -> usize {
    cfg.id_of(&name.to_string()).unwrap()
}

fn ids(cfg: &Cfg, names: &[&str]) -> Vec<usize> {
    sorted(names.iter().map(|n| id(cfg, n)).collect())
}

/// A while loop whose condition sits in its header.
#[test]
fn while_add_hand() {
    let blocks = vec![
        block("entry", br("loop.head")),
        block("loop.head", cbr("loop.body", "loop.exit")),
        block("loop.body", br("loop.head")),
        block("loop.exit", ret()),
    ];
    let cfg = Cfg::new(&blocks).unwrap();
    let dom = dominance(4, &[&[0, 1, 2, 3], &[1, 2, 3], &[2], &[3]]);
    let loops = find_loops(&cfg, &dom).unwrap();
    assert_eq!(loops.len(), 1);
    assert_eq!(loops[0].header, id(&cfg, "loop.head"));
    assert_eq!(loops[0].back_node, id(&cfg, "loop.body"));
    assert_eq!(loops[0].exit_node, id(&cfg, "loop.head"));
    assert_eq!(sorted(loops[0].parts.clone()), ids(&cfg, &["loop.head", "loop.body"]));
}

/// Two nested loops, blocks named by number as an unoptimized compiler
/// numbers them.
#[test]
fn double_loop() {
    let blocks = vec![
        block("2", br("6")),
        block("6", cbr("10", "28")),
        block("10", br("11")),
        block("11", cbr("15", "24")),
        block("15", br("21")),
        block("21", br("11")),
        block("24", br("25")),
        block("25", br("6")),
        block("28", ret()),
    ];
    let cfg = Cfg::new(&blocks).unwrap();
    // by position: 2, 6, 10, 11, 15, 21, 24, 25, 28
    let dom = dominance(
        9,
        &[
            &[0, 1, 2, 3, 4, 5, 6, 7, 8],
            &[1, 2, 3, 4, 5, 6, 7, 8],
            &[2, 3, 4, 5, 6, 7],
            &[3, 4, 5, 6, 7],
            &[4, 5],
            &[5],
            &[6, 7],
            &[7],
            &[8],
        ],
    );
    let loops = find_loops(&cfg, &dom).unwrap();
    assert_eq!(loops.len(), 2);

    let l1 = &loops[0];
    assert_eq!(l1.header, id(&cfg, "6"));
    assert_eq!(l1.back_node, id(&cfg, "25"));
    assert_eq!(l1.exit_node, id(&cfg, "6"));
    assert_eq!(sorted(l1.parts.clone()), ids(&cfg, &["6", "10", "11", "15", "21", "24", "25"]));

    let l2 = &loops[1];
    assert_eq!(l2.header, id(&cfg, "11"));
    assert_eq!(l2.back_node, id(&cfg, "21"));
    assert_eq!(l2.exit_node, id(&cfg, "11"));
    assert_eq!(sorted(l2.parts.clone()), ids(&cfg, &["11", "15", "21"]));
}

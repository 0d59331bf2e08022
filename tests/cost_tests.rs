use lang::cost_fn::NoAlloc;
use lang::lang::{Cond, Lang};

#[test]
fn table_of_costs_in_hundredths() {
    let mut c = NoAlloc;
    assert_eq!(c.cost(&Lang::Add([0, 1]), &[1, 10]), 111);
    assert_eq!(c.cost(&Lang::Mul([0, 1]), &[1, 1]), 402);
    assert_eq!(c.cost(&Lang::Not(0), &[100]), 150);
    assert_eq!(c.cost(&Lang::ICmp(Cond::Lt, [0, 1]), &[1, 10]), 311);
    assert_eq!(c.cost(&Lang::Load([0, 1]), &[0, 1]), 1001);
    assert_eq!(c.cost(&Lang::Phi([0, 1, 2]), &[1, 2, 3]), 1030);
    assert_eq!(c.cost(&Lang::Alloca(0), &[]), 100000);
    assert_eq!(c.cost(&Lang::Ptr(0), &[100000]), 1);
    assert_eq!(c.cost(&Lang::I64(3), &[]), 1);
    assert_eq!(c.cost(&Lang::Var("x".to_string()), &[]), 10);
}

#[test]
fn huge_costs_saturate() {
    let mut c = NoAlloc;
    assert_eq!(c.cost(&Lang::Phi([0, 1, 2]), &[u64::MAX, 1, 1]), u64::MAX);
}

#[test]
fn one_more_merge_level_costs_more() {
    let mut c = NoAlloc;
    let cond = c.cost(&Lang::Var("c".to_string()), &[]);
    let t = c.cost(&Lang::I64(2), &[]);
    let e = c.cost(&Lang::I64(3), &[]);
    let shallow = c.cost(&Lang::Phi([0, 1, 2]), &[cond, t, e]);
    let deep = c.cost(&Lang::Phi([0, 3, 2]), &[cond, shallow, e]);
    assert!(deep > shallow);
}

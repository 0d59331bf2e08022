use lang::analysis::{ConstFold, Constant};
use lang::lang::{Cond, Lang};

#[test]
fn getters() {
    assert_eq!(Constant::Bool(true).get_bool(), Some(true));
    assert_eq!(Constant::Bool(true).get_num(), None);
    assert_eq!(Constant::Num(4).get_num(), Some(4));
    assert_eq!(Constant::Num(4).get_bool(), None);
}

#[test]
fn folding() {
    let n = |v| Some(Constant::Num(v));
    let b = |v| Some(Constant::Bool(v));
    assert_eq!(ConstFold::make(&Lang::I64(7), &[]), n(7));
    assert_eq!(ConstFold::make(&Lang::I64(1 << 40), &[]), None);
    assert_eq!(ConstFold::make(&Lang::Add([0, 1]), &[n(2), n(3)]), n(5));
    assert_eq!(ConstFold::make(&Lang::Sub([0, 1]), &[n(2), n(3)]), n(-1));
    assert_eq!(ConstFold::make(&Lang::Mul([0, 1]), &[n(i32::MAX), n(2)]), None);
    assert_eq!(ConstFold::make(&Lang::Add([0, 1]), &[n(2), None]), None);
    assert_eq!(ConstFold::make(&Lang::ICmp(Cond::Lt, [0, 1]), &[n(2), n(3)]), b(true));
    assert_eq!(ConstFold::make(&Lang::Not(0), &[b(true)]), b(false));
    assert_eq!(ConstFold::make(&Lang::And([0, 1]), &[b(true), b(false)]), b(false));
    assert_eq!(ConstFold::make(&Lang::Or([0, 1]), &[b(true), b(false)]), b(true));
    assert_eq!(ConstFold::make(&Lang::Var("x".to_string()), &[]), None);
}

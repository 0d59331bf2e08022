use lang::interp::{Env, EvalError, Expr, Store, Value};
use lang::lang::{Cond, Lang};

fn interp_empty(expr: &Expr) -> Result<Value, EvalError> {
    expr.interp(&Env::new(), &mut Store::new())
}

fn two_and_three() -> (Vec<Lang>, usize, usize) {
    let expr = vec![Lang::I64(2), Lang::I64(3)];
    (expr, 0, 1)
}

#[test]
fn value_i64() {
    let expr = vec![Lang::I64(1)];
    let expr = Expr::new(&expr);
    assert_eq!(interp_empty(&expr), Ok(Value::I64(1)));
}

#[test]
fn value_i1() {
    let expr = vec![Lang::I1(true)];
    let expr = Expr::new(&expr);
    assert_eq!(interp_empty(&expr), Ok(Value::I1(true)));
}

#[test]
fn add() {
    let (mut expr, n1, n2) = two_and_three();
    expr.push(Lang::Add([n1, n2]));
    let expr = Expr::new(&expr);
    assert_eq!(interp_empty(&expr), Ok(Value::I64(5)));
}

#[test]
fn sub() {
    let (mut expr, n1, n2) = two_and_three();
    expr.push(Lang::Sub([n1, n2]));
    let expr = Expr::new(&expr);
    assert_eq!(interp_empty(&expr), Ok(Value::I64(-1)));
}

#[test]
fn compare_eq() {
    let (mut expr, n1, n2) = two_and_three();
    expr.push(Lang::ICmp(Cond::Eq, [n1, n2]));
    let expr = Expr::new(&expr);
    assert_eq!(interp_empty(&expr), Ok(Value::I1(false)));
}

#[test]
fn compare_neq() {
    let (mut expr, n1, n2) = two_and_three();
    expr.push(Lang::ICmp(Cond::Neq, [n1, n2]));
    let res_tr = expr.len() - 1;
    expr.push(Lang::ICmp(Cond::Neq, [n1, n1]));
    let res_fa = expr.len() - 1;
    let expr_tr = Expr::with_root(&expr, res_tr);
    let expr_fa = Expr::with_root(&expr, res_fa);
    assert_eq!(interp_empty(&expr_tr), Ok(Value::I1(true)));
    assert_eq!(interp_empty(&expr_fa), Ok(Value::I1(false)));
}

#[test]
fn compare_geq() {
    let (mut expr, n1, n2) = two_and_three();
    expr.push(Lang::ICmp(Cond::Geq, [n1, n2]));
    let expr = Expr::new(&expr);
    assert_eq!(interp_empty(&expr), Ok(Value::I1(false)));
}

#[test]
fn compare_gt() {
    let (mut expr, n1, n2) = two_and_three();
    expr.push(Lang::ICmp(Cond::Gt, [n1, n2]));
    let expr = Expr::new(&expr);
    assert_eq!(interp_empty(&expr), Ok(Value::I1(false)));
}

#[test]
fn conditional() {
    let expr = vec![
        Lang::I1(false),
        Lang::I64(4),
        Lang::I64(5),
        Lang::Phi([0, 1, 2]),
    ];
    let expr = Expr::new(&expr);
    assert_eq!(interp_empty(&expr), Ok(Value::I64(5)));
}

#[test]
fn env_variables() {
    let mut env = Env::new();
    env.set("x".to_string(), Value::I64(3));
    env.set("y".to_string(), Value::I64(1));
    let expr = vec![
        Lang::Var("x".to_string()),
        Lang::Var("y".to_string()),
        Lang::Add([0, 1]),
    ];
    let expr = Expr::new(&expr);
    assert_eq!(expr.interp(&env, &mut Store::new()), Ok(Value::I64(4)));
}

#[test]
fn unbound_variable_is_named() {
    let expr = vec![Lang::Var("z".to_string())];
    let expr = Expr::new(&expr);
    assert_eq!(interp_empty(&expr), Err(EvalError::UnboundVariable("z".to_string())));
}

#[test]
fn env_rebinding_replaces() {
    let mut env = Env::new();
    env.set("x".to_string(), Value::I64(3));
    env.set("x".to_string(), Value::I64(9));
    assert_eq!(env.get("x"), Some(Value::I64(9)));
    assert_eq!(env.get("y"), None);
}

#[test]
fn type_mismatch_on_mixed_add() {
    let expr = vec![Lang::I64(1), Lang::I1(true), Lang::Add([0, 1])];
    assert_eq!(interp_empty(&Expr::new(&expr)), Err(EvalError::TypeMismatch));
}

#[test]
fn bool_order_comparison_is_rejected() {
    let expr = vec![Lang::I1(true), Lang::I1(false), Lang::ICmp(Cond::Lt, [0, 1])];
    assert_eq!(interp_empty(&Expr::new(&expr)), Err(EvalError::TypeMismatch));
    let expr = vec![Lang::I1(true), Lang::I1(false), Lang::ICmp(Cond::Neq, [0, 1])];
    assert_eq!(interp_empty(&Expr::new(&expr)), Ok(Value::I1(true)));
}

#[test]
fn non_boolean_condition() {
    let expr = vec![Lang::I64(1), Lang::I64(4), Lang::I64(5), Lang::Phi([0, 1, 2])];
    assert_eq!(interp_empty(&Expr::new(&expr)), Err(EvalError::NonBooleanCondition));
}

#[test]
fn phi_does_not_evaluate_other_branch() {
    // the false branch is an unbound variable and is never looked at
    let expr = vec![
        Lang::I1(true),
        Lang::I64(4),
        Lang::Var("missing".to_string()),
        Lang::Phi([0, 1, 2]),
    ];
    assert_eq!(interp_empty(&Expr::new(&expr)), Ok(Value::I64(4)));
}

#[test]
fn arithmetic_wraps_and_multiplies() {
    let expr = vec![Lang::I64(i64::MAX), Lang::I64(1), Lang::Add([0, 1])];
    assert_eq!(interp_empty(&Expr::new(&expr)), Ok(Value::I64(i64::MIN)));
    let expr = vec![Lang::I64(6), Lang::I64(7), Lang::Mul([0, 1])];
    assert_eq!(interp_empty(&Expr::new(&expr)), Ok(Value::I64(42)));
    let expr = vec![Lang::I64(12), Lang::I64(10), Lang::BAnd([0, 1]), Lang::BOr([0, 1]), Lang::BNot(0)];
    assert_eq!(interp_empty(&Expr::with_root(&expr, 2)), Ok(Value::I64(8)));
    assert_eq!(interp_empty(&Expr::with_root(&expr, 3)), Ok(Value::I64(14)));
    assert_eq!(interp_empty(&Expr::with_root(&expr, 4)), Ok(Value::I64(!12)));
}

#[test]
fn logic_operators() {
    let expr = vec![Lang::I1(true), Lang::I1(false), Lang::And([0, 1]), Lang::Or([0, 1]), Lang::Not(1)];
    assert_eq!(interp_empty(&Expr::with_root(&expr, 2)), Ok(Value::I1(false)));
    assert_eq!(interp_empty(&Expr::with_root(&expr, 3)), Ok(Value::I1(true)));
    assert_eq!(interp_empty(&Expr::with_root(&expr, 4)), Ok(Value::I1(true)));
}

#[test]
fn load_of_store_gives_stored_value() {
    // alloca, ptr, value, store, load
    let expr = vec![
        Lang::Alloca(0),
        Lang::Ptr(0),
        Lang::I64(11),
        Lang::Store([2, 0, 1]),
        Lang::Load([3, 1]),
    ];
    assert_eq!(interp_empty(&Expr::new(&expr)), Ok(Value::I64(11)));
    assert_eq!(interp_empty(&Expr::with_root(&expr, 2)), Ok(Value::I64(11)));
}

#[test]
fn load_before_store_is_uninitialized() {
    let expr = vec![Lang::Alloca(0), Lang::Ptr(0), Lang::Load([0, 1])];
    assert_eq!(interp_empty(&Expr::new(&expr)), Err(EvalError::UninitializedValue));
}

#[test]
fn memory_kind_errors() {
    // a store whose witness is not a memory state
    let expr = vec![Lang::Alloca(0), Lang::Ptr(0), Lang::I64(1), Lang::Store([2, 2, 1])];
    assert_eq!(interp_empty(&Expr::new(&expr)), Err(EvalError::ExpectedSigma));
    // a store whose pointer is not a pointer
    let expr = vec![Lang::Alloca(0), Lang::I64(1), Lang::Store([1, 0, 1])];
    assert_eq!(interp_empty(&Expr::new(&expr)), Err(EvalError::ExpectedPointer));
}

#[test]
fn child_after_parent_is_rejected() {
    let expr = vec![Lang::Add([1, 2]), Lang::I64(1), Lang::I64(2)];
    assert_eq!(interp_empty(&Expr::with_root(&expr, 0)), Err(EvalError::BadIndex));
    assert_eq!(interp_empty(&Expr::with_root(&expr, 7)), Err(EvalError::BadIndex));
}

#[test]
fn store_registers_and_reads_cells() {
    let mut st = Store::new();
    st.set(1, 2, Some(Value::I64(5)));
    assert_eq!(st.get(1, 2), Some(Value::I64(5)));
    st.set(1, 2, None);
    assert_eq!(st.get(1, 2), None);
    assert_eq!(st.get(2, 1), None);
}

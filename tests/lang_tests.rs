use lang::lang::{from_op, Cond, Lang, ParseError};

fn round_trip(node: Lang) {
    let mut ctr: u64 = 7;
    let text = node.op_text();
    let back = from_op(&text, &node.children(), &mut ctr).unwrap();
    assert_eq!(back, node);
}

#[test]
fn print_parse_round_trip_all_kinds() {
    round_trip(Lang::Add([0, 1]));
    round_trip(Lang::Sub([0, 1]));
    round_trip(Lang::Mul([1, 0]));
    round_trip(Lang::BAnd([0, 1]));
    round_trip(Lang::BOr([0, 1]));
    round_trip(Lang::BNot(3));
    round_trip(Lang::And([0, 1]));
    round_trip(Lang::Or([0, 1]));
    round_trip(Lang::Not(2));
    for c in [Cond::Eq, Cond::Neq, Cond::Lt, Cond::Gt, Cond::Leq, Cond::Geq] {
        round_trip(Lang::ICmp(c, [4, 5]));
    }
    round_trip(Lang::Phi([0, 1, 2]));
    round_trip(Lang::Ptr(0));
    round_trip(Lang::Load([0, 1]));
    round_trip(Lang::Store([0, 1, 2]));
    round_trip(Lang::I1(true));
    round_trip(Lang::I1(false));
    round_trip(Lang::I64(0));
    round_trip(Lang::I64(-42));
    round_trip(Lang::I64(i64::MIN));
    round_trip(Lang::I64(i64::MAX));
    round_trip(Lang::Var("x".to_string()));
    round_trip(Lang::Var("12".to_string()));
    round_trip(Lang::Var("a_b".to_string()));
    round_trip(Lang::Var(String::new()));
    round_trip(Lang::Alloca(0));
    round_trip(Lang::Alloca(u64::MAX));
}

#[test]
fn alloca_reads_back_as_a_fresh_site() {
    let mut ctr: u64 = 7;
    let node = Lang::Alloca(3);
    assert_eq!(node.op_text(), "3_alloca");
    assert_eq!(from_op("3_alloca", &[], &mut ctr), Ok(Lang::Alloca(3)));
    assert_eq!(ctr, 7);
    assert_eq!(from_op("alloca", &[], &mut ctr), Ok(Lang::Alloca(7)));
    assert_eq!(ctr, 8);
    assert_eq!(from_op("alloca", &[], &mut ctr), Ok(Lang::Alloca(8)));
}

#[test]
fn leaf_texts_carry_their_kind() {
    assert_eq!(Lang::I64(5).op_text(), "5_i64");
    assert_eq!(Lang::Var("5".to_string()).op_text(), "5_v");
    assert_eq!(Lang::ICmp(Cond::Leq, [0, 1]).op_text(), "<=");
    assert_eq!(Lang::I1(false).op_text(), "false");
}

#[test]
fn parse_errors() {
    let mut ctr: u64 = 0;
    assert_eq!(from_op("5_f32", &[], &mut ctr), Err(ParseError::UnknownOperator));
    assert_eq!(from_op("5", &[], &mut ctr), Err(ParseError::IllFormedValue));
    assert_eq!(from_op("x_alloca", &[], &mut ctr), Err(ParseError::BadInteger));
    assert_eq!(from_op("x_v_", &[], &mut ctr), Err(ParseError::UnknownOperator));
    assert_eq!(from_op("x5_i64", &[], &mut ctr), Err(ParseError::BadInteger));
    assert_eq!(from_op("99999999999999999999_i64", &[], &mut ctr), Err(ParseError::BadInteger));
    assert_eq!(from_op("+", &[0], &mut ctr), Err(ParseError::WrongArity));
    assert_eq!(from_op("x_v", &[0], &mut ctr), Err(ParseError::WrongArity));
    assert_eq!(ctr, 0);
}

#[test]
fn leaves_split_at_the_last_separator() {
    let mut ctr: u64 = 0;
    assert_eq!(from_op("a_b_v", &[], &mut ctr), Ok(Lang::Var("a_b".to_string())));
    assert_eq!(from_op("+12_i64", &[], &mut ctr), Ok(Lang::I64(12)));
}

#[test]
fn matching_compares_kind_and_payload() {
    assert!(Lang::Add([0, 1]).matches(&Lang::Add([2, 3])));
    assert!(!Lang::Add([0, 1]).matches(&Lang::Sub([0, 1])));
    assert!(Lang::ICmp(Cond::Lt, [0, 1]).matches(&Lang::ICmp(Cond::Lt, [2, 3])));
    assert!(!Lang::ICmp(Cond::Lt, [0, 1]).matches(&Lang::ICmp(Cond::Gt, [0, 1])));
    assert!(!Lang::I64(1).matches(&Lang::I64(2)));
    assert!(Lang::Var("a".to_string()).matches(&Lang::Var("a".to_string())));
    assert!(!Lang::Alloca(1).matches(&Lang::Alloca(2)));
    assert_eq!(Lang::Store([4, 5, 6]).children(), vec![4, 5, 6]);
    assert_eq!(Lang::I1(true).children(), Vec::<usize>::new());
}

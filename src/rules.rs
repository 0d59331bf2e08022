//! The catalog of rewrite rules over the expression language: each a
//! left and a right pattern in the language's text, with `?x` for a
//! pattern variable.
use vstd::prelude::*;

verus! {

/// A rewrite rule: `lhs` rewrites to `rhs`, and back as well when it is
/// bidirectional.
#[derive(Clone, Copy, Debug, PartialEq, Eq)]
pub struct Rule {
    pub name: &'static str,
    pub lhs: &'static str,
    pub rhs: &'static str,
    pub bidirectional: bool,
}

/// Memory forwarding: a load through the store just made to the same
/// pointer gives the stored value; a load through a merge of memory states
/// is a merge of loads.
pub open spec fn allocation_table() -> Seq<Rule> {
    seq![
        Rule { name: "drop store", lhs: "(load (store ?v ?s ?p) ?p)", rhs: "?v", bidirectional: false },
        Rule { name: "lower load over phi", lhs: "(load (phi ?c ?t ?e) ?p)", rhs: "(phi ?c (load ?t ?p) (load ?e ?p))", bidirectional: false },
    ]
}

fn allocation_rules() -> (r: Vec<Rule>)
    ensures
        r@ == allocation_table(),
{
    let r = vec![
        Rule { name: "drop store", lhs: "(load (store ?v ?s ?p) ?p)", rhs: "?v", bidirectional: false },
        Rule { name: "lower load over phi", lhs: "(load (phi ?c ?t ?e) ?p)", rhs: "(phi ?c (load ?t ?p) (load ?e ?p))", bidirectional: false },
    ];
    assert(r@ =~= allocation_table());
    r
}

/// Arithmetic: multiplicative identity and annihilator, additive identity,
/// and distribution of multiplication over addition.
pub open spec fn arithmetic_table() -> Seq<Rule> {
    seq![
        Rule { name: "one multiplication", lhs: "(* 1_i64 ?a)", rhs: "?a", bidirectional: false },
        Rule { name: "zero multiplication", lhs: "(* 0_i64 ?a)", rhs: "0_i64", bidirectional: false },
        Rule { name: "zero addition", lhs: "(+ 0_i64 ?a)", rhs: "?a", bidirectional: false },
        Rule { name: "multiplication distribution over addition", lhs: "(* (+ ?a ?b) ?m)", rhs: "(+ (* ?a ?m) (* ?b ?m))", bidirectional: true },
    ]
}

fn arithmetic_rules() -> (r: Vec<Rule>)
    ensures
        r@ == arithmetic_table(),
{
    let r = vec![
        Rule { name: "one multiplication", lhs: "(* 1_i64 ?a)", rhs: "?a", bidirectional: false },
        Rule { name: "zero multiplication", lhs: "(* 0_i64 ?a)", rhs: "0_i64", bidirectional: false },
        Rule { name: "zero addition", lhs: "(+ 0_i64 ?a)", rhs: "?a", bidirectional: false },
        Rule { name: "multiplication distribution over addition", lhs: "(* (+ ?a ?b) ?m)", rhs: "(+ (* ?a ?m) (* ?b ?m))", bidirectional: true },
    ];
    assert(r@ =~= arithmetic_table());
    r
}

/// Conditional merges: constant and repeated-branch collapse, negated
/// conditions, conjunctions and disjunctions as nested merges, and a
/// condition already known to hold.
pub open spec fn phi_table() -> Seq<Rule> {
    seq![
        Rule { name: "phi if true", lhs: "(phi true ?t ?e)", rhs: "?t", bidirectional: false },
        Rule { name: "phi if false", lhs: "(phi false ?t ?e)", rhs: "?e", bidirectional: false },
        Rule { name: "phi if same", lhs: "(phi ?c ?t ?t)", rhs: "?t", bidirectional: false },
        Rule { name: "phi if neg", lhs: "(phi ?c ?t ?e)", rhs: "(phi (! ?c) ?e ?t)", bidirectional: false },
        Rule { name: "phi and", lhs: "(phi (&& ?c1 ?c2) ?t ?e)", rhs: "(phi ?c1 (phi ?c2 ?t ?e) ?e)", bidirectional: true },
        Rule { name: "phi or", lhs: "(phi (|| ?c1 ?c2) ?t ?e)", rhs: "(phi ?c1 ?t (phi ?c2 ?t ?e))", bidirectional: true },
        Rule { name: "phi cond already true", lhs: "(phi (&& ?c1 ?c2) (phi (&& ?c1 ?c3) ?t2 ?e2) ?e1)", rhs: "(phi (&& ?c1 ?c2) (phi ?c3 ?t2 ?e2) ?e1)", bidirectional: true },
    ]
}

fn phi_rules() -> (r: Vec<Rule>)
    ensures
        r@ == phi_table(),
{
    let r = vec![
        Rule { name: "phi if true", lhs: "(phi true ?t ?e)", rhs: "?t", bidirectional: false },
        Rule { name: "phi if false", lhs: "(phi false ?t ?e)", rhs: "?e", bidirectional: false },
        Rule { name: "phi if same", lhs: "(phi ?c ?t ?t)", rhs: "?t", bidirectional: false },
        Rule { name: "phi if neg", lhs: "(phi ?c ?t ?e)", rhs: "(phi (! ?c) ?e ?t)", bidirectional: false },
        Rule { name: "phi and", lhs: "(phi (&& ?c1 ?c2) ?t ?e)", rhs: "(phi ?c1 (phi ?c2 ?t ?e) ?e)", bidirectional: true },
        Rule { name: "phi or", lhs: "(phi (|| ?c1 ?c2) ?t ?e)", rhs: "(phi ?c1 ?t (phi ?c2 ?t ?e))", bidirectional: true },
        Rule { name: "phi cond already true", lhs: "(phi (&& ?c1 ?c2) (phi (&& ?c1 ?c3) ?t2 ?e2) ?e1)", rhs: "(phi (&& ?c1 ?c2) (phi ?c3 ?t2 ?e2) ?e1)", bidirectional: true },
    ];
    assert(r@ =~= phi_table());
    r
}

/// Boolean logic: constants, double negation, commutativity,
/// associativity, identity and annihilation, and distributivity.
pub open spec fn logic_table() -> Seq<Rule> {
    seq![
        Rule { name: "not true", lhs: "(! true)", rhs: "false", bidirectional: false },
        Rule { name: "not false", lhs: "(! false)", rhs: "true", bidirectional: false },
        Rule { name: "double not", lhs: "(! (! ?a))", rhs: "?a", bidirectional: false },
        Rule { name: "comm and", lhs: "(&& ?a ?b)", rhs: "(&& ?b ?a)", bidirectional: false },
        Rule { name: "comm or", lhs: "(|| ?a ?b)", rhs: "(|| ?b ?a)", bidirectional: false },
        Rule { name: "assoc and", lhs: "(&& ?a (&& ?b ?c))", rhs: "(&& (&& ?a ?b) ?c)", bidirectional: false },
        Rule { name: "assoc or", lhs: "(|| ?a (|| ?b ?c))", rhs: "(|| (|| ?a ?b) ?c)", bidirectional: false },
        Rule { name: "ident and", lhs: "(&& ?a true)", rhs: "?a", bidirectional: false },
        Rule { name: "ident or", lhs: "(|| ?a false)", rhs: "?a", bidirectional: false },
        Rule { name: "zero and", lhs: "(&& ?a false)", rhs: "false", bidirectional: false },
        Rule { name: "zero or", lhs: "(|| ?a true)", rhs: "true", bidirectional: false },
        Rule { name: "distributive and", lhs: "(&& ?a (|| ?b ?c))", rhs: "(|| (&& ?a ?b) (&& ?a ?c))", bidirectional: true },
        Rule { name: "distributive or", lhs: "(|| ?a (&& ?b ?c))", rhs: "(&& (|| ?a ?b) (|| ?a ?c))", bidirectional: true },
    ]
}

fn logic_rules() -> (r: Vec<Rule>)
    ensures
        r@ == logic_table(),
{
    let r = vec![
        Rule { name: "not true", lhs: "(! true)", rhs: "false", bidirectional: false },
        Rule { name: "not false", lhs: "(! false)", rhs: "true", bidirectional: false },
        Rule { name: "double not", lhs: "(! (! ?a))", rhs: "?a", bidirectional: false },
        Rule { name: "comm and", lhs: "(&& ?a ?b)", rhs: "(&& ?b ?a)", bidirectional: false },
        Rule { name: "comm or", lhs: "(|| ?a ?b)", rhs: "(|| ?b ?a)", bidirectional: false },
        Rule { name: "assoc and", lhs: "(&& ?a (&& ?b ?c))", rhs: "(&& (&& ?a ?b) ?c)", bidirectional: false },
        Rule { name: "assoc or", lhs: "(|| ?a (|| ?b ?c))", rhs: "(|| (|| ?a ?b) ?c)", bidirectional: false },
        Rule { name: "ident and", lhs: "(&& ?a true)", rhs: "?a", bidirectional: false },
        Rule { name: "ident or", lhs: "(|| ?a false)", rhs: "?a", bidirectional: false },
        Rule { name: "zero and", lhs: "(&& ?a false)", rhs: "false", bidirectional: false },
        Rule { name: "zero or", lhs: "(|| ?a true)", rhs: "true", bidirectional: false },
        Rule { name: "distributive and", lhs: "(&& ?a (|| ?b ?c))", rhs: "(|| (&& ?a ?b) (&& ?a ?c))", bidirectional: true },
        Rule { name: "distributive or", lhs: "(|| ?a (&& ?b ?c))", rhs: "(&& (|| ?a ?b) (|| ?a ?c))", bidirectional: true },
    ];
    assert(r@ =~= logic_table());
    r
}

/// Comparisons: negated predicates, commuted forms, and how two
/// comparisons of the same operands combine.
pub open spec fn cond_table() -> Seq<Rule> {
    seq![
        Rule { name: "not eq", lhs: "(! (== ?a ?b))", rhs: "(!= ?a ?b)", bidirectional: false },
        Rule { name: "not neq", lhs: "(! (!= ?a ?b))", rhs: "(== ?a ?b)", bidirectional: false },
        Rule { name: "not lt", lhs: "(! (< ?a ?b))", rhs: "(>= ?a ?b)", bidirectional: false },
        Rule { name: "not gt", lhs: "(! (> ?a ?b))", rhs: "(<= ?a ?b)", bidirectional: false },
        Rule { name: "lt or gt", lhs: "(|| (< ?a ?b) (> ?a ?b))", rhs: "(!= ?a ?b)", bidirectional: false },
        Rule { name: "lte and gte", lhs: "(&& (<= ?a ?b) (>= ?a ?b))", rhs: "(== ?a ?b)", bidirectional: false },
        Rule { name: "lt and eq", lhs: "(&& (< ?a ?b) (== ?a ?b))", rhs: "(<= ?a ?b)", bidirectional: false },
        Rule { name: "gt and eq", lhs: "(&& (> ?a ?b) (== ?a ?b))", rhs: "(>= ?a ?b)", bidirectional: false },
        Rule { name: "lte and neq", lhs: "(&& (<= ?a ?b) (!= ?a ?b))", rhs: "(< ?a ?b)", bidirectional: false },
        Rule { name: "gte and neq", lhs: "(&& (>= ?a ?b) (!= ?a ?b))", rhs: "(> ?a ?b)", bidirectional: false },
        Rule { name: "comm eq", lhs: "(== ?a ?b)", rhs: "(== ?b ?a)", bidirectional: false },
        Rule { name: "comm neq", lhs: "(!= ?a ?b)", rhs: "(!= ?b ?a)", bidirectional: false },
        Rule { name: "comm lt", lhs: "(< ?a ?b)", rhs: "(> ?b ?a)", bidirectional: false },
        Rule { name: "comm gt", lhs: "(> ?a ?b)", rhs: "(< ?b ?a)", bidirectional: false },
        Rule { name: "comm lte", lhs: "(<= ?a ?b)", rhs: "(>= ?b ?a)", bidirectional: false },
        Rule { name: "comm gte", lhs: "(>= ?a ?b)", rhs: "(<= ?b ?a)", bidirectional: false },
        Rule { name: "lt lte false", lhs: "(&& (< ?a ?b) (<= ?b ?a))", rhs: "false", bidirectional: false },
        Rule { name: "lt lt false", lhs: "(&& (< ?a ?b) (< ?b ?a))", rhs: "false", bidirectional: false },
        Rule { name: "gt gte false", lhs: "(&& (> ?a ?b) (>= ?b ?a))", rhs: "false", bidirectional: false },
        Rule { name: "gt gt false", lhs: "(&& (> ?a ?b) (> ?b ?a))", rhs: "false", bidirectional: false },
        Rule { name: "lt lte true", lhs: "(|| (< ?a ?b) (<= ?b ?a))", rhs: "true", bidirectional: false },
        Rule { name: "gt gte true", lhs: "(|| (> ?a ?b) (>= ?b ?a))", rhs: "true", bidirectional: false },
    ]
}

fn cond_rules() -> (r: Vec<Rule>)
    ensures
        r@ == cond_table(),
{
    let r = vec![
        Rule { name: "not eq", lhs: "(! (== ?a ?b))", rhs: "(!= ?a ?b)", bidirectional: false },
        Rule { name: "not neq", lhs: "(! (!= ?a ?b))", rhs: "(== ?a ?b)", bidirectional: false },
        Rule { name: "not lt", lhs: "(! (< ?a ?b))", rhs: "(>= ?a ?b)", bidirectional: false },
        Rule { name: "not gt", lhs: "(! (> ?a ?b))", rhs: "(<= ?a ?b)", bidirectional: false },
        Rule { name: "lt or gt", lhs: "(|| (< ?a ?b) (> ?a ?b))", rhs: "(!= ?a ?b)", bidirectional: false },
        Rule { name: "lte and gte", lhs: "(&& (<= ?a ?b) (>= ?a ?b))", rhs: "(== ?a ?b)", bidirectional: false },
        Rule { name: "lt and eq", lhs: "(&& (< ?a ?b) (== ?a ?b))", rhs: "(<= ?a ?b)", bidirectional: false },
        Rule { name: "gt and eq", lhs: "(&& (> ?a ?b) (== ?a ?b))", rhs: "(>= ?a ?b)", bidirectional: false },
        Rule { name: "lte and neq", lhs: "(&& (<= ?a ?b) (!= ?a ?b))", rhs: "(< ?a ?b)", bidirectional: false },
        Rule { name: "gte and neq", lhs: "(&& (>= ?a ?b) (!= ?a ?b))", rhs: "(> ?a ?b)", bidirectional: false },
        Rule { name: "comm eq", lhs: "(== ?a ?b)", rhs: "(== ?b ?a)", bidirectional: false },
        Rule { name: "comm neq", lhs: "(!= ?a ?b)", rhs: "(!= ?b ?a)", bidirectional: false },
        Rule { name: "comm lt", lhs: "(< ?a ?b)", rhs: "(> ?b ?a)", bidirectional: false },
        Rule { name: "comm gt", lhs: "(> ?a ?b)", rhs: "(< ?b ?a)", bidirectional: false },
        Rule { name: "comm lte", lhs: "(<= ?a ?b)", rhs: "(>= ?b ?a)", bidirectional: false },
        Rule { name: "comm gte", lhs: "(>= ?a ?b)", rhs: "(<= ?b ?a)", bidirectional: false },
        Rule { name: "lt lte false", lhs: "(&& (< ?a ?b) (<= ?b ?a))", rhs: "false", bidirectional: false },
        Rule { name: "lt lt false", lhs: "(&& (< ?a ?b) (< ?b ?a))", rhs: "false", bidirectional: false },
        Rule { name: "gt gte false", lhs: "(&& (> ?a ?b) (>= ?b ?a))", rhs: "false", bidirectional: false },
        Rule { name: "gt gt false", lhs: "(&& (> ?a ?b) (> ?b ?a))", rhs: "false", bidirectional: false },
        Rule { name: "lt lte true", lhs: "(|| (< ?a ?b) (<= ?b ?a))", rhs: "true", bidirectional: false },
        Rule { name: "gt gte true", lhs: "(|| (> ?a ?b) (>= ?b ?a))", rhs: "true", bidirectional: false },
    ];
    assert(r@ =~= cond_table());
    r
}

/// The whole catalog, family by family.
pub open spec fn rule_table() -> Seq<Rule> {
    allocation_table() + arithmetic_table() + phi_table() + logic_table() + cond_table()
}

/// The rules that the optimizer may apply.
pub fn rw_rules() -> (r: Vec<Rule>)
    ensures
        r@ == rule_table(),
{
    let mut rules: Vec<Rule> = Vec::new();
    let mut a = allocation_rules();
    rules.append(&mut a);
    let mut a = arithmetic_rules();
    rules.append(&mut a);
    let mut a = phi_rules();
    rules.append(&mut a);
    let mut a = logic_rules();
    rules.append(&mut a);
    let mut a = cond_rules();
    rules.append(&mut a);
    assert(rules@ =~= rule_table());
    rules
}

} // verus!

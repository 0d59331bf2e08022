//! The node catalog of the expression language, its structural matching,
//! and the text of each node kind.
use vstd::prelude::*;
use vstd::string::*;
use crate::text::{int_text, nat_text, i64_of_text, u64_of_text, parse_i64, parse_u64, push_int_text, push_nat_text, text_eq};

verus! {

/// The predicate of an integer comparison.
#[derive(Clone, Copy, Debug, PartialEq, Eq, Hash, PartialOrd, Ord, Structural)]
pub enum Cond {
    Eq,
    Neq,
    Lt,
    Gt,
    Leq,
    Geq,
}

/// One node of an expression buffer. Children are positions of earlier
/// nodes in the same buffer.
#[derive(Clone, Debug, PartialEq, Eq, Hash, PartialOrd, Ord)]
pub enum Lang {
    Add([usize; 2]),
    Sub([usize; 2]),
    Mul([usize; 2]),
    BAnd([usize; 2]),
    BOr([usize; 2]),
    BNot(usize),
    And([usize; 2]),
    Or([usize; 2]),
    Not(usize),
    ICmp(Cond, [usize; 2]),
    Phi([usize; 3]),
    Alloca(u64),
    Ptr(usize),
    /// witness, pointer
    Load([usize; 2]),
    /// value, witness, pointer
    Store([usize; 3]),
    I1(bool),
    I64(i64),
    Var(String),
}

/// The mathematical value of a node: a variable carries its name as
/// characters.
pub enum Node {
    Add(usize, usize),
    Sub(usize, usize),
    Mul(usize, usize),
    BAnd(usize, usize),
    BOr(usize, usize),
    BNot(usize),
    And(usize, usize),
    Or(usize, usize),
    Not(usize),
    ICmp(Cond, usize, usize),
    Phi(usize, usize, usize),
    Alloca(u64),
    Ptr(usize),
    Load(usize, usize),
    Store(usize, usize, usize),
    I1(bool),
    I64(i64),
    Var(Seq<char>),
}

impl View for Lang {
    type V = Node;

    open spec fn view(&self) -> Node {
        match self {
            Lang::Add(o) => Node::Add(o[0], o[1]),
            Lang::Sub(o) => Node::Sub(o[0], o[1]),
            Lang::Mul(o) => Node::Mul(o[0], o[1]),
            Lang::BAnd(o) => Node::BAnd(o[0], o[1]),
            Lang::BOr(o) => Node::BOr(o[0], o[1]),
            Lang::BNot(a) => Node::BNot(*a),
            Lang::And(o) => Node::And(o[0], o[1]),
            Lang::Or(o) => Node::Or(o[0], o[1]),
            Lang::Not(a) => Node::Not(*a),
            Lang::ICmp(c, o) => Node::ICmp(*c, o[0], o[1]),
            Lang::Phi(o) => Node::Phi(o[0], o[1], o[2]),
            Lang::Alloca(k) => Node::Alloca(*k),
            Lang::Ptr(a) => Node::Ptr(*a),
            Lang::Load(o) => Node::Load(o[0], o[1]),
            Lang::Store(o) => Node::Store(o[0], o[1], o[2]),
            Lang::I1(b) => Node::I1(*b),
            Lang::I64(i) => Node::I64(*i),
            Lang::Var(s) => Node::Var(s@),
        }
    }
}

impl Node {
    /// The children of a node, in order.
    pub open spec fn children(self) -> Seq<usize> {
        match self {
            Node::Add(a, b) | Node::Sub(a, b) | Node::Mul(a, b) | Node::BAnd(a, b)
            | Node::BOr(a, b) | Node::And(a, b) | Node::Or(a, b) | Node::ICmp(_, a, b)
            | Node::Load(a, b) => seq![a, b],
            Node::BNot(a) | Node::Not(a) | Node::Ptr(a) => seq![a],
            Node::Phi(a, b, c) | Node::Store(a, b, c) => seq![a, b, c],
            Node::Alloca(_) | Node::I1(_) | Node::I64(_) | Node::Var(_) => seq![],
        }
    }

    /// Two nodes are candidates for matching: the same kind and the same
    /// predicate, literal, name or allocation-site identifier.
    pub open spec fn same_shape(self, other: Node) -> bool {
        match (self, other) {
            (Node::Add(..), Node::Add(..)) => true,
            (Node::Sub(..), Node::Sub(..)) => true,
            (Node::Mul(..), Node::Mul(..)) => true,
            (Node::BAnd(..), Node::BAnd(..)) => true,
            (Node::BOr(..), Node::BOr(..)) => true,
            (Node::BNot(..), Node::BNot(..)) => true,
            (Node::And(..), Node::And(..)) => true,
            (Node::Or(..), Node::Or(..)) => true,
            (Node::Not(..), Node::Not(..)) => true,
            (Node::ICmp(a, ..), Node::ICmp(b, ..)) => a == b,
            (Node::Phi(..), Node::Phi(..)) => true,
            (Node::Ptr(..), Node::Ptr(..)) => true,
            (Node::Load(..), Node::Load(..)) => true,
            (Node::Store(..), Node::Store(..)) => true,
            (Node::I1(a), Node::I1(b)) => a == b,
            (Node::I64(a), Node::I64(b)) => a == b,
            (Node::Var(a), Node::Var(b)) => a == b,
            (Node::Alloca(a), Node::Alloca(b)) => a == b,
            _ => false,
        }
    }
}


/// The text of a node kind: the operator, or for a leaf its literal with a
/// suffix naming the kind.
pub open spec fn op_spec(n: Node) -> Seq<char> {
    match n {
        Node::Add(..) => seq!['+'],
        Node::Sub(..) => seq!['-'],
        Node::Mul(..) => seq!['*'],
        Node::BAnd(..) => seq!['&'],
        Node::BOr(..) => seq!['|'],
        Node::BNot(..) => seq!['~'],
        Node::And(..) => seq!['&', '&'],
        Node::Or(..) => seq!['|', '|'],
        Node::Not(..) => seq!['!'],
        Node::ICmp(c, ..) => cond_text(c),
        Node::Phi(..) => seq!['p', 'h', 'i'],
        Node::Alloca(k) => nat_text(k as nat) + seq!['_', 'a', 'l', 'l', 'o', 'c', 'a'],
        Node::Ptr(..) => seq!['p', 't', 'r'],
        Node::Load(..) => seq!['l', 'o', 'a', 'd'],
        Node::Store(..) => seq!['s', 't', 'o', 'r', 'e'],
        Node::I1(b) => if b { seq!['t', 'r', 'u', 'e'] } else { seq!['f', 'a', 'l', 's', 'e'] },
        Node::I64(i) => int_text(i as int) + seq!['_', 'i', '6', '4'],
        Node::Var(s) => s + seq!['_', 'v'],
    }
}

pub open spec fn cond_text(c: Cond) -> Seq<char> {
    match c {
        Cond::Eq => seq!['=', '='],
        Cond::Neq => seq!['!', '='],
        Cond::Lt => seq!['<'],
        Cond::Gt => seq!['>'],
        Cond::Leq => seq!['<', '='],
        Cond::Geq => seq!['>', '='],
    }
}

/// Why a node could not be read from its text.
#[derive(Clone, Copy, Debug, PartialEq, Eq, Structural)]
pub enum ParseError {
    /// The operator takes another number of children.
    WrongArity,
    /// A leaf is not of the form `literal_kind`.
    IllFormedValue,
    /// The kind suffix of a leaf is not a known one.
    UnknownOperator,
    /// An integer literal is not a 64-bit signed decimal number.
    BadInteger,
}

/// The node kind that a fixed operator word names, with the number of
/// children it takes.
pub open spec fn keyword_arity(op: Seq<char>) -> Option<nat> {
    if op == seq!['+'] || op == seq!['-'] || op == seq!['*'] || op == seq!['&'] || op == seq!['|']
        || op == seq!['&', '&'] || op == seq!['|', '|'] || op == seq!['=', '='] || op == seq![
        '!',
        '=',
    ] || op == seq!['<'] || op == seq!['>'] || op == seq!['<', '='] || op == seq!['>', '=']
        || op == seq!['l', 'o', 'a', 'd'] {
        Some(2)
    } else if op == seq!['~'] || op == seq!['!'] || op == seq!['p', 't', 'r'] {
        Some(1)
    } else if op == seq!['p', 'h', 'i'] || op == seq!['s', 't', 'o', 'r', 'e'] {
        Some(3)
    } else if op == seq!['a', 'l', 'l', 'o', 'c', 'a'] || op == seq!['t', 'r', 'u', 'e'] || op
        == seq!['f', 'a', 'l', 's', 'e'] {
        Some(0)
    } else {
        None
    }
}

/// The node that a fixed operator word builds over the given children; an
/// allocation site takes the identifier `ctr`.
pub open spec fn keyword_node(op: Seq<char>, ch: Seq<usize>, ctr: u64) -> Node {
    if op == seq!['+'] {
        Node::Add(ch[0], ch[1])
    } else if op == seq!['-'] {
        Node::Sub(ch[0], ch[1])
    } else if op == seq!['*'] {
        Node::Mul(ch[0], ch[1])
    } else if op == seq!['&'] {
        Node::BAnd(ch[0], ch[1])
    } else if op == seq!['|'] {
        Node::BOr(ch[0], ch[1])
    } else if op == seq!['~'] {
        Node::BNot(ch[0])
    } else if op == seq!['&', '&'] {
        Node::And(ch[0], ch[1])
    } else if op == seq!['|', '|'] {
        Node::Or(ch[0], ch[1])
    } else if op == seq!['!'] {
        Node::Not(ch[0])
    } else if op == seq!['=', '='] {
        Node::ICmp(Cond::Eq, ch[0], ch[1])
    } else if op == seq!['!', '='] {
        Node::ICmp(Cond::Neq, ch[0], ch[1])
    } else if op == seq!['<'] {
        Node::ICmp(Cond::Lt, ch[0], ch[1])
    } else if op == seq!['>'] {
        Node::ICmp(Cond::Gt, ch[0], ch[1])
    } else if op == seq!['<', '='] {
        Node::ICmp(Cond::Leq, ch[0], ch[1])
    } else if op == seq!['>', '='] {
        Node::ICmp(Cond::Geq, ch[0], ch[1])
    } else if op == seq!['p', 'h', 'i'] {
        Node::Phi(ch[0], ch[1], ch[2])
    } else if op == seq!['a', 'l', 'l', 'o', 'c', 'a'] {
        Node::Alloca(ctr)
    } else if op == seq!['p', 't', 'r'] {
        Node::Ptr(ch[0])
    } else if op == seq!['l', 'o', 'a', 'd'] {
        Node::Load(ch[0], ch[1])
    } else if op == seq!['s', 't', 'o', 'r', 'e'] {
        Node::Store(ch[0], ch[1], ch[2])
    } else if op == seq!['t', 'r', 'u', 'e'] {
        Node::I1(true)
    } else {
        Node::I1(false)
    }
}

/// The leaf text splits at its last `_`, at position `k`, into a literal
/// and a kind.
pub open spec fn splits_at(op: Seq<char>, k: int) -> bool {
    &&& 0 <= k < op.len()
    &&& op[k] == '_'
    &&& forall|j: int| k < j < op.len() ==> op[j] != '_'
}

/// The result of reading one node from its operator text and children.
pub open spec fn parse_spec(op: Seq<char>, ch: Seq<usize>, ctr: u64) -> Result<Node, ParseError> {
    match keyword_arity(op) {
        Some(a) => if ch.len() == a {
            Ok(keyword_node(op, ch, ctr))
        } else {
            Err(ParseError::WrongArity)
        },
        None => if exists|k: int| splits_at(op, k) {
            let k = choose|k: int| splits_at(op, k);
            let val = op.subrange(0, k);
            let ty = op.subrange(k + 1, op.len() as int);
            if ty == seq!['i', '6', '4'] {
                match i64_of_text(val) {
                    Some(i) => if ch.len() == 0 {
                        Ok(Node::I64(i))
                    } else {
                        Err(ParseError::WrongArity)
                    },
                    None => Err(ParseError::BadInteger),
                }
            } else if ty == seq!['v'] {
                if ch.len() == 0 {
                    Ok(Node::Var(val))
                } else {
                    Err(ParseError::WrongArity)
                }
            } else if ty == seq!['a', 'l', 'l', 'o', 'c', 'a'] {
                match u64_of_text(val) {
                    Some(k) => if ch.len() == 0 {
                        Ok(Node::Alloca(k))
                    } else {
                        Err(ParseError::WrongArity)
                    },
                    None => Err(ParseError::BadInteger),
                }
            } else {
                Err(ParseError::UnknownOperator)
            }
        } else {
            Err(ParseError::IllFormedValue)
        },
    }
}

/// Printing a node and reading it back over the same children gives the
/// same node, for every kind: a leaf's literal, name or allocation-site
/// identifier is kept, since a leaf splits at its last `_`.
pub proof fn lemma_print_parse_round_trip(n: Node, ctr: u64)
    ensures
        parse_spec(op_spec(n), n.children(), ctr) == Ok::<Node, ParseError>(n),
{
    match n {
        Node::I64(i) => lemma_int_leaf_round_trip(i, ctr),
        Node::Var(v) => lemma_var_leaf_round_trip(v, ctr),
        Node::Alloca(a) => lemma_alloca_leaf_round_trip(a, ctr),
        _ => lemma_keyword_round_trip(n, ctr),
    }
}

proof fn lemma_int_leaf_round_trip(i: i64, ctr: u64)
    ensures
        parse_spec(op_spec(Node::I64(i)), seq![], ctr) == Ok::<Node, ParseError>(Node::I64(i)),
{
    let op = op_spec(Node::I64(i));
    crate::text::lemma_int_text_round_trip(i as int);
    let it = int_text(i as int);
    if i < 0 {
        crate::text::lemma_nat_text_digits((-i) as nat);
    } else {
        crate::text::lemma_nat_text_digits(i as nat);
    }
    assert forall|j: int| 0 <= j < it.len() implies it[j] != '_' by {
        if i < 0 && j > 0 {
            assert(it[j] == crate::text::nat_text((-i) as nat)[j - 1]);
        }
    }
    let k = it.len() as int;
    assert(op[k] == '_');
    assert(splits_at(op, k));
    assert forall|k2: int| splits_at(op, k2) implies k2 == k by {
        if k2 < k {
            assert(op[k] == '_');
        }
    }
    assert(op.subrange(0, k) =~= it);
    assert(op.subrange(k + 1, op.len() as int) =~= seq!['i', '6', '4']);
    assert(keyword_arity(op) is None);
    assert(i64_of_text(it) == Some(i));
}

proof fn lemma_var_leaf_round_trip(v: Seq<char>, ctr: u64)
    ensures
        parse_spec(op_spec(Node::Var(v)), seq![], ctr) == Ok::<Node, ParseError>(Node::Var(v)),
{
    let op = op_spec(Node::Var(v));
    let k = v.len() as int;
    assert(op[k] == '_');
    assert(splits_at(op, k));
    assert forall|k2: int| splits_at(op, k2) implies k2 == k by {
        if k2 < k {
            assert(op[k] == '_');
        }
    }
    assert(op.subrange(0, k) =~= v);
    assert(op.subrange(k + 1, op.len() as int) =~= seq!['v']);
    assert(keyword_arity(op) is None);
}

proof fn lemma_alloca_leaf_round_trip(a: u64, ctr: u64)
    ensures
        parse_spec(op_spec(Node::Alloca(a)), seq![], ctr) == Ok::<Node, ParseError>(Node::Alloca(a)),
{
    let op = op_spec(Node::Alloca(a));
    crate::text::lemma_nat_text_round_trip(a);
    let it = nat_text(a as nat);
    crate::text::lemma_nat_text_digits(a as nat);
    let k = it.len() as int;
    assert(op[k] == '_');
    assert(splits_at(op, k));
    assert forall|k2: int| splits_at(op, k2) implies k2 == k by {
        if k2 < k {
            assert(op[k] == '_');
            assert(crate::text::is_digit(it[k2]));
        }
    }
    assert(op.subrange(0, k) =~= it);
    assert(op.subrange(k + 1, op.len() as int) =~= seq!['a', 'l', 'l', 'o', 'c', 'a']);
    assert(keyword_arity(op) is None);
}

proof fn lemma_keyword_round_trip(n: Node, ctr: u64)
    requires
        !(n is I64 || n is Var || n is Alloca),
    ensures
        parse_spec(op_spec(n), n.children(), ctr) == Ok::<Node, ParseError>(n),
{
    let op = op_spec(n);
    match n {
        Node::Add(..) => {

            assert(parse_spec(op, n.children(), ctr) == Ok::<Node, ParseError>(n));
        },
        Node::Sub(..) => {
            assert(seq!['-'][0] != seq!['+'][0]);
            assert(parse_spec(op, n.children(), ctr) == Ok::<Node, ParseError>(n));
        },
        Node::Mul(..) => {
            assert(seq!['*'][0] != seq!['+'][0]);
            assert(seq!['*'][0] != seq!['-'][0]);
            assert(parse_spec(op, n.children(), ctr) == Ok::<Node, ParseError>(n));
        },
        Node::BAnd(..) => {
            assert(seq!['&'][0] != seq!['+'][0]);
            assert(seq!['&'][0] != seq!['-'][0]);
            assert(seq!['&'][0] != seq!['*'][0]);
            assert(parse_spec(op, n.children(), ctr) == Ok::<Node, ParseError>(n));
        },
        Node::BOr(..) => {
            assert(seq!['|'][0] != seq!['+'][0]);
            assert(seq!['|'][0] != seq!['-'][0]);
            assert(seq!['|'][0] != seq!['*'][0]);
            assert(seq!['|'][0] != seq!['&'][0]);
            assert(parse_spec(op, n.children(), ctr) == Ok::<Node, ParseError>(n));
        },
        Node::BNot(..) => {
            assert(seq!['~'][0] != seq!['+'][0]);
            assert(seq!['~'][0] != seq!['-'][0]);
            assert(seq!['~'][0] != seq!['*'][0]);
            assert(seq!['~'][0] != seq!['&'][0]);
            assert(seq!['~'][0] != seq!['|'][0]);
            assert(parse_spec(op, n.children(), ctr) == Ok::<Node, ParseError>(n));
        },
        Node::And(..) => {
            assert(seq!['&', '&'].len() != seq!['+'].len());
            assert(seq!['&', '&'].len() != seq!['-'].len());
            assert(seq!['&', '&'].len() != seq!['*'].len());
            assert(seq!['&', '&'].len() != seq!['&'].len());
            assert(seq!['&', '&'].len() != seq!['|'].len());
            assert(seq!['&', '&'].len() != seq!['~'].len());
            assert(parse_spec(op, n.children(), ctr) == Ok::<Node, ParseError>(n));
        },
        Node::Or(..) => {
            assert(seq!['|', '|'].len() != seq!['+'].len());
            assert(seq!['|', '|'].len() != seq!['-'].len());
            assert(seq!['|', '|'].len() != seq!['*'].len());
            assert(seq!['|', '|'].len() != seq!['&'].len());
            assert(seq!['|', '|'].len() != seq!['|'].len());
            assert(seq!['|', '|'].len() != seq!['~'].len());
            assert(seq!['|', '|'][0] != seq!['&', '&'][0]);
            assert(parse_spec(op, n.children(), ctr) == Ok::<Node, ParseError>(n));
        },
        Node::Not(..) => {
            assert(seq!['!'][0] != seq!['+'][0]);
            assert(seq!['!'][0] != seq!['-'][0]);
            assert(seq!['!'][0] != seq!['*'][0]);
            assert(seq!['!'][0] != seq!['&'][0]);
            assert(seq!['!'][0] != seq!['|'][0]);
            assert(seq!['!'][0] != seq!['~'][0]);
            assert(seq!['!'].len() != seq!['&', '&'].len());
            assert(seq!['!'].len() != seq!['|', '|'].len());
            assert(parse_spec(op, n.children(), ctr) == Ok::<Node, ParseError>(n));
        },
        Node::Phi(..) => {
            assert(seq!['p', 'h', 'i'].len() != seq!['+'].len());
            assert(seq!['p', 'h', 'i'].len() != seq!['-'].len());
            assert(seq!['p', 'h', 'i'].len() != seq!['*'].len());
            assert(seq!['p', 'h', 'i'].len() != seq!['&'].len());
            assert(seq!['p', 'h', 'i'].len() != seq!['|'].len());
            assert(seq!['p', 'h', 'i'].len() != seq!['~'].len());
            assert(seq!['p', 'h', 'i'].len() != seq!['&', '&'].len());
            assert(seq!['p', 'h', 'i'].len() != seq!['|', '|'].len());
            assert(seq!['p', 'h', 'i'].len() != seq!['!'].len());
            assert(seq!['p', 'h', 'i'].len() != seq!['=', '='].len());
            assert(seq!['p', 'h', 'i'].len() != seq!['!', '='].len());
            assert(seq!['p', 'h', 'i'].len() != seq!['<'].len());
            assert(seq!['p', 'h', 'i'].len() != seq!['>'].len());
            assert(seq!['p', 'h', 'i'].len() != seq!['<', '='].len());
            assert(seq!['p', 'h', 'i'].len() != seq!['>', '='].len());
            assert(parse_spec(op, n.children(), ctr) == Ok::<Node, ParseError>(n));
        },
        Node::Ptr(..) => {
            assert(seq!['p', 't', 'r'].len() != seq!['+'].len());
            assert(seq!['p', 't', 'r'].len() != seq!['-'].len());
            assert(seq!['p', 't', 'r'].len() != seq!['*'].len());
            assert(seq!['p', 't', 'r'].len() != seq!['&'].len());
            assert(seq!['p', 't', 'r'].len() != seq!['|'].len());
            assert(seq!['p', 't', 'r'].len() != seq!['~'].len());
            assert(seq!['p', 't', 'r'].len() != seq!['&', '&'].len());
            assert(seq!['p', 't', 'r'].len() != seq!['|', '|'].len());
            assert(seq!['p', 't', 'r'].len() != seq!['!'].len());
            assert(seq!['p', 't', 'r'].len() != seq!['=', '='].len());
            assert(seq!['p', 't', 'r'].len() != seq!['!', '='].len());
            assert(seq!['p', 't', 'r'].len() != seq!['<'].len());
            assert(seq!['p', 't', 'r'].len() != seq!['>'].len());
            assert(seq!['p', 't', 'r'].len() != seq!['<', '='].len());
            assert(seq!['p', 't', 'r'].len() != seq!['>', '='].len());
            assert(seq!['p', 't', 'r'][1] != seq!['p', 'h', 'i'][1]);
            assert(seq!['p', 't', 'r'].len() != seq!['a', 'l', 'l', 'o', 'c', 'a'].len());
            assert(parse_spec(op, n.children(), ctr) == Ok::<Node, ParseError>(n));
        },
        Node::Load(..) => {
            assert(seq!['l', 'o', 'a', 'd'].len() != seq!['+'].len());
            assert(seq!['l', 'o', 'a', 'd'].len() != seq!['-'].len());
            assert(seq!['l', 'o', 'a', 'd'].len() != seq!['*'].len());
            assert(seq!['l', 'o', 'a', 'd'].len() != seq!['&'].len());
            assert(seq!['l', 'o', 'a', 'd'].len() != seq!['|'].len());
            assert(seq!['l', 'o', 'a', 'd'].len() != seq!['~'].len());
            assert(seq!['l', 'o', 'a', 'd'].len() != seq!['&', '&'].len());
            assert(seq!['l', 'o', 'a', 'd'].len() != seq!['|', '|'].len());
            assert(seq!['l', 'o', 'a', 'd'].len() != seq!['!'].len());
            assert(seq!['l', 'o', 'a', 'd'].len() != seq!['=', '='].len());
            assert(seq!['l', 'o', 'a', 'd'].len() != seq!['!', '='].len());
            assert(seq!['l', 'o', 'a', 'd'].len() != seq!['<'].len());
            assert(seq!['l', 'o', 'a', 'd'].len() != seq!['>'].len());
            assert(seq!['l', 'o', 'a', 'd'].len() != seq!['<', '='].len());
            assert(seq!['l', 'o', 'a', 'd'].len() != seq!['>', '='].len());
            assert(seq!['l', 'o', 'a', 'd'].len() != seq!['p', 'h', 'i'].len());
            assert(seq!['l', 'o', 'a', 'd'].len() != seq!['a', 'l', 'l', 'o', 'c', 'a'].len());
            assert(seq!['l', 'o', 'a', 'd'].len() != seq!['p', 't', 'r'].len());
            assert(parse_spec(op, n.children(), ctr) == Ok::<Node, ParseError>(n));
        },
        Node::Store(..) => {
            assert(seq!['s', 't', 'o', 'r', 'e'].len() != seq!['+'].len());
            assert(seq!['s', 't', 'o', 'r', 'e'].len() != seq!['-'].len());
            assert(seq!['s', 't', 'o', 'r', 'e'].len() != seq!['*'].len());
            assert(seq!['s', 't', 'o', 'r', 'e'].len() != seq!['&'].len());
            assert(seq!['s', 't', 'o', 'r', 'e'].len() != seq!['|'].len());
            assert(seq!['s', 't', 'o', 'r', 'e'].len() != seq!['~'].len());
            assert(seq!['s', 't', 'o', 'r', 'e'].len() != seq!['&', '&'].len());
            assert(seq!['s', 't', 'o', 'r', 'e'].len() != seq!['|', '|'].len());
            assert(seq!['s', 't', 'o', 'r', 'e'].len() != seq!['!'].len());
            assert(seq!['s', 't', 'o', 'r', 'e'].len() != seq!['=', '='].len());
            assert(seq!['s', 't', 'o', 'r', 'e'].len() != seq!['!', '='].len());
            assert(seq!['s', 't', 'o', 'r', 'e'].len() != seq!['<'].len());
            assert(seq!['s', 't', 'o', 'r', 'e'].len() != seq!['>'].len());
            assert(seq!['s', 't', 'o', 'r', 'e'].len() != seq!['<', '='].len());
            assert(seq!['s', 't', 'o', 'r', 'e'].len() != seq!['>', '='].len());
            assert(seq!['s', 't', 'o', 'r', 'e'].len() != seq!['p', 'h', 'i'].len());
            assert(seq!['s', 't', 'o', 'r', 'e'].len() != seq!['a', 'l', 'l', 'o', 'c', 'a'].len());
            assert(seq!['s', 't', 'o', 'r', 'e'].len() != seq!['p', 't', 'r'].len());
            assert(seq!['s', 't', 'o', 'r', 'e'].len() != seq!['l', 'o', 'a', 'd'].len());
            assert(parse_spec(op, n.children(), ctr) == Ok::<Node, ParseError>(n));
        },
        Node::I1(b) => {
            if b {
                assert(seq!['t', 'r', 'u', 'e'].len() != seq!['+'].len());
                assert(seq!['t', 'r', 'u', 'e'].len() != seq!['-'].len());
                assert(seq!['t', 'r', 'u', 'e'].len() != seq!['*'].len());
                assert(seq!['t', 'r', 'u', 'e'].len() != seq!['&'].len());
                assert(seq!['t', 'r', 'u', 'e'].len() != seq!['|'].len());
                assert(seq!['t', 'r', 'u', 'e'].len() != seq!['~'].len());
                assert(seq!['t', 'r', 'u', 'e'].len() != seq!['&', '&'].len());
                assert(seq!['t', 'r', 'u', 'e'].len() != seq!['|', '|'].len());
                assert(seq!['t', 'r', 'u', 'e'].len() != seq!['!'].len());
                assert(seq!['t', 'r', 'u', 'e'].len() != seq!['=', '='].len());
                assert(seq!['t', 'r', 'u', 'e'].len() != seq!['!', '='].len());
                assert(seq!['t', 'r', 'u', 'e'].len() != seq!['<'].len());
                assert(seq!['t', 'r', 'u', 'e'].len() != seq!['>'].len());
                assert(seq!['t', 'r', 'u', 'e'].len() != seq!['<', '='].len());
                assert(seq!['t', 'r', 'u', 'e'].len() != seq!['>', '='].len());
                assert(seq!['t', 'r', 'u', 'e'].len() != seq!['p', 'h', 'i'].len());
                assert(seq!['t', 'r', 'u', 'e'].len() != seq!['a', 'l', 'l', 'o', 'c', 'a'].len());
                assert(seq!['t', 'r', 'u', 'e'].len() != seq!['p', 't', 'r'].len());
                assert(seq!['t', 'r', 'u', 'e'][0] != seq!['l', 'o', 'a', 'd'][0]);
                assert(seq!['t', 'r', 'u', 'e'].len() != seq!['s', 't', 'o', 'r', 'e'].len());
            } else {
                assert(seq!['f', 'a', 'l', 's', 'e'].len() != seq!['+'].len());
                assert(seq!['f', 'a', 'l', 's', 'e'].len() != seq!['-'].len());
                assert(seq!['f', 'a', 'l', 's', 'e'].len() != seq!['*'].len());
                assert(seq!['f', 'a', 'l', 's', 'e'].len() != seq!['&'].len());
                assert(seq!['f', 'a', 'l', 's', 'e'].len() != seq!['|'].len());
                assert(seq!['f', 'a', 'l', 's', 'e'].len() != seq!['~'].len());
                assert(seq!['f', 'a', 'l', 's', 'e'].len() != seq!['&', '&'].len());
                assert(seq!['f', 'a', 'l', 's', 'e'].len() != seq!['|', '|'].len());
                assert(seq!['f', 'a', 'l', 's', 'e'].len() != seq!['!'].len());
                assert(seq!['f', 'a', 'l', 's', 'e'].len() != seq!['=', '='].len());
                assert(seq!['f', 'a', 'l', 's', 'e'].len() != seq!['!', '='].len());
                assert(seq!['f', 'a', 'l', 's', 'e'].len() != seq!['<'].len());
                assert(seq!['f', 'a', 'l', 's', 'e'].len() != seq!['>'].len());
                assert(seq!['f', 'a', 'l', 's', 'e'].len() != seq!['<', '='].len());
                assert(seq!['f', 'a', 'l', 's', 'e'].len() != seq!['>', '='].len());
                assert(seq!['f', 'a', 'l', 's', 'e'].len() != seq!['p', 'h', 'i'].len());
                assert(seq!['f', 'a', 'l', 's', 'e'].len() != seq!['a', 'l', 'l', 'o', 'c', 'a'].len());
                assert(seq!['f', 'a', 'l', 's', 'e'].len() != seq!['p', 't', 'r'].len());
                assert(seq!['f', 'a', 'l', 's', 'e'].len() != seq!['l', 'o', 'a', 'd'].len());
                assert(seq!['f', 'a', 'l', 's', 'e'][0] != seq!['s', 't', 'o', 'r', 'e'][0]);
                assert(seq!['f', 'a', 'l', 's', 'e'].len() != seq!['t', 'r', 'u', 'e'].len());
            }
            assert(parse_spec(op, n.children(), ctr) == Ok::<Node, ParseError>(n));
        },
        Node::ICmp(c, ..) => {
            match c {
                Cond::Eq => {
                    assert(seq!['=', '='].len() != seq!['+'].len());
                    assert(seq!['=', '='].len() != seq!['-'].len());
                    assert(seq!['=', '='].len() != seq!['*'].len());
                    assert(seq!['=', '='].len() != seq!['&'].len());
                    assert(seq!['=', '='].len() != seq!['|'].len());
                    assert(seq!['=', '='].len() != seq!['~'].len());
                    assert(seq!['=', '='][0] != seq!['&', '&'][0]);
                    assert(seq!['=', '='][0] != seq!['|', '|'][0]);
                    assert(seq!['=', '='].len() != seq!['!'].len());
                },
                Cond::Neq => {
                    assert(seq!['!', '='].len() != seq!['+'].len());
                    assert(seq!['!', '='].len() != seq!['-'].len());
                    assert(seq!['!', '='].len() != seq!['*'].len());
                    assert(seq!['!', '='].len() != seq!['&'].len());
                    assert(seq!['!', '='].len() != seq!['|'].len());
                    assert(seq!['!', '='].len() != seq!['~'].len());
                    assert(seq!['!', '='][0] != seq!['&', '&'][0]);
                    assert(seq!['!', '='][0] != seq!['|', '|'][0]);
                    assert(seq!['!', '='].len() != seq!['!'].len());
                    assert(seq!['!', '='][0] != seq!['=', '='][0]);
                },
                Cond::Lt => {
                    assert(seq!['<'][0] != seq!['+'][0]);
                    assert(seq!['<'][0] != seq!['-'][0]);
                    assert(seq!['<'][0] != seq!['*'][0]);
                    assert(seq!['<'][0] != seq!['&'][0]);
                    assert(seq!['<'][0] != seq!['|'][0]);
                    assert(seq!['<'][0] != seq!['~'][0]);
                    assert(seq!['<'].len() != seq!['&', '&'].len());
                    assert(seq!['<'].len() != seq!['|', '|'].len());
                    assert(seq!['<'][0] != seq!['!'][0]);
                    assert(seq!['<'].len() != seq!['=', '='].len());
                    assert(seq!['<'].len() != seq!['!', '='].len());
                },
                Cond::Gt => {
                    assert(seq!['>'][0] != seq!['+'][0]);
                    assert(seq!['>'][0] != seq!['-'][0]);
                    assert(seq!['>'][0] != seq!['*'][0]);
                    assert(seq!['>'][0] != seq!['&'][0]);
                    assert(seq!['>'][0] != seq!['|'][0]);
                    assert(seq!['>'][0] != seq!['~'][0]);
                    assert(seq!['>'].len() != seq!['&', '&'].len());
                    assert(seq!['>'].len() != seq!['|', '|'].len());
                    assert(seq!['>'][0] != seq!['!'][0]);
                    assert(seq!['>'].len() != seq!['=', '='].len());
                    assert(seq!['>'].len() != seq!['!', '='].len());
                    assert(seq!['>'][0] != seq!['<'][0]);
                },
                Cond::Leq => {
                    assert(seq!['<', '='].len() != seq!['+'].len());
                    assert(seq!['<', '='].len() != seq!['-'].len());
                    assert(seq!['<', '='].len() != seq!['*'].len());
                    assert(seq!['<', '='].len() != seq!['&'].len());
                    assert(seq!['<', '='].len() != seq!['|'].len());
                    assert(seq!['<', '='].len() != seq!['~'].len());
                    assert(seq!['<', '='][0] != seq!['&', '&'][0]);
                    assert(seq!['<', '='][0] != seq!['|', '|'][0]);
                    assert(seq!['<', '='].len() != seq!['!'].len());
                    assert(seq!['<', '='][0] != seq!['=', '='][0]);
                    assert(seq!['<', '='][0] != seq!['!', '='][0]);
                    assert(seq!['<', '='].len() != seq!['<'].len());
                    assert(seq!['<', '='].len() != seq!['>'].len());
                },
                Cond::Geq => {
                    assert(seq!['>', '='].len() != seq!['+'].len());
                    assert(seq!['>', '='].len() != seq!['-'].len());
                    assert(seq!['>', '='].len() != seq!['*'].len());
                    assert(seq!['>', '='].len() != seq!['&'].len());
                    assert(seq!['>', '='].len() != seq!['|'].len());
                    assert(seq!['>', '='].len() != seq!['~'].len());
                    assert(seq!['>', '='][0] != seq!['&', '&'][0]);
                    assert(seq!['>', '='][0] != seq!['|', '|'][0]);
                    assert(seq!['>', '='].len() != seq!['!'].len());
                    assert(seq!['>', '='][0] != seq!['=', '='][0]);
                    assert(seq!['>', '='][0] != seq!['!', '='][0]);
                    assert(seq!['>', '='].len() != seq!['<'].len());
                    assert(seq!['>', '='].len() != seq!['>'].len());
                    assert(seq!['>', '='][0] != seq!['<', '='][0]);
                },
            }
            assert(parse_spec(op, n.children(), ctr) == Ok::<Node, ParseError>(n));
        },
        _ => {},
    }
}

impl Lang {
    /// The children of this node, in order.
    pub fn children(&self) -> (r: Vec<usize>)
        ensures
            r@ == self@.children(),
    {
        match self {
            Lang::Add(o) | Lang::Sub(o) | Lang::Mul(o) | Lang::BAnd(o) | Lang::BOr(o)
            | Lang::And(o) | Lang::Or(o) | Lang::ICmp(_, o) | Lang::Load(o) => vec![o[0], o[1]],
            Lang::BNot(a) | Lang::Not(a) | Lang::Ptr(a) => vec![*a],
            Lang::Phi(o) | Lang::Store(o) => vec![o[0], o[1], o[2]],
            Lang::Alloca(_) | Lang::I1(_) | Lang::I64(_) | Lang::Var(_) => vec![],
        }
    }

    /// Whether two nodes are candidates for matching: the same kind and the
    /// same predicate, literal, name or allocation-site identifier.
    pub fn matches(&self, other: &Lang) -> (r: bool)
        ensures
            r == self@.same_shape(other@),
    {
        match (self, other) {
            (Lang::Add(_), Lang::Add(_)) => true,
            (Lang::Sub(_), Lang::Sub(_)) => true,
            (Lang::Mul(_), Lang::Mul(_)) => true,
            (Lang::BAnd(_), Lang::BAnd(_)) => true,
            (Lang::BOr(_), Lang::BOr(_)) => true,
            (Lang::BNot(_), Lang::BNot(_)) => true,
            (Lang::And(_), Lang::And(_)) => true,
            (Lang::Or(_), Lang::Or(_)) => true,
            (Lang::Not(_), Lang::Not(_)) => true,
            (Lang::ICmp(a, _), Lang::ICmp(b, _)) => *a == *b,
            (Lang::Phi(_), Lang::Phi(_)) => true,
            (Lang::Ptr(_), Lang::Ptr(_)) => true,
            (Lang::Load(_), Lang::Load(_)) => true,
            (Lang::Store(_), Lang::Store(_)) => true,
            (Lang::I1(a), Lang::I1(b)) => *a == *b,
            (Lang::I64(a), Lang::I64(b)) => *a == *b,
            (Lang::Var(a), Lang::Var(b)) => a.eq(b),
            (Lang::Alloca(a), Lang::Alloca(b)) => *a == *b,
            _ => false,
        }
    }

    /// The text of this node's kind (see `op_spec`).
    pub fn op_text(&self) -> (r: String)
        ensures
            r@ == op_spec(self@),
    {
        let mut out = String::new();
        let word: &str = match self {
            Lang::Add(_) => "+",
            Lang::Sub(_) => "-",
            Lang::Mul(_) => "*",
            Lang::BAnd(_) => "&",
            Lang::BOr(_) => "|",
            Lang::BNot(_) => "~",
            Lang::And(_) => "&&",
            Lang::Or(_) => "||",
            Lang::Not(_) => "!",
            Lang::ICmp(c, _) => match c {
                Cond::Eq => "==",
                Cond::Neq => "!=",
                Cond::Lt => "<",
                Cond::Gt => ">",
                Cond::Leq => "<=",
                Cond::Geq => ">=",
            },
            Lang::Phi(_) => "phi",
            Lang::Alloca(k) => {
                push_nat_text(&mut out, *k);
                "_alloca"
            },
            Lang::Ptr(_) => "ptr",
            Lang::Load(_) => "load",
            Lang::Store(_) => "store",
            Lang::I1(b) => if *b { "true" } else { "false" },
            Lang::I64(i) => {
                push_int_text(&mut out, *i);
                "_i64"
            },
            Lang::Var(v) => {
                out.append(v.as_str());
                "_v"
            },
        };
        proof {
        reveal_strlit("+");
        assert("+"@ =~= seq!['+']);
        reveal_strlit("-");
        assert("-"@ =~= seq!['-']);
        reveal_strlit("*");
        assert("*"@ =~= seq!['*']);
        reveal_strlit("&");
        assert("&"@ =~= seq!['&']);
        reveal_strlit("|");
        assert("|"@ =~= seq!['|']);
        reveal_strlit("~");
        assert("~"@ =~= seq!['~']);
        reveal_strlit("&&");
        assert("&&"@ =~= seq!['&', '&']);
        reveal_strlit("||");
        assert("||"@ =~= seq!['|', '|']);
        reveal_strlit("!");
        assert("!"@ =~= seq!['!']);
        reveal_strlit("==");
        assert("=="@ =~= seq!['=', '=']);
        reveal_strlit("!=");
        assert("!="@ =~= seq!['!', '=']);
        reveal_strlit("<");
        assert("<"@ =~= seq!['<']);
        reveal_strlit(">");
        assert(">"@ =~= seq!['>']);
        reveal_strlit("<=");
        assert("<="@ =~= seq!['<', '=']);
        reveal_strlit(">=");
        assert(">="@ =~= seq!['>', '=']);
        reveal_strlit("phi");
        assert("phi"@ =~= seq!['p', 'h', 'i']);
        reveal_strlit("alloca");
        assert("alloca"@ =~= seq!['a', 'l', 'l', 'o', 'c', 'a']);
        reveal_strlit("ptr");
        assert("ptr"@ =~= seq!['p', 't', 'r']);
        reveal_strlit("load");
        assert("load"@ =~= seq!['l', 'o', 'a', 'd']);
        reveal_strlit("store");
        assert("store"@ =~= seq!['s', 't', 'o', 'r', 'e']);
        reveal_strlit("true");
        assert("true"@ =~= seq!['t', 'r', 'u', 'e']);
        reveal_strlit("false");
        assert("false"@ =~= seq!['f', 'a', 'l', 's', 'e']);
            reveal_strlit("_i64");
            reveal_strlit("_alloca");
            assert("_alloca"@ =~= seq!['_', 'a', 'l', 'l', 'o', 'c', 'a']);
            assert("_i64"@ =~= seq!['_', 'i', '6', '4']);
            reveal_strlit("_v");
            assert("_v"@ =~= seq!['_', 'v']);
        }
        out.append(word);
        out
    }
}

/// Reads one node from its operator text and its children. The bare word
/// `alloca` makes a new allocation site, which takes the identifier
/// `alloc_ctr`; the counter then advances. A printed site `k_alloca` reads
/// back as site `k`.
pub fn from_op(op: &str, children: &[usize], alloc_ctr: &mut u64) -> (r: Result<Lang, ParseError>)
    requires
        *old(alloc_ctr) < u64::MAX,
    ensures
        match parse_spec(op@, children@, *old(alloc_ctr)) {
            Ok(n) => r matches Ok(m) && m@ == n,
            Err(e) => r == Err::<Lang, ParseError>(e),
        },
        *final(alloc_ctr) == if op@ == seq!['a', 'l', 'l', 'o', 'c', 'a'] && children@.len() == 0 {
            *old(alloc_ctr) + 1
        } else {
            *old(alloc_ctr) as int
        },
{
    proof {
        reveal_strlit("+");
        assert("+"@ =~= seq!['+']);
        reveal_strlit("-");
        assert("-"@ =~= seq!['-']);
        reveal_strlit("*");
        assert("*"@ =~= seq!['*']);
        reveal_strlit("&");
        assert("&"@ =~= seq!['&']);
        reveal_strlit("|");
        assert("|"@ =~= seq!['|']);
        reveal_strlit("~");
        assert("~"@ =~= seq!['~']);
        reveal_strlit("&&");
        assert("&&"@ =~= seq!['&', '&']);
        reveal_strlit("||");
        assert("||"@ =~= seq!['|', '|']);
        reveal_strlit("!");
        assert("!"@ =~= seq!['!']);
        reveal_strlit("==");
        assert("=="@ =~= seq!['=', '=']);
        reveal_strlit("!=");
        assert("!="@ =~= seq!['!', '=']);
        reveal_strlit("<");
        assert("<"@ =~= seq!['<']);
        reveal_strlit(">");
        assert(">"@ =~= seq!['>']);
        reveal_strlit("<=");
        assert("<="@ =~= seq!['<', '=']);
        reveal_strlit(">=");
        assert(">="@ =~= seq!['>', '=']);
        reveal_strlit("phi");
        assert("phi"@ =~= seq!['p', 'h', 'i']);
        reveal_strlit("alloca");
        assert("alloca"@ =~= seq!['a', 'l', 'l', 'o', 'c', 'a']);
        reveal_strlit("ptr");
        assert("ptr"@ =~= seq!['p', 't', 'r']);
        reveal_strlit("load");
        assert("load"@ =~= seq!['l', 'o', 'a', 'd']);
        reveal_strlit("store");
        assert("store"@ =~= seq!['s', 't', 'o', 'r', 'e']);
        reveal_strlit("true");
        assert("true"@ =~= seq!['t', 'r', 'u', 'e']);
        reveal_strlit("false");
        assert("false"@ =~= seq!['f', 'a', 'l', 's', 'e']);
        reveal_strlit("i64");
        assert("i64"@ =~= seq!['i', '6', '4']);
        reveal_strlit("v");
        assert("v"@ =~= seq!['v']);
    }
    if text_eq(op, "+") {
        if children.len() != 2 {
            return Err(ParseError::WrongArity);
        }
        return Ok(Lang::Add([children[0], children[1]]));
    }
    if text_eq(op, "-") {
        if children.len() != 2 {
            return Err(ParseError::WrongArity);
        }
        return Ok(Lang::Sub([children[0], children[1]]));
    }
    if text_eq(op, "*") {
        if children.len() != 2 {
            return Err(ParseError::WrongArity);
        }
        return Ok(Lang::Mul([children[0], children[1]]));
    }
    if text_eq(op, "&") {
        if children.len() != 2 {
            return Err(ParseError::WrongArity);
        }
        return Ok(Lang::BAnd([children[0], children[1]]));
    }
    if text_eq(op, "|") {
        if children.len() != 2 {
            return Err(ParseError::WrongArity);
        }
        return Ok(Lang::BOr([children[0], children[1]]));
    }
    if text_eq(op, "~") {
        proof {
            assert(op@ =~= seq!['~']);
            assert(op@[0] == '~');
            assert(keyword_arity(op@) == Some(1nat));
            assert(keyword_node(op@, children@, *old(alloc_ctr)) == Node::BNot(children@[0]));
        }
        if children.len() != 1 {
            return Err(ParseError::WrongArity);
        }
        return Ok(Lang::BNot(children[0]));
    }
    if text_eq(op, "&&") {
        if children.len() != 2 {
            return Err(ParseError::WrongArity);
        }
        return Ok(Lang::And([children[0], children[1]]));
    }
    if text_eq(op, "||") {
        if children.len() != 2 {
            return Err(ParseError::WrongArity);
        }
        return Ok(Lang::Or([children[0], children[1]]));
    }
    if text_eq(op, "!") {
        proof {
            assert(op@ =~= seq!['!']);
            assert(op@[0] == '!');
            assert(keyword_arity(op@) == Some(1nat));
            assert(keyword_node(op@, children@, *old(alloc_ctr)) == Node::Not(children@[0]));
        }
        if children.len() != 1 {
            return Err(ParseError::WrongArity);
        }
        return Ok(Lang::Not(children[0]));
    }
    if text_eq(op, "==") {
        if children.len() != 2 {
            return Err(ParseError::WrongArity);
        }
        return Ok(Lang::ICmp(Cond::Eq, [children[0], children[1]]));
    }
    if text_eq(op, "!=") {
        if children.len() != 2 {
            return Err(ParseError::WrongArity);
        }
        return Ok(Lang::ICmp(Cond::Neq, [children[0], children[1]]));
    }
    if text_eq(op, "<") {
        if children.len() != 2 {
            return Err(ParseError::WrongArity);
        }
        return Ok(Lang::ICmp(Cond::Lt, [children[0], children[1]]));
    }
    if text_eq(op, ">") {
        if children.len() != 2 {
            return Err(ParseError::WrongArity);
        }
        return Ok(Lang::ICmp(Cond::Gt, [children[0], children[1]]));
    }
    if text_eq(op, "<=") {
        if children.len() != 2 {
            return Err(ParseError::WrongArity);
        }
        return Ok(Lang::ICmp(Cond::Leq, [children[0], children[1]]));
    }
    if text_eq(op, ">=") {
        if children.len() != 2 {
            return Err(ParseError::WrongArity);
        }
        return Ok(Lang::ICmp(Cond::Geq, [children[0], children[1]]));
    }
    if text_eq(op, "phi") {
        if children.len() != 3 {
            return Err(ParseError::WrongArity);
        }
        return Ok(Lang::Phi([children[0], children[1], children[2]]));
    }
    if text_eq(op, "alloca") {
        if children.len() != 0 {
            return Err(ParseError::WrongArity);
        }
            let id = *alloc_ctr;
            *alloc_ctr = id + 1;
        return Ok(Lang::Alloca(id));
    }
    if text_eq(op, "ptr") {
        if children.len() != 1 {
            return Err(ParseError::WrongArity);
        }
        return Ok(Lang::Ptr(children[0]));
    }
    if text_eq(op, "load") {
        if children.len() != 2 {
            return Err(ParseError::WrongArity);
        }
        return Ok(Lang::Load([children[0], children[1]]));
    }
    if text_eq(op, "store") {
        if children.len() != 3 {
            return Err(ParseError::WrongArity);
        }
        return Ok(Lang::Store([children[0], children[1], children[2]]));
    }
    if text_eq(op, "true") {
        if children.len() != 0 {
            return Err(ParseError::WrongArity);
        }
        return Ok(Lang::I1(true));
    }
    if text_eq(op, "false") {
        if children.len() != 0 {
            return Err(ParseError::WrongArity);
        }
        return Ok(Lang::I1(false));
    }
    parse_leaf(op, children)
}

/// Reads a leaf of the form `literal_kind`, split at its last `_`.
fn parse_leaf(op: &str, children: &[usize]) -> (r: Result<Lang, ParseError>)
    requires
        keyword_arity(op@) is None,
    ensures
        match parse_spec(op@, children@, 0) {
            Ok(n) => r matches Ok(m) && m@ == n,
            Err(e) => r == Err::<Lang, ParseError>(e),
        },
{
    proof {
        reveal_strlit("i64");
        assert("i64"@ =~= seq!['i', '6', '4']);
        reveal_strlit("v");
        assert("v"@ =~= seq!['v']);
        reveal_strlit("alloca");
        assert("alloca"@ =~= seq!['a', 'l', 'l', 'o', 'c', 'a']);
    }
    let n = op.unicode_len();
    let mut i: usize = n;
    let mut found = false;
    while i > 0 && !found
        invariant
            i <= n == op@.len(),
            forall|j: int| i <= j < n ==> op@[j] != '_',
            found ==> i > 0 && op@[i - 1] == '_',
        decreases i, if found { 0int } else { 1int },
    {
        if op.get_char(i - 1) == '_' {
            found = true;
        } else {
            i = i - 1;
        }
    }
    if i == 0 {
        assert(!exists|k: int| splits_at(op@, k)) by {
            assert forall|k: int| !splits_at(op@, k) by {}
        }
        return Err(ParseError::IllFormedValue);
    }
    let k = i - 1;
    assert(splits_at(op@, k as int));
    assert forall|k2: int| splits_at(op@, k2) implies k2 == k by {
        if k2 < k {
            assert(op@[k as int] == '_');
        }
    }
    let val = op.substring_char(0, k);
    let ty = op.substring_char(k + 1, n);
    if text_eq(ty, "i64") {
        match parse_i64(val) {
            Some(v) => {
                if children.len() != 0 {
                    return Err(ParseError::WrongArity);
                }
                Ok(Lang::I64(v))
            },
            None => Err(ParseError::BadInteger),
        }
    } else if text_eq(ty, "v") {
        if children.len() != 0 {
            return Err(ParseError::WrongArity);
        }
        Ok(Lang::Var(String::from_str(val)))
    } else if text_eq(ty, "alloca") {
        match parse_u64(val) {
            Some(a) => {
                if children.len() != 0 {
                    return Err(ParseError::WrongArity);
                }
                Ok(Lang::Alloca(a))
            },
            None => Err(ParseError::BadInteger),
        }
    } else {
        Err(ParseError::UnknownOperator)
    }
}

} // verus!

//! The reference interpreter: evaluates a node of an expression buffer
//! against an environment of variables and a persistent memory store.
use vstd::prelude::*;
use crate::lang::{Cond, Lang, Node};
use crate::text::text_eq;

verus! {

/// A value that evaluating an expression can give.
#[derive(Clone, Copy, Debug, PartialEq, Eq, Structural)]
pub enum Value {
    I64(i64),
    I1(bool),
    /// A pointer, named by the position of its pointer node.
    Ptr(usize),
    /// A memory-state token, named by the position of the node that made it.
    Sigma(usize),
}

/// The map that a list of bindings denotes: a later binding of a key hides
/// earlier ones.
pub open spec fn assoc_map<K, V>(s: Seq<(K, V)>) -> Map<K, V>
    decreases s.len(),
{
    if s.len() == 0 {
        Map::empty()
    } else {
        assoc_map(s.drop_last()).insert(s.last().0, s.last().1)
    }
}

/// Where the bindings from `i` on do not bind `k`, the map has for `k`
/// what the first `i` bindings give it.
proof fn lemma_assoc_prefix<K, V>(s: Seq<(K, V)>, i: int, k: K)
    requires
        0 <= i <= s.len(),
        forall|j: int| i <= j < s.len() ==> s[j].0 != k,
    ensures
        assoc_map(s).contains_key(k) == assoc_map(s.subrange(0, i)).contains_key(k),
        assoc_map(s).contains_key(k) ==> assoc_map(s)[k] == assoc_map(s.subrange(0, i))[k],
    decreases s.len(),
{
    if s.len() > i {
        assert(s.drop_last() =~= s.subrange(0, s.len() - 1));
        assert(s.drop_last().subrange(0, i) =~= s.subrange(0, i));
        lemma_assoc_prefix(s.drop_last(), i, k);
    } else {
        assert(s.subrange(0, i) =~= s);
    }
}

/// A mapping from variable names to values.
#[derive(Clone, Debug, Default)]
pub struct Env {
    vars: Vec<(String, Value)>,
}

impl View for Env {
    type V = Map<Seq<char>, Value>;

    closed spec fn view(&self) -> Map<Seq<char>, Value> {
        assoc_map(self.vars@.map_values(|p: (String, Value)| (p.0@, p.1)))
    }
}

impl Env {
    /// An environment that binds nothing.
    pub fn new() -> (r: Env)
        ensures
            r@ == Map::<Seq<char>, Value>::empty(),
    {
        let r = Env { vars: Vec::new() };
        assert(r.vars@.map_values(|p: (String, Value)| (p.0@, p.1)) =~= Seq::empty());
        r
    }

    /// The value bound to `var`, if any.
    pub fn get(&self, var: &str) -> (r: Option<Value>)
        ensures
            r == (if self@.contains_key(var@) {
                Some(self@[var@])
            } else {
                None
            }),
    {
        let ghost s = self.vars@.map_values(|p: (String, Value)| (p.0@, p.1));
        let mut i: usize = self.vars.len();
        while i > 0
            invariant
                i <= self.vars@.len(),
                s == self.vars@.map_values(|p: (String, Value)| (p.0@, p.1)),
                forall|j: int| i <= j < s.len() ==> s[j].0 != var@,
            decreases i,
        {
            i = i - 1;
            if text_eq(self.vars[i].0.as_str(), var) {
                proof {
                    lemma_assoc_prefix(s, i + 1, var@);
                    assert(s.subrange(0, i + 1).drop_last() =~= s.subrange(0, i as int));
                }
                return Some(self.vars[i].1);
            }
        }
        proof {
            lemma_assoc_prefix(s, 0, var@);
        }
        None
    }

    /// Binds `var` to `val`, replacing an earlier binding.
    pub fn set(&mut self, var: String, val: Value)
        ensures
            final(self)@ == old(self)@.insert(var@, val),
    {
        let ghost old_s = self.vars@.map_values(|p: (String, Value)| (p.0@, p.1));
        self.vars.push((var, val));
        assert(self.vars@.map_values(|p: (String, Value)| (p.0@, p.1)).drop_last() =~= old_s);
    }
}

/// The memory: for each (pointer, memory-state token), an optional value. A
/// pointer's entry for its allocation token is registered uninitialized.
#[derive(Clone, Debug, Default)]
pub struct Store {
    cells: Vec<((usize, usize), Option<Value>)>,
}

impl View for Store {
    type V = Map<(usize, usize), Option<Value>>;

    closed spec fn view(&self) -> Map<(usize, usize), Option<Value>> {
        assoc_map(self.cells@)
    }
}

/// The value held at a slot under a memory state, if one was written.
pub open spec fn store_get(st: Map<(usize, usize), Option<Value>>, slot: usize, sigma: usize) -> Option<Value> {
    if st.contains_key((slot, sigma)) {
        st[(slot, sigma)]
    } else {
        None
    }
}

impl Store {
    /// An empty store.
    pub fn new() -> (r: Store)
        ensures
            r@ == Map::<(usize, usize), Option<Value>>::empty(),
    {
        Store { cells: Vec::new() }
    }

    /// The value written at `stack_slot` under the memory state `sigma`.
    pub fn get(&self, stack_slot: usize, sigma: usize) -> (r: Option<Value>)
        ensures
            r == store_get(self@, stack_slot, sigma),
    {
        let mut i: usize = self.cells.len();
        while i > 0
            invariant
                i <= self.cells@.len(),
                forall|j: int| i <= j < self.cells@.len() ==> self.cells@[j].0 != (stack_slot, sigma),
            decreases i,
        {
            i = i - 1;
            let (key, val) = self.cells[i];
            if key.0 == stack_slot && key.1 == sigma {
                proof {
                    lemma_assoc_prefix(self.cells@, i + 1, (stack_slot, sigma));
                    assert(self.cells@.subrange(0, i + 1).drop_last() =~= self.cells@.subrange(0, i as int));
                }
                return val;
            }
        }
        proof {
            lemma_assoc_prefix(self.cells@, 0, (stack_slot, sigma));
        }
        None
    }

    /// Records `val` at `stack_slot` under the memory state `sigma`.
    pub fn set(&mut self, stack_slot: usize, sigma: usize, val: Option<Value>)
        ensures
            final(self)@ == old(self)@.insert((stack_slot, sigma), val),
    {
        self.cells.push(((stack_slot, sigma), val));
        assert(self.cells@.drop_last() =~= old(self).cells@);
    }
}

/// Why an evaluation failed.
#[derive(Clone, Debug, PartialEq, Eq)]
pub enum EvalError {
    /// A variable that the environment does not bind.
    UnboundVariable(String),
    /// An operator applied to values of the wrong kind.
    TypeMismatch,
    /// A conditional merge whose condition is not a boolean.
    NonBooleanCondition,
    /// A memory-state token was expected.
    ExpectedSigma,
    /// A pointer was expected.
    ExpectedPointer,
    /// A load from a slot never written under that memory state.
    UninitializedValue,
    /// A position outside the buffer, or a child that does not come before
    /// its parent.
    BadIndex,
}

/// The mathematical value of an evaluation error.
pub enum Fault {
    UnboundVariable(Seq<char>),
    TypeMismatch,
    NonBooleanCondition,
    ExpectedSigma,
    ExpectedPointer,
    UninitializedValue,
    BadIndex,
}

impl View for EvalError {
    type V = Fault;

    open spec fn view(&self) -> Fault {
        match self {
            EvalError::UnboundVariable(v) => Fault::UnboundVariable(v@),
            EvalError::TypeMismatch => Fault::TypeMismatch,
            EvalError::NonBooleanCondition => Fault::NonBooleanCondition,
            EvalError::ExpectedSigma => Fault::ExpectedSigma,
            EvalError::ExpectedPointer => Fault::ExpectedPointer,
            EvalError::UninitializedValue => Fault::UninitializedValue,
            EvalError::BadIndex => Fault::BadIndex,
        }
    }
}

/// An integer operator: wrapping signed 64-bit arithmetic, or bitwise.
#[derive(Clone, Copy, Debug, PartialEq, Eq, Structural)]
pub enum IntOp {
    Add,
    Sub,
    Mul,
    BAnd,
    BOr,
}

/// A boolean operator.
#[derive(Clone, Copy, Debug, PartialEq, Eq, Structural)]
pub enum BoolOp {
    And,
    Or,
}

pub open spec fn int_op_spec(op: IntOp, l: i64, r: i64) -> i64 {
    match op {
        IntOp::Add => l.wrapping_add(r),
        IntOp::Sub => l.wrapping_sub(r),
        IntOp::Mul => l.wrapping_mul(r),
        IntOp::BAnd => l & r,
        IntOp::BOr => l | r,
    }
}

pub open spec fn bool_op_spec(op: BoolOp, l: bool, r: bool) -> bool {
    match op {
        BoolOp::And => l && r,
        BoolOp::Or => l || r,
    }
}

/// What an integer comparison gives.
pub open spec fn cond_i64_spec(cond: Cond, l: i64, r: i64) -> bool {
    match cond {
        Cond::Eq => l == r,
        Cond::Neq => l != r,
        Cond::Lt => l < r,
        Cond::Leq => l <= r,
        Cond::Gt => l > r,
        Cond::Geq => l >= r,
    }
}

/// Applies an integer operator to two values.
pub open spec fn int_binop_spec(op: IntOp, l: Value, r: Value) -> Result<Value, Fault> {
    match (l, r) {
        (Value::I64(a), Value::I64(b)) => Ok(Value::I64(int_op_spec(op, a, b))),
        _ => Err(Fault::TypeMismatch),
    }
}

/// Applies a boolean operator to two values.
pub open spec fn bool_binop_spec(op: BoolOp, l: Value, r: Value) -> Result<Value, Fault> {
    match (l, r) {
        (Value::I1(a), Value::I1(b)) => Ok(Value::I1(bool_op_spec(op, a, b))),
        _ => Err(Fault::TypeMismatch),
    }
}

/// Compares two values: integers by any predicate, booleans by equality
/// and inequality only.
pub open spec fn compare_spec(cond: Cond, l: Value, r: Value) -> Result<Value, Fault> {
    match (l, r) {
        (Value::I64(a), Value::I64(b)) => Ok(Value::I1(cond_i64_spec(cond, a, b))),
        (Value::I1(a), Value::I1(b)) => match cond {
            Cond::Eq => Ok(Value::I1(a == b)),
            Cond::Neq => Ok(Value::I1(a != b)),
            _ => Err(Fault::TypeMismatch),
        },
        _ => Err(Fault::TypeMismatch),
    }
}

pub type StoreMap = Map<(usize, usize), Option<Value>>;

pub type EnvMap = Map<Seq<char>, Value>;

/// Evaluates child `c` of the node at `i`, which must come before it.
pub open spec fn eval_child(nodes: Seq<Node>, i: int, c: usize, env: EnvMap, st: StoreMap) -> (
    Result<Value, Fault>,
    StoreMap,
)
    decreases i, 0int,
{
    if c < i {
        eval(nodes, c as int, env, st)
    } else {
        (Err(Fault::BadIndex), st)
    }
}

/// Evaluates two children in turn and combines their values.
pub open spec fn eval_pair(nodes: Seq<Node>, i: int, a: usize, b: usize, env: EnvMap, st: StoreMap) -> (
    Result<(Value, Value), Fault>,
    StoreMap,
)
    decreases i, 1int,
{
    let (x, s1) = eval_child(nodes, i, a, env, st);
    match x {
        Err(e) => (Err(e), s1),
        Ok(xv) => {
            let (y, s2) = eval_child(nodes, i, b, env, s1);
            match y {
                Err(e) => (Err(e), s2),
                Ok(yv) => (Ok((xv, yv)), s2),
            }
        },
    }
}

/// The result of evaluating the node at position `i`, and the store after.
pub open spec fn eval(nodes: Seq<Node>, i: int, env: EnvMap, st: StoreMap) -> (
    Result<Value, Fault>,
    StoreMap,
)
    decreases i, 3int,
{
    if !(0 <= i < nodes.len()) {
        (Err(Fault::BadIndex), st)
    } else {
        match nodes[i] {
            Node::I1(b) => (Ok(Value::I1(b)), st),
            Node::I64(n) => (Ok(Value::I64(n)), st),
            Node::Var(v) => if env.contains_key(v) {
                (Ok(env[v]), st)
            } else {
                (Err(Fault::UnboundVariable(v)), st)
            },
            Node::Add(a, b) => eval_int(nodes, i, IntOp::Add, a, b, env, st),
            Node::Sub(a, b) => eval_int(nodes, i, IntOp::Sub, a, b, env, st),
            Node::Mul(a, b) => eval_int(nodes, i, IntOp::Mul, a, b, env, st),
            Node::BAnd(a, b) => eval_int(nodes, i, IntOp::BAnd, a, b, env, st),
            Node::BOr(a, b) => eval_int(nodes, i, IntOp::BOr, a, b, env, st),
            Node::And(a, b) => eval_bool(nodes, i, BoolOp::And, a, b, env, st),
            Node::Or(a, b) => eval_bool(nodes, i, BoolOp::Or, a, b, env, st),
            Node::ICmp(cond, a, b) => {
                let (p, s2) = eval_pair(nodes, i, a, b, env, st);
                match p {
                    Err(e) => (Err(e), s2),
                    Ok((x, y)) => (compare_spec(cond, x, y), s2),
                }
            },
            Node::Not(a) => {
                let (x, s1) = eval_child(nodes, i, a, env, st);
                match x {
                    Ok(Value::I1(b)) => (Ok(Value::I1(!b)), s1),
                    Ok(_) => (Err(Fault::TypeMismatch), s1),
                    Err(e) => (Err(e), s1),
                }
            },
            Node::BNot(a) => {
                let (x, s1) = eval_child(nodes, i, a, env, st);
                match x {
                    Ok(Value::I64(n)) => (Ok(Value::I64(!n)), s1),
                    Ok(_) => (Err(Fault::TypeMismatch), s1),
                    Err(e) => (Err(e), s1),
                }
            },
            Node::Phi(c, t, f) => {
                let (x, s1) = eval_child(nodes, i, c, env, st);
                match x {
                    Ok(Value::I1(true)) => eval_child(nodes, i, t, env, s1),
                    Ok(Value::I1(false)) => eval_child(nodes, i, f, env, s1),
                    Ok(_) => (Err(Fault::NonBooleanCondition), s1),
                    Err(e) => (Err(e), s1),
                }
            },
            Node::Alloca(_) => (Ok(Value::Sigma(i as usize)), st),
            Node::Ptr(a) => {
                let (x, s1) = eval_child(nodes, i, a, env, st);
                match x {
                    Ok(Value::Sigma(sig)) => (Ok(Value::Ptr(i as usize)), s1.insert((i as usize, sig), None)),
                    Ok(_) => (Err(Fault::ExpectedSigma), s1),
                    Err(e) => (Err(e), s1),
                }
            },
            Node::Store(v, w, p) => {
                let (x, s1) = eval_child(nodes, i, v, env, st);
                match x {
                    Err(e) => (Err(e), s1),
                    Ok(val) => {
                        let (q, s2) = eval_pair(nodes, i, w, p, env, s1);
                        match q {
                            Err(e) => (Err(e), s2),
                            Ok((Value::Sigma(_), Value::Ptr(ptr))) => (
                                Ok(Value::Sigma(i as usize)),
                                s2.insert((ptr, i as usize), Some(val)),
                            ),
                            Ok((Value::Sigma(_), _)) => (Err(Fault::ExpectedPointer), s2),
                            Ok(_) => (Err(Fault::ExpectedSigma), s2),
                        }
                    },
                }
            },
            Node::Load(w, p) => {
                let (q, s2) = eval_pair(nodes, i, w, p, env, st);
                match q {
                    Err(e) => (Err(e), s2),
                    Ok((Value::Sigma(sig), Value::Ptr(ptr))) => match store_get(s2, ptr, sig) {
                        Some(val) => (Ok(val), s2),
                        None => (Err(Fault::UninitializedValue), s2),
                    },
                    Ok((Value::Sigma(_), _)) => (Err(Fault::ExpectedPointer), s2),
                    Ok(_) => (Err(Fault::ExpectedSigma), s2),
                }
            },
        }
    }
}

pub open spec fn eval_int(nodes: Seq<Node>, i: int, op: IntOp, a: usize, b: usize, env: EnvMap, st: StoreMap) -> (
    Result<Value, Fault>,
    StoreMap,
)
    decreases i, 2int,
{
    let (p, s2) = eval_pair(nodes, i, a, b, env, st);
    match p {
        Err(e) => (Err(e), s2),
        Ok((x, y)) => (int_binop_spec(op, x, y), s2),
    }
}

pub open spec fn eval_bool(nodes: Seq<Node>, i: int, op: BoolOp, a: usize, b: usize, env: EnvMap, st: StoreMap) -> (
    Result<Value, Fault>,
    StoreMap,
)
    decreases i, 2int,
{
    let (p, s2) = eval_pair(nodes, i, a, b, env, st);
    match p {
        Err(e) => (Err(e), s2),
        Ok((x, y)) => (bool_binop_spec(op, x, y), s2),
    }
}

/// Compares two integers.
pub fn eval_cond_i64(cond: Cond, l: i64, r: i64) -> (res: Result<Value, EvalError>)
    ensures
        res == Ok::<Value, EvalError>(Value::I1(cond_i64_spec(cond, l, r))),
{
    Ok(
        Value::I1(
            match cond {
                Cond::Eq => l == r,
                Cond::Neq => l != r,
                Cond::Lt => l < r,
                Cond::Leq => l <= r,
                Cond::Gt => l > r,
                Cond::Geq => l >= r,
            },
        ),
    )
}

/// Compares two booleans: only equality and inequality apply.
pub fn eval_cond_i1(cond: Cond, l: bool, r: bool) -> (res: Result<Value, EvalError>)
    ensures
        match compare_spec(cond, Value::I1(l), Value::I1(r)) {
            Ok(v) => res == Ok::<Value, EvalError>(v),
            Err(f) => res matches Err(e) && e@ == f,
        },
{
    match cond {
        Cond::Eq => Ok(Value::I1(l == r)),
        Cond::Neq => Ok(Value::I1(l != r)),
        _ => Err(EvalError::TypeMismatch),
    }
}

/// Applies an integer operator; both values must be integers.
pub fn i64_binop(op: IntOp, l: Value, r: Value) -> (res: Result<Value, EvalError>)
    ensures
        match int_binop_spec(op, l, r) {
            Ok(v) => res == Ok::<Value, EvalError>(v),
            Err(f) => res matches Err(e) && e@ == f,
        },
{
    match (l, r) {
        (Value::I64(a), Value::I64(b)) => Ok(
            Value::I64(
                match op {
                    IntOp::Add => a.wrapping_add(b),
                    IntOp::Sub => a.wrapping_sub(b),
                    IntOp::Mul => a.wrapping_mul(b),
                    IntOp::BAnd => a & b,
                    IntOp::BOr => a | b,
                },
            ),
        ),
        _ => Err(EvalError::TypeMismatch),
    }
}

/// Applies a boolean operator; both values must be booleans.
pub fn i1_binop(op: BoolOp, l: Value, r: Value) -> (res: Result<Value, EvalError>)
    ensures
        match bool_binop_spec(op, l, r) {
            Ok(v) => res == Ok::<Value, EvalError>(v),
            Err(f) => res matches Err(e) && e@ == f,
        },
{
    match (l, r) {
        (Value::I1(a), Value::I1(b)) => Ok(
            Value::I1(
                match op {
                    BoolOp::And => a && b,
                    BoolOp::Or => a || b,
                },
            ),
        ),
        _ => Err(EvalError::TypeMismatch),
    }
}

/// The nodes of a buffer, as mathematical values.
pub open spec fn node_seq(nodes: Seq<Lang>) -> Seq<Node> {
    nodes.map_values(|n: Lang| n@)
}

/// What an evaluation returns, against its specification: the value, or an
/// error with the same meaning.
pub open spec fn result_matches(r: Result<Value, EvalError>, s: Result<Value, Fault>) -> bool {
    match s {
        Ok(v) => r == Ok::<Value, EvalError>(v),
        Err(f) => r matches Err(e) && e@ == f,
    }
}

/// An expression: a buffer of nodes and the position of its root.
pub struct Expr<'a> {
    expr: &'a [Lang],
    root: usize,
}

impl<'a> Expr<'a> {
    pub closed spec fn nodes(&self) -> Seq<Lang> {
        self.expr@
    }

    pub closed spec fn root_spec(&self) -> usize {
        self.root
    }

    /// The expression rooted at the last node of the buffer.
    pub fn new(expr: &'a [Lang]) -> (r: Self)
        requires
            expr@.len() > 0,
        ensures
            r.nodes() == expr@,
            r.root_spec() == expr@.len() - 1,
    {
        Self { expr, root: expr.len() - 1 }
    }

    /// The expression rooted at the given position of the buffer.
    pub fn with_root(expr: &'a [Lang], root: usize) -> (r: Self)
        ensures
            r.nodes() == expr@,
            r.root_spec() == root,
    {
        Self { expr, root }
    }

    fn reroot(&self, root: usize) -> (r: Self)
        ensures
            r.nodes() == self.nodes(),
            r.root_spec() == root,
    {
        Self { expr: self.expr, root }
    }

    /// Evaluates the root against `env`, reading and extending `st`.
    pub fn interp(&self, env: &Env, st: &mut Store) -> (r: Result<Value, EvalError>)
        ensures
            ({
                let (res, st2) = eval(node_seq(self.nodes()), self.root_spec() as int, env@, old(st)@);
                &&& result_matches(r, res)
                &&& final(st)@ == st2
            }),
        decreases self.root_spec(),
    {
        let ghost nodes = node_seq(self.expr@);
        let ghost i = self.root as int;
        if self.root >= self.expr.len() {
            return Err(EvalError::BadIndex);
        }
        let node = &self.expr[self.root];
        assert(nodes[i] == node@);
        match node {
            Lang::I1(b) => Ok(Value::I1(*b)),
            Lang::I64(n) => Ok(Value::I64(*n)),
            Lang::Var(v) => match env.get(v.as_str()) {
                Some(x) => Ok(x),
                None => Err(EvalError::UnboundVariable(v.clone())),
            },
            Lang::Add(o) => self.interp_int(IntOp::Add, o[0], o[1], env, st),
            Lang::Sub(o) => self.interp_int(IntOp::Sub, o[0], o[1], env, st),
            Lang::Mul(o) => self.interp_int(IntOp::Mul, o[0], o[1], env, st),
            Lang::BAnd(o) => self.interp_int(IntOp::BAnd, o[0], o[1], env, st),
            Lang::BOr(o) => self.interp_int(IntOp::BOr, o[0], o[1], env, st),
            Lang::And(o) => self.interp_bool(BoolOp::And, o[0], o[1], env, st),
            Lang::Or(o) => self.interp_bool(BoolOp::Or, o[0], o[1], env, st),
            Lang::ICmp(cond, o) => self.interp_cond(*cond, o[0], o[1], env, st),
            Lang::Not(a) => {
                let x = self.interp_child(*a, env, st)?;
                match x {
                    Value::I1(b) => Ok(Value::I1(!b)),
                    _ => Err(EvalError::TypeMismatch),
                }
            },
            Lang::BNot(a) => {
                let x = self.interp_child(*a, env, st)?;
                match x {
                    Value::I64(n) => Ok(Value::I64(!n)),
                    _ => Err(EvalError::TypeMismatch),
                }
            },
            Lang::Phi(o) => {
                let c = self.interp_child(o[0], env, st)?;
                match c {
                    Value::I1(true) => self.interp_child(o[1], env, st),
                    Value::I1(false) => self.interp_child(o[2], env, st),
                    _ => Err(EvalError::NonBooleanCondition),
                }
            },
            Lang::Alloca(_) => Ok(Value::Sigma(self.root)),
            Lang::Ptr(a) => {
                let sig = self.interp_child(*a, env, st)?;
                match sig {
                    Value::Sigma(sig) => {
                        st.set(self.root, sig, None);
                        Ok(Value::Ptr(self.root))
                    },
                    _ => Err(EvalError::ExpectedSigma),
                }
            },
            Lang::Store(o) => {
                let val = self.interp_child(o[0], env, st)?;
                let sig = self.interp_child(o[1], env, st)?;
                let ptr = self.interp_child(o[2], env, st)?;
                match (sig, ptr) {
                    (Value::Sigma(_), Value::Ptr(ptr)) => {
                        st.set(ptr, self.root, Some(val));
                        Ok(Value::Sigma(self.root))
                    },
                    (Value::Sigma(_), _) => Err(EvalError::ExpectedPointer),
                    _ => Err(EvalError::ExpectedSigma),
                }
            },
            Lang::Load(o) => {
                let sig = self.interp_child(o[0], env, st)?;
                let ptr = self.interp_child(o[1], env, st)?;
                match (sig, ptr) {
                    (Value::Sigma(sig), Value::Ptr(ptr)) => match st.get(ptr, sig) {
                        Some(v) => Ok(v),
                        None => Err(EvalError::UninitializedValue),
                    },
                    (Value::Sigma(_), _) => Err(EvalError::ExpectedPointer),
                    _ => Err(EvalError::ExpectedSigma),
                }
            },
        }
    }

    /// Evaluates child `c` of the root, which must come before it.
    fn interp_child(&self, c: usize, env: &Env, st: &mut Store) -> (r: Result<Value, EvalError>)
        ensures
            ({
                let (res, st2) = eval_child(node_seq(self.nodes()), self.root_spec() as int, c, env@, old(st)@);
                &&& result_matches(r, res)
                &&& final(st)@ == st2
            }),
        decreases self.root_spec(), 0int,
    {
        if c < self.root {
            self.reroot(c).interp(env, st)
        } else {
            Err(EvalError::BadIndex)
        }
    }

    fn interp_int(&self, op: IntOp, l: usize, r: usize, env: &Env, st: &mut Store) -> (res: Result<Value, EvalError>)
        requires
            self.root < self.nodes().len(),
        ensures
            ({
                let (s, st2) = eval_int(node_seq(self.nodes()), self.root_spec() as int, op, l, r, env@, old(st)@);
                &&& result_matches(res, s)
                &&& final(st)@ == st2
            }),
        decreases self.root_spec(), 1int,
    {
        let l = self.interp_child(l, env, st)?;
        let r = self.interp_child(r, env, st)?;
        i64_binop(op, l, r)
    }

    fn interp_bool(&self, op: BoolOp, l: usize, r: usize, env: &Env, st: &mut Store) -> (res: Result<Value, EvalError>)
        requires
            self.root < self.nodes().len(),
        ensures
            ({
                let (s, st2) = eval_bool(node_seq(self.nodes()), self.root_spec() as int, op, l, r, env@, old(st)@);
                &&& result_matches(res, s)
                &&& final(st)@ == st2
            }),
        decreases self.root_spec(), 1int,
    {
        let l = self.interp_child(l, env, st)?;
        let r = self.interp_child(r, env, st)?;
        i1_binop(op, l, r)
    }

    fn interp_cond(&self, cond: Cond, l: usize, r: usize, env: &Env, st: &mut Store) -> (res: Result<Value, EvalError>)
        requires
            self.root < self.nodes().len(),
            node_seq(self.nodes())[self.root_spec() as int] == Node::ICmp(cond, l, r),
        ensures
            ({
                let (s, st2) = eval(node_seq(self.nodes()), self.root_spec() as int, env@, old(st)@);
                &&& result_matches(res, s)
                &&& final(st)@ == st2
            }),
        decreases self.root_spec(), 1int,
    {
        let l = self.interp_child(l, env, st)?;
        let r = self.interp_child(r, env, st)?;
        match (l, r) {
            (Value::I64(l), Value::I64(r)) => eval_cond_i64(cond, l, r),
            (Value::I1(l), Value::I1(r)) => eval_cond_i1(cond, l, r),
            _ => Err(EvalError::TypeMismatch),
        }
    }
}

/// The store holds the same entry for `(x, y)` before and after.
pub open spec fn cell_kept(before: StoreMap, after: StoreMap, x: usize, y: usize) -> bool {
    &&& after.contains_key((x, y)) == before.contains_key((x, y))
    &&& after.contains_key((x, y)) ==> after[(x, y)] == before[(x, y)]
}

/// Evaluating node `i` writes only cells whose pointer or memory state is
/// named by a position up to `i`.
proof fn lemma_eval_frame(nodes: Seq<Node>, i: int, env: EnvMap, st: StoreMap, x: usize, y: usize)
    requires
        x > i,
        y > i,
    ensures
        cell_kept(st, eval(nodes, i, env, st).1, x, y),
    decreases i, 3int,
{
    if 0 <= i < nodes.len() {
        match nodes[i] {
            Node::Add(a, b) | Node::Sub(a, b) | Node::Mul(a, b) | Node::BAnd(a, b) | Node::BOr(a, b)
            | Node::And(a, b) | Node::Or(a, b) | Node::ICmp(_, a, b) | Node::Load(a, b) => {
                lemma_pair_frame(nodes, i, a, b, env, st, x, y);
            },
            Node::Not(a) | Node::BNot(a) | Node::Ptr(a) => {
                lemma_child_frame(nodes, i, a, env, st, x, y);
            },
            Node::Phi(c, t, f) => {
                lemma_child_frame(nodes, i, c, env, st, x, y);
                let s1 = eval_child(nodes, i, c, env, st).1;
                lemma_child_frame(nodes, i, t, env, s1, x, y);
                lemma_child_frame(nodes, i, f, env, s1, x, y);
            },
            Node::Store(v, w, p) => {
                lemma_child_frame(nodes, i, v, env, st, x, y);
                let s1 = eval_child(nodes, i, v, env, st).1;
                lemma_pair_frame(nodes, i, w, p, env, s1, x, y);
            },
            _ => {},
        }
    }
}

proof fn lemma_child_frame(nodes: Seq<Node>, i: int, c: usize, env: EnvMap, st: StoreMap, x: usize, y: usize)
    requires
        x > i,
        y > i,
    ensures
        cell_kept(st, eval_child(nodes, i, c, env, st).1, x, y),
    decreases i, 0int,
{
    if c < i {
        lemma_eval_frame(nodes, c as int, env, st, x, y);
    }
}

proof fn lemma_pair_frame(nodes: Seq<Node>, i: int, a: usize, b: usize, env: EnvMap, st: StoreMap, x: usize, y: usize)
    requires
        x > i,
        y > i,
    ensures
        cell_kept(st, eval_pair(nodes, i, a, b, env, st).1, x, y),
    decreases i, 1int,
{
    lemma_child_frame(nodes, i, a, env, st, x, y);
    let s1 = eval_child(nodes, i, a, env, st).1;
    lemma_child_frame(nodes, i, b, env, s1, x, y);
}

/// A load from a pointer through the store just made to that pointer
/// gives the stored value: evaluating `load(store(v, s, p), p)` ends as
/// evaluating `v` does, whenever the load succeeds or `v` fails. The pointer
/// operand is a pointer node, and each child comes before its parent.
pub proof fn lemma_load_of_store(
    nodes: Seq<Node>,
    l: int,
    w: usize,
    p: usize,
    v: usize,
    s: usize,
    a: usize,
    env: EnvMap,
    st: StoreMap,
)
    requires
        0 <= l < nodes.len(),
        nodes[l] == Node::Load(w, p),
        nodes[w as int] == Node::Store(v, s, p),
        nodes[p as int] == Node::Ptr(a),
        a < p < w < l,
        v < w,
        s < w,
    ensures
        eval(nodes, l, env, st).0 is Ok || eval(nodes, v as int, env, st).0 is Err ==> eval(
            nodes,
            l,
            env,
            st,
        ).0 == eval(nodes, v as int, env, st).0,
{
    let (rw, s3) = eval(nodes, w as int, env, st);
    let (rv, s1) = eval(nodes, v as int, env, st);
    assert(eval_child(nodes, w as int, v, env, st) == eval(nodes, v as int, env, st));
    if rv is Err {
        assert(rw == rv);
        assert(eval_child(nodes, l, w, env, st) == eval(nodes, w as int, env, st));
    } else if rw is Ok {
        let (rs, s1b) = eval(nodes, s as int, env, s1);
        assert(eval_child(nodes, w as int, s, env, s1) == eval(nodes, s as int, env, s1));
        assert(eval_child(nodes, w as int, p, env, s1b) == eval(nodes, p as int, env, s1b));
        let (rp, s2) = eval(nodes, p as int, env, s1b);
        assert(eval_child(nodes, p as int, a, env, s1b) == eval(nodes, a as int, env, s1b));
        assert(rp == Ok::<Value, Fault>(Value::Ptr(p)));
        assert(s3 == s2.insert((p, w), Some(rv->Ok_0)));
        assert(eval_child(nodes, l, w, env, st) == eval(nodes, w as int, env, st));
        assert(eval_child(nodes, l, p, env, s3) == eval(nodes, p as int, env, s3));
        let (ra, s4) = eval(nodes, a as int, env, s3);
        assert(eval_child(nodes, p as int, a, env, s3) == eval(nodes, a as int, env, s3));
        lemma_eval_frame(nodes, a as int, env, s3, p, w);
        assert(s4.contains_key((p, w)) && s4[(p, w)] == Some(rv->Ok_0));
    } else {
        assert(eval_child(nodes, l, w, env, st) == eval(nodes, w as int, env, st));
    }
}

/// When the pointer is that of an allocation site, a load through the
/// store just made succeeds whenever the store does, and gives the stored
/// value.
pub proof fn lemma_load_of_store_succeeds(
    nodes: Seq<Node>,
    l: int,
    w: usize,
    p: usize,
    v: usize,
    s: usize,
    a: usize,
    env: EnvMap,
    st: StoreMap,
)
    requires
        0 <= l < nodes.len(),
        nodes[l] == Node::Load(w, p),
        nodes[w as int] == Node::Store(v, s, p),
        nodes[p as int] == Node::Ptr(a),
        nodes[a as int] is Alloca,
        a < p < w < l,
        v < w,
        s < w,
    ensures
        eval(nodes, w as int, env, st).0 is Ok ==> eval(nodes, v as int, env, st).0 is Ok && eval(nodes, l, env, st).0
            == eval(nodes, v as int, env, st).0,
{
    lemma_load_of_store(nodes, l, w, p, v, s, a, env, st);
    let (rw, s3) = eval(nodes, w as int, env, st);
    let (rv, s1) = eval(nodes, v as int, env, st);
    assert(eval_child(nodes, w as int, v, env, st) == eval(nodes, v as int, env, st));
    if rw is Ok {
        let (rs, s1b) = eval(nodes, s as int, env, s1);
        assert(eval_child(nodes, w as int, s, env, s1) == eval(nodes, s as int, env, s1));
        assert(eval_child(nodes, w as int, p, env, s1b) == eval(nodes, p as int, env, s1b));
        let (rp, s2) = eval(nodes, p as int, env, s1b);
        assert(eval_child(nodes, p as int, a, env, s1b) == eval(nodes, a as int, env, s1b));
        assert(rp == Ok::<Value, Fault>(Value::Ptr(p)));
        assert(s3 == s2.insert((p, w), Some(rv->Ok_0)));
        assert(eval_child(nodes, l, w, env, st) == eval(nodes, w as int, env, st));
        assert(eval_child(nodes, l, p, env, s3) == eval(nodes, p as int, env, s3));
        assert(eval_child(nodes, p as int, a, env, s3) == eval(nodes, a as int, env, s3));
        assert(eval(nodes, a as int, env, s3) == (Ok::<Value, Fault>(Value::Sigma(a)), s3));
        let s4 = s3.insert((p, a), None);
        assert(eval(nodes, p as int, env, s3) == (Ok::<Value, Fault>(Value::Ptr(p)), s4));
        assert(s4.contains_key((p, w)) && s4[(p, w)] == Some(rv->Ok_0));
        assert(eval(nodes, l, env, st).0 == Ok::<Value, Fault>(rv->Ok_0));
    }
}

/// Rewriting `phi(true, t, e)` to `t` keeps what evaluation gives, and so
/// does `phi(false, t, e)` to `e`.
pub proof fn lemma_phi_constant_condition(
    nodes: Seq<Node>,
    k: int,
    c: usize,
    t: usize,
    e: usize,
    b: bool,
    env: EnvMap,
    st: StoreMap,
)
    requires
        0 <= k < nodes.len(),
        nodes[k] == Node::Phi(c, t, e),
        c < k,
        t < k,
        e < k,
        nodes[c as int] == Node::I1(b),
    ensures
        eval(nodes, k, env, st) == eval(nodes, if b { t as int } else { e as int }, env, st),
{
    assert(eval_child(nodes, k, c, env, st) == eval(nodes, c as int, env, st));
}

/// Rewriting `phi(c, t, t)` to `t` keeps what evaluation gives wherever the
/// condition evaluates to a boolean without touching the store.
pub proof fn lemma_phi_same_branches(nodes: Seq<Node>, k: int, c: usize, t: usize, env: EnvMap, st: StoreMap)
    requires
        0 <= k < nodes.len(),
        nodes[k] == Node::Phi(c, t, t),
        c < k,
        t < k,
    ensures
        (eval(nodes, c as int, env, st).1 == st && (eval(nodes, c as int, env, st).0 matches Ok(Value::I1(_))))
            ==> eval(nodes, k, env, st) == eval(nodes, t as int, env, st),
{
    assert(eval_child(nodes, k, c, env, st) == eval(nodes, c as int, env, st));
    let s1 = eval(nodes, c as int, env, st).1;
    assert(eval_child(nodes, k, t, env, s1) == eval(nodes, t as int, env, s1));
}

/// Rewriting `!(!a)` to `a` keeps what evaluation gives wherever the inner
/// negation succeeds.
pub proof fn lemma_double_not(nodes: Seq<Node>, k: int, n: usize, a: usize, env: EnvMap, st: StoreMap)
    requires
        0 <= k < nodes.len(),
        nodes[k] == Node::Not(n),
        n < k,
        nodes[n as int] == Node::Not(a),
        a < n,
    ensures
        eval(nodes, n as int, env, st).0 is Ok ==> eval(nodes, k, env, st) == eval(nodes, a as int, env, st),
{
    assert(eval_child(nodes, k, n, env, st) == eval(nodes, n as int, env, st));
    assert(eval_child(nodes, n as int, a, env, st) == eval(nodes, a as int, env, st));
}

/// Rewriting `0 + a` to `a` and `1 * a` to `a` keeps what evaluation gives
/// wherever the sum or product succeeds.
pub proof fn lemma_additive_and_multiplicative_identity(
    nodes: Seq<Node>,
    k: int,
    z: usize,
    a: usize,
    env: EnvMap,
    st: StoreMap,
)
    requires
        0 <= k < nodes.len(),
        z < k,
        a < k,
        (nodes[k] == Node::Add(z, a) && nodes[z as int] == Node::I64(0)) || (nodes[k] == Node::Mul(z, a)
            && nodes[z as int] == Node::I64(1)),
    ensures
        eval(nodes, k, env, st).0 is Ok ==> eval(nodes, k, env, st) == eval(nodes, a as int, env, st),
{
    assert(eval_child(nodes, k, z, env, st) == eval(nodes, z as int, env, st));
    assert(eval_child(nodes, k, a, env, st) == eval(nodes, a as int, env, st));
    assert(eval(nodes, z as int, env, st).1 == st);
    let r = eval(nodes, a as int, env, st);
    let op = if nodes[k] is Add { IntOp::Add } else { IntOp::Mul };
    assert(eval(nodes, k, env, st) == eval_int(nodes, k, op, z, a, env, st));
    assert(eval_pair(nodes, k, z, a, env, st).1 == r.1);
    if let Ok(Value::I64(x)) = r.0 {
        assert(0i64.wrapping_add(x) == x);
        let xi = x as int;
        assert(xi % 0x1_0000_0000_0000_0000 == if xi < 0 { xi + 0x1_0000_0000_0000_0000 } else { xi }) by (nonlinear_arith)
            requires
                -0x8000_0000_0000_0000 <= xi < 0x8000_0000_0000_0000,
        ;
        assert(1i64.wrapping_mul(x) == x);
    }
}

} // verus!

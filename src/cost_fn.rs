//! The cost model that extraction minimises. Costs are counted in
//! hundredths, so that every entry of the table is a whole number.
use vstd::prelude::*;
use crate::lang::{Lang, Node};

verus! {

/// A node's own cost, in hundredths.
pub open spec fn own_cost(n: Node) -> nat {
    match n {
        Node::Add(..) | Node::Sub(..) => 100,
        Node::Mul(..) => 400,
        Node::BAnd(..) | Node::BOr(..) | Node::BNot(..) | Node::And(..) | Node::Or(..)
        | Node::Not(..) => 50,
        Node::ICmp(..) => 300,
        Node::Load(..) | Node::Store(..) => 1000,
        Node::Phi(..) => 1000,
        Node::Alloca(..) => 100000,
        Node::Ptr(..) | Node::I1(..) | Node::I64(..) => 1,
        Node::Var(..) => 10,
    }
}

/// The factor that a node applies to the sum of its children's costs.
pub open spec fn multiplier(n: Node) -> nat {
    match n {
        Node::Phi(..) => 5,
        Node::Alloca(..) | Node::Ptr(..) | Node::I1(..) | Node::I64(..) | Node::Var(..) => 0,
        _ => 1,
    }
}

/// The cost of a node whose children cost `child_sum` together.
pub open spec fn node_cost(n: Node, child_sum: nat) -> nat {
    own_cost(n) + multiplier(n) * child_sum
}

pub open spec fn sum(s: Seq<u64>) -> nat
    decreases s.len(),
{
    if s.len() == 0 {
        0
    } else {
        sum(s.drop_last()) + s.last() as nat
    }
}

/// The cost of the tree under position `i` of a buffer.
pub open spec fn tree_cost(nodes: Seq<Node>, i: int) -> nat
    decreases i, 1int,
{
    if 0 <= i < nodes.len() {
        node_cost(nodes[i], children_cost(nodes, i, nodes[i].children()))
    } else {
        0
    }
}

/// The summed cost of the given children of position `i`; a child that
/// does not come before `i` counts nothing.
pub open spec fn children_cost(nodes: Seq<Node>, i: int, cs: Seq<usize>) -> nat
    decreases i, 0int, cs.len(),
{
    if cs.len() == 0 {
        0
    } else {
        children_cost(nodes, i, cs.drop_last()) + if cs.last() < i {
            tree_cost(nodes, cs.last() as int)
        } else {
            0
        }
    }
}

/// The cost function that keeps extraction away from memory operations,
/// from nested conditional merges, and above all from allocations.
pub struct NoAlloc;

impl NoAlloc {
    /// The cost of `enode`, given the costs of its children in order; a
    /// cost too large for a `u64` is reported as `u64::MAX`.
    pub fn cost(&mut self, enode: &Lang, costs: &[u64]) -> (r: u64)
        requires
            costs@.len() == enode@.children().len(),
        ensures
            r == if node_cost(enode@, sum(costs@)) > u64::MAX {
                u64::MAX as nat
            } else {
                node_cost(enode@, sum(costs@))
            },
    {
        let (own, mult): (u128, u128) = match enode {
            Lang::Add(_) | Lang::Sub(_) => (100, 1),
            Lang::Mul(_) => (400, 1),
            Lang::BAnd(_) | Lang::BOr(_) | Lang::BNot(_) | Lang::And(_) | Lang::Or(_)
            | Lang::Not(_) => (50, 1),
            Lang::ICmp(..) => (300, 1),
            Lang::Load(_) | Lang::Store(_) => (1000, 1),
            Lang::Phi(_) => (1000, 5),
            Lang::Alloca(_) => (100000, 0),
            Lang::Ptr(_) | Lang::I1(_) | Lang::I64(_) => (1, 0),
            Lang::Var(_) => (10, 0),
        };
        let mut total: u128 = 0;
        let mut j: usize = 0;
        while j < costs.len()
            invariant
                j <= costs@.len() <= 3,
                total == sum(costs@.subrange(0, j as int)),
                total <= j * 0xFFFF_FFFF_FFFF_FFFF,
            decreases costs@.len() - j,
        {
            assert(costs@.subrange(0, j + 1).drop_last() =~= costs@.subrange(0, j as int));
            total = total + costs[j] as u128;
            j = j + 1;
        }
        assert(costs@.subrange(0, j as int) =~= costs@);
        assert(own == own_cost(enode@) && mult == multiplier(enode@));
        assert(mult * total <= 5 * 0x3_0000_0000_0000_0000) by (nonlinear_arith)
            requires
                mult <= 5,
                total <= 0x3_0000_0000_0000_0000,
        ;
        let c = own + mult * total;
        if c > u64::MAX as u128 {
            u64::MAX
        } else {
            c as u64
        }
    }
}

/// A conditional merge costs more than each of its operands: of two
/// expressions that differ by one extra level of merge nesting, the
/// shallower one is cheaper. Each extra level also multiplies what lies
/// below it by five.
pub proof fn lemma_phi_nesting_costs_more(nodes: Seq<Node>, k: int, c: usize, t: usize, e: usize)
    requires
        0 <= k < nodes.len(),
        nodes[k] == Node::Phi(c, t, e),
        c < k,
        t < k,
        e < k,
    ensures
        tree_cost(nodes, k) == 1000 + 5 * (tree_cost(nodes, c as int) + tree_cost(nodes, t as int)
            + tree_cost(nodes, e as int)),
        tree_cost(nodes, k) > tree_cost(nodes, t as int),
        tree_cost(nodes, k) > tree_cost(nodes, e as int),
{
    let cs = seq![c, t, e];
    assert(nodes[k].children() == cs);
    assert(cs.drop_last().drop_last().drop_last() =~= Seq::<usize>::empty());
    assert(cs.drop_last().drop_last() =~= seq![c]);
    assert(cs.drop_last() =~= seq![c, t]);
    assert(seq![c].drop_last() =~= Seq::<usize>::empty());
    assert(children_cost(nodes, k, Seq::<usize>::empty()) == 0);
    assert(children_cost(nodes, k, seq![c]) == tree_cost(nodes, c as int));
    assert(children_cost(nodes, k, seq![c, t]) == tree_cost(nodes, c as int) + tree_cost(nodes, t as int));
    assert(children_cost(nodes, k, cs) == tree_cost(nodes, c as int) + tree_cost(nodes, t as int)
        + tree_cost(nodes, e as int));
}

} // verus!

//! Control-flow graphs over basic blocks: successor and predecessor lists
//! and a topological visiting order.
use vstd::prelude::*;
use std::collections::VecDeque;
use crate::ir::{BasicBlock, Terminator};
use crate::text::text_eq;

verus! {

/// How many times `v` occurs in `s`.
pub open spec fn count(s: Seq<usize>, v: usize) -> nat
    decreases s.len(),
{
    if s.len() == 0 {
        0
    } else {
        count(s.drop_last(), v) + if s.last() == v {
            1nat
        } else {
            0nat
        }
    }
}

/// The adjacency lists of a graph, as sequences.
pub open spec fn adj(graph: Seq<Vec<usize>>) -> Seq<Seq<usize>> {
    graph.map_values(|e: Vec<usize>| e@)
}

/// The number of edges into `v` from the nodes below `k` that are not in
/// `done`.
pub open spec fn in_count(g: Seq<Seq<usize>>, v: usize, done: Set<usize>, k: int) -> nat
    decreases k,
{
    if k <= 0 {
        0
    } else {
        in_count(g, v, done, k - 1) + if done.contains((k - 1) as usize) {
            0nat
        } else {
            count(g[k - 1], v)
        }
    }
}

/// The number of edges leaving the nodes below `k`.
pub open spec fn edge_total(g: Seq<Seq<usize>>, k: int) -> nat
    decreases k,
{
    if k <= 0 {
        0
    } else {
        edge_total(g, k - 1) + g[k - 1].len()
    }
}

/// Every edge ends at a node of the graph.
pub open spec fn targets_in_range(g: Seq<Seq<usize>>) -> bool {
    forall|u: int, j: int| 0 <= u < g.len() && 0 <= j < g[u].len() ==> #[trigger] g[u][j] < g.len()
}

/// `rank` grows along every edge, which shows the graph to be acyclic.
pub open spec fn is_ranking(g: Seq<Seq<usize>>, rank: spec_fn(usize) -> nat) -> bool {
    forall|u: int, j: int|
        0 <= u < g.len() && 0 <= j < g[u].len() ==> rank(u as usize) < rank(#[trigger] g[u][j])
}

proof fn lemma_count_concat(a: Seq<usize>, b: Seq<usize>, v: usize)
    ensures
        count(a + b, v) == count(a, v) + count(b, v),
    decreases b.len(),
{
    if b.len() > 0 {
        assert((a + b).drop_last() =~= a + b.drop_last());
        lemma_count_concat(a, b.drop_last(), v);
    } else {
        assert(a + b =~= a);
    }
}

proof fn lemma_count_contains(s: Seq<usize>, v: usize)
    ensures
        (count(s, v) > 0) == s.contains(v),
    decreases s.len(),
{
    if s.len() > 0 {
        lemma_count_contains(s.drop_last(), v);
        if s.drop_last().contains(v) {
            let i = choose|i: int| 0 <= i < s.drop_last().len() && s.drop_last()[i] == v;
            assert(s[i] == v);
        }
        if s.contains(v) && s.last() != v {
            let i = choose|i: int| 0 <= i < s.len() && s[i] == v;
            assert(s.drop_last()[i] == v);
        }
    }
}

proof fn lemma_count_front(s: Seq<usize>, j: int, v: usize)
    requires
        0 <= j < s.len(),
    ensures
        count(s.subrange(j, s.len() as int), v) == (if s[j] == v {
            1nat
        } else {
            0nat
        }) + count(s.subrange(j + 1, s.len() as int), v),
{
    let head = seq![s[j]];
    let tail = s.subrange(j + 1, s.len() as int);
    assert(s.subrange(j, s.len() as int) =~= head + tail);
    lemma_count_concat(head, tail, v);
    assert(head.drop_last() =~= Seq::<usize>::empty());
    assert(count(Seq::<usize>::empty(), v) == 0);
    assert(count(head, v) == count(head.drop_last(), v) + if s[j] == v { 1nat } else { 0nat });
}

proof fn lemma_in_count_insert(g: Seq<Seq<usize>>, v: usize, done: Set<usize>, x: usize, k: int)
    requires
        !done.contains(x),
        k <= usize::MAX,
    ensures
        in_count(g, v, done.insert(x), k) + (if x < k {
            count(g[x as int], v)
        } else {
            0
        }) == in_count(g, v, done, k),
    decreases k,
{
    if k > 0 {
        lemma_in_count_insert(g, v, done, x, k - 1);
        let d2 = done.insert(x);
        assert(d2.contains((k - 1) as usize) == (done.contains((k - 1) as usize) || (k - 1) as usize == x));
        assert(in_count(g, v, d2, k) == in_count(g, v, d2, k - 1) + if d2.contains((k - 1) as usize) {
            0nat
        } else {
            count(g[k - 1], v)
        });
        assert(in_count(g, v, done, k) == in_count(g, v, done, k - 1) + if done.contains((k - 1) as usize) {
            0nat
        } else {
            count(g[k - 1], v)
        });
        if (k - 1) as usize == x {
            assert(d2.contains((k - 1) as usize));
            assert(!done.contains((k - 1) as usize));
        } else {
            assert(d2.contains((k - 1) as usize) == done.contains((k - 1) as usize));
        }
    }
}

proof fn lemma_in_count_zero(g: Seq<Seq<usize>>, v: usize, done: Set<usize>, k: int, u: int)
    requires
        in_count(g, v, done, k) == 0,
        0 <= u < k,
    ensures
        done.contains(u as usize) || count(g[u], v) == 0,
    decreases k,
{
    if u < k - 1 {
        lemma_in_count_zero(g, v, done, k - 1, u);
    }
}

proof fn lemma_in_count_pos(g: Seq<Seq<usize>>, v: usize, done: Set<usize>, k: int) -> (u: int)
    requires
        in_count(g, v, done, k) > 0,
    ensures
        0 <= u < k,
        !done.contains(u as usize),
        count(g[u], v) > 0,
    decreases k,
{
    if k > 0 && !done.contains((k - 1) as usize) && count(g[k - 1], v) > 0 {
        k - 1
    } else {
        lemma_in_count_pos(g, v, done, k - 1)
    }
}

proof fn lemma_in_count_bound(g: Seq<Seq<usize>>, v: usize, k: int)
    ensures
        in_count(g, v, Set::empty(), k) <= edge_total(g, k),
    decreases k,
{
    if k > 0 {
        lemma_in_count_bound(g, v, k - 1);
        lemma_count_le_len(g[k - 1], v);
    }
}

proof fn lemma_count_le_len(s: Seq<usize>, v: usize)
    ensures
        count(s, v) <= s.len(),
    decreases s.len(),
{
    if s.len() > 0 {
        lemma_count_le_len(s.drop_last(), v);
    }
}

proof fn lemma_edge_total_mono(g: Seq<Seq<usize>>, a: int, b: int)
    requires
        0 <= a <= b,
    ensures
        edge_total(g, a) <= edge_total(g, b),
    decreases b,
{
    if a < b {
        lemma_edge_total_mono(g, a, b - 1);
    }
}

/// With a ranking, a node left out of `done` has an edge from another node
/// left out; so where every left-out node has such an edge, none is left out.
proof fn lemma_all_reached(
    g: Seq<Seq<usize>>,
    rank: spec_fn(usize) -> nat,
    done: Set<usize>,
    r: nat,
    v: usize,
)
    requires
        is_ranking(g, rank),
        v < g.len(),
        rank(v) <= r,
        forall|w: usize|
            w < g.len() && !done.contains(w) ==> in_count(g, w, done, g.len() as int) > 0,
    ensures
        done.contains(v),
    decreases r,
{
    if !done.contains(v) {
        let u = lemma_in_count_pos(g, v, done, g.len() as int);
        lemma_count_contains(g[u], v);
        let j = choose|j: int| 0 <= j < g[u].len() && g[u][j] == v;
        assert(rank(u as usize) < rank(g[u][j]));
        lemma_all_reached(g, rank, done, (r - 1) as nat, u as usize);
    }
}

/// The state of Kahn's algorithm: the order so far, the queue of nodes
/// whose predecessors have all been output, and the remaining in-degrees.
pub struct KahnState {
    pub order: Seq<usize>,
    pub queue: Seq<usize>,
    pub incoming: Seq<int>,
}

/// The in-degree of each node, one per edge.
pub open spec fn in_degrees(g: Seq<Seq<usize>>) -> Seq<int> {
    Seq::new(g.len(), |v: int| in_count(g, v as usize, Set::empty(), g.len() as int) as int)
}

/// The nodes below `k` of in-degree zero, in ascending order.
pub open spec fn zero_nodes(inc: Seq<int>, k: int) -> Seq<usize>
    decreases k,
{
    if k <= 0 {
        seq![]
    } else {
        zero_nodes(inc, k - 1) + if inc[k - 1] == 0 {
            seq![(k - 1) as usize]
        } else {
            seq![]
        }
    }
}

/// The queue starts with every node of in-degree zero, in index order.
pub open spec fn kahn_init(g: Seq<Seq<usize>>) -> KahnState {
    KahnState { order: seq![], queue: zero_nodes(in_degrees(g), g.len() as int), incoming: in_degrees(g) }
}

/// One edge into `d` is used up; `d` joins the back of the queue when it
/// has none left.
pub open spec fn release(st: KahnState, d: usize) -> KahnState {
    let inc = st.incoming.update(d as int, st.incoming[d as int] - 1);
    KahnState {
        order: st.order,
        queue: if inc[d as int] == 0 {
            st.queue.push(d)
        } else {
            st.queue
        },
        incoming: inc,
    }
}

/// The edges to the first `j` of `succs` are used up, in order.
pub open spec fn release_upto(st: KahnState, succs: Seq<usize>, j: int) -> KahnState
    decreases j,
{
    if j <= 0 {
        st
    } else {
        release(release_upto(st, succs, j - 1), succs[j - 1])
    }
}

/// One step: the front of the queue is output, then its out-edges are used
/// up in order. An empty queue is a fixed point.
pub open spec fn kahn_step(g: Seq<Seq<usize>>, st: KahnState) -> KahnState {
    if st.queue.len() == 0 {
        st
    } else {
        let x = st.queue[0];
        let st1 = KahnState { order: st.order.push(x), queue: st.queue.drop_first(), incoming: st.incoming };
        release_upto(st1, g[x as int], g[x as int].len() as int)
    }
}

pub open spec fn kahn_iter(g: Seq<Seq<usize>>, t: nat) -> KahnState
    decreases t,
{
    if t == 0 {
        kahn_init(g)
    } else {
        kahn_step(g, kahn_iter(g, (t - 1) as nat))
    }
}

/// The order that Kahn's algorithm with a first-in first-out queue gives:
/// at most one node is output per step, so as many steps as nodes suffice.
pub open spec fn kahn_order(g: Seq<Seq<usize>>) -> Seq<usize> {
    kahn_iter(g, g.len()).order
}

proof fn lemma_kahn_done(g: Seq<Seq<usize>>, t: nat, m: nat)
    requires
        t <= m,
        kahn_iter(g, t).queue.len() == 0,
    ensures
        kahn_iter(g, m) == kahn_iter(g, t),
    decreases m,
{
    if m > t {
        lemma_kahn_done(g, t, (m - 1) as nat);
    }
}

pub open spec fn inc_view(v: Seq<usize>) -> Seq<int> {
    v.map_values(|x: usize| x as int)
}

pub open spec fn kstate(order: Seq<usize>, queue: Seq<usize>, incoming: Seq<usize>) -> KahnState {
    KahnState { order, queue, incoming: inc_view(incoming) }
}

/// Orders the nodes of a graph given by successor lists (Kahn's
/// algorithm, `kahn_order`): each node comes after every node with an edge
/// into it, and on an acyclic graph every node comes exactly once.
pub fn topo_order(graph: &[Vec<usize>]) -> (order: Vec<usize>)
    requires
        targets_in_range(adj(graph@)),
        edge_total(adj(graph@), graph@.len() as int) <= usize::MAX,
    ensures
        forall|i: int| 0 <= i < order@.len() ==> order@[i] < graph@.len(),
        order@.no_duplicates(),
        forall|p: int, q: int|
#![trigger order@[p], order@[q]]
            0 <= p <= q < order@.len() ==> !graph@[order@[q] as int]@.contains(order@[p]),
        forall|i: int, u: int|
            0 <= i < order@.len() && 0 <= u < graph@.len() && #[trigger] graph@[u]@.contains(order@[i])
                ==> order@.contains(u as usize),
        (exists|rank: spec_fn(usize) -> nat| is_ranking(adj(graph@), rank)) ==> forall|v: usize|
            v < graph@.len() ==> order@.contains(v),
        order@ == kahn_order(adj(graph@)),
{
    let ghost g = adj(graph@);
    let n = graph.len();
    let mut incoming: Vec<usize> = Vec::new();
    let mut k: usize = 0;
    while k < n
        invariant
            k <= n == g.len(),
            incoming@.len() == k,
            forall|v: int| 0 <= v < k ==> incoming@[v] == 0,
        decreases n - k,
    {
        incoming.push(0);
        k = k + 1;
    }
    let mut u: usize = 0;
    while u < n
        invariant
            n == g.len() == graph@.len() == incoming@.len(),
            g == adj(graph@),
            targets_in_range(g),
            edge_total(g, n as int) <= usize::MAX,
            u <= n,
            forall|v: usize| v < n ==> #[trigger] incoming@[v as int] == in_count(g, v, Set::empty(), u as int),
        decreases n - u,
    {
        let succs = &graph[u];
        assert(succs@ == g[u as int]);
        let mut j: usize = 0;
        while j < succs.len()
            invariant
                n == g.len() == graph@.len() == incoming@.len(),
                g == adj(graph@),
                targets_in_range(g),
                edge_total(g, n as int) <= usize::MAX,
                u < n,
                succs@ == g[u as int],
                j <= succs@.len(),
                forall|v: usize| v < n ==> #[trigger] incoming@[v as int] == in_count(g, v, Set::empty(), u as int)
                    + count(succs@.subrange(0, j as int), v),
            decreases succs@.len() - j,
        {
            let dest = succs[j];
            assert(g[u as int][j as int] < g.len());
            proof {
                assert forall|v: usize| v < n implies count(succs@.subrange(0, j + 1), v) == count(
                    succs@.subrange(0, j as int),
                    v,
                ) + if v == dest {
                    1nat
                } else {
                    0nat
                } by {
                    assert(succs@.subrange(0, j + 1).drop_last() =~= succs@.subrange(0, j as int));
                }
                lemma_in_count_bound(g, dest, u as int);
                lemma_count_le_len(succs@.subrange(0, j + 1), dest);
                lemma_edge_total_mono(g, u + 1, n as int);
                assert(edge_total(g, u + 1) == edge_total(g, u as int) + g[u as int].len());
            }
            let c = incoming[dest];
            incoming.set(dest, c + 1);
            j = j + 1;
        }
        assert(succs@.subrange(0, j as int) =~= succs@);
        u = u + 1;
    }
    let ghost done: Set<usize> = Set::empty();
    assert(inc_view(incoming@) =~= in_degrees(g));
    let mut queue: VecDeque<usize> = VecDeque::new();
    let mut v0: usize = 0;
    while v0 < n
        invariant
            n == g.len() == incoming@.len(),
            v0 <= n,
            queue@ == zero_nodes(inc_view(incoming@), v0 as int),
            queue@.no_duplicates(),
            forall|i: int| 0 <= i < queue@.len() ==> queue@[i] < v0,
            forall|v: usize| v < n ==> (queue@.contains(v) == (v < v0 && incoming@[v as int] == 0)),
        decreases n - v0,
    {
        if incoming[v0] == 0 {
            let ghost before = queue@;
            queue.push_back(v0);
            proof {
                lemma_push_no_dup(before, v0);
                assert forall|v: usize| v < n implies (queue@.contains(v) == (v < v0 + 1 && incoming@[v as int] == 0)) by {
                    if v == v0 {
                        assert(queue@[before.len() as int] == v0);
                    }
                    if queue@.contains(v) && v != v0 {
                        let i = choose|i: int| 0 <= i < queue@.len() && queue@[i] == v;
                        assert(before[i] == v);
                    }
                    if before.contains(v) {
                        let i = choose|i: int| 0 <= i < before.len() && before[i] == v;
                        assert(queue@[i] == v);
                    }
                }
            }
        } else {
            assert forall|v: usize| v < n implies (queue@.contains(v) == (v < v0 + 1 && incoming@[v as int] == 0)) by {
                if queue@.contains(v) {
                    let i = choose|i: int| 0 <= i < queue@.len() && queue@[i] == v;
                    assert(queue@[i] < v0);
                }
            }
        }
        v0 = v0 + 1;
    }
    let mut order: Vec<usize> = Vec::new();
    assert(order@ + queue@ =~= queue@);
    assert(kstate(order@, queue@, incoming@) == kahn_iter(g, 0));
    assert forall|i: int, w: int|
        0 <= i < queue@.len() && 0 <= w < n && #[trigger] g[w].contains(queue@[i]) implies order@.contains(w as usize) by {
        assert(queue@.contains(queue@[i]));
        lemma_in_count_zero(g, queue@[i], done, n as int, w);
        lemma_count_contains(g[w], queue@[i]);
    }
    while queue.len() > 0
        invariant
            n == g.len() == graph@.len() == incoming@.len(),
            g == adj(graph@),
            targets_in_range(g),
            forall|v: usize| v < n ==> ((order@.contains(v) || queue@.contains(v)) == (#[trigger] incoming@[v as int] == 0)),
            (order@ + queue@).no_duplicates(),
            forall|i: int| 0 <= i < (order@ + queue@).len() ==> (order@ + queue@)[i] < n,
            forall|v: usize| v < n ==> #[trigger] incoming@[v as int] == in_count(g, v, done, n as int),
            forall|i: int, w: int|
                0 <= i < queue@.len() && 0 <= w < n && #[trigger] g[w].contains(queue@[i]) ==> order@.contains(w as usize),
            forall|p: int, q: int|
#![trigger order@[p], order@[q]]
                0 <= p <= q < order@.len() ==> !g[order@[q] as int].contains(order@[p]),
            forall|i: int, w: int|
                0 <= i < order@.len() && 0 <= w < n && #[trigger] g[w].contains(order@[i]) ==> order@.contains(w as usize),
            forall|v: usize| done.contains(v) == order@.contains(v),
            kstate(order@, queue@, incoming@) == kahn_iter(g, order@.len()),
        decreases n - order@.len(),
    {
        let ghost old_order = order@;
        let ghost old_queue = queue@;
        let ghost st0 = kstate(order@, queue@, incoming@);
        let x = queue.pop_front().unwrap();
        assert(old_order + old_queue =~= order@.push(x) + queue@);
        assert(old_queue[0] == x);
        assert(!old_order.contains(x)) by {
            if old_order.contains(x) {
                let i = choose|i: int| 0 <= i < old_order.len() && old_order[i] == x;
                assert((old_order + old_queue)[i] == (old_order + old_queue)[old_order.len() as int]);
            }
        }
        order.push(x);
        proof {
            lemma_no_dup_len(order@ + queue@, n);
            assert((old_order + old_queue)[old_order.len() as int] == x);
            assert(x < n);
            assert(!done.contains(x));
            assert forall|w: usize| w < n implies in_count(g, w, done.insert(x), n as int) + count(g[x as int], w)
                == in_count(g, w, done, n as int) by {
                lemma_in_count_insert(g, w, done, x, n as int);
            }
            done = done.insert(x);
            assert forall|v: usize| done.contains(v) == order@.contains(v) by {
                if order@.contains(v) && v != x {
                    let i = choose|i: int| 0 <= i < order@.len() && order@[i] == v;
                    assert(old_order[i] == v);
                }
                if old_order.contains(v) {
                    let i = choose|i: int| 0 <= i < old_order.len() && old_order[i] == v;
                    assert(order@[i] == v);
                }
                if v == x {
                    assert(order@[old_order.len() as int] == x);
                }
            }
            assert(!g[x as int].contains(x)) by {
                if g[x as int].contains(x) {
                    assert(old_queue[0] == x);
                    assert(g[x as int].contains(old_queue[0]));
                    assert(0 < old_queue.len());
                    assert((old_order + old_queue)[old_order.len() as int] < n);
                    assert(old_order.contains(x));
                }
            }
            assert forall|p: int, q: int|
#![trigger order@[p], order@[q]]
                0 <= p <= q < order@.len() implies !g[order@[q] as int].contains(order@[p]) by {
                if q == order@.len() - 1 && p < q {
                    if g[x as int].contains(order@[p]) {
                        assert(old_order[p] == order@[p]);
                        assert(old_order.contains(x));
                    }
                }
            }
        }
        let succs = &graph[x];
        assert(succs@ == g[x as int]);
        assert(succs@.subrange(0, succs@.len() as int) =~= succs@);
        let ghost st1 = kstate(order@, queue@, incoming@);
        assert(st1 == (KahnState { order: st0.order.push(x), queue: st0.queue.drop_first(), incoming: st0.incoming })) by {
            assert(queue@ =~= st0.queue.drop_first());
        }
        assert forall|i: int, w: int|
            0 <= i < queue@.len() && 0 <= w < n && #[trigger] g[w].contains(queue@[i]) implies order@.contains(w as usize) by {
            assert(queue@[i] == old_queue[i + 1]);
            assert(g[w].contains(old_queue[i + 1]));
            assert(old_order.contains(w as usize));
            let k = choose|k: int| 0 <= k < old_order.len() && old_order[k] == w as usize;
            assert(order@[k] == w as usize);
        }
        assert forall|i: int, w: int|
            0 <= i < order@.len() && 0 <= w < n && #[trigger] g[w].contains(order@[i]) implies order@.contains(w as usize) by {
            if i < old_order.len() {
                assert(old_order[i] == order@[i]);
                assert(g[w].contains(old_order[i]));
            } else {
                assert(order@[i] == old_queue[0]);
                assert(g[w].contains(old_queue[0]));
            }
            assert(old_order.contains(w as usize));
            let k = choose|k: int| 0 <= k < old_order.len() && old_order[k] == w as usize;
            assert(order@[k] == w as usize);
        }
        assert forall|v: usize| v < n implies ((order@.contains(v) || queue@.contains(v)) == (#[trigger] incoming@[v as int] == 0)) by {
            if order@.contains(v) || queue@.contains(v) {
                if order@.contains(v) {
                    let i = choose|i: int| 0 <= i < order@.len() && order@[i] == v;
                    assert((order@ + queue@)[i] == v);
                } else {
                    let i = choose|i: int| 0 <= i < queue@.len() && queue@[i] == v;
                    assert((order@ + queue@)[order@.len() + i] == v);
                }
                let i = choose|i: int| 0 <= i < (old_order + old_queue).len() && (old_order + old_queue)[i] == v;
                if i < old_order.len() {
                    assert(old_order[i] == v);
                } else {
                    assert(old_queue[i - old_order.len()] == v);
                }
            } else {
                if old_order.contains(v) {
                    let i = choose|i: int| 0 <= i < old_order.len() && old_order[i] == v;
                    assert(order@[i] == v);
                }
                if old_queue.contains(v) {
                    let i = choose|i: int| 0 <= i < old_queue.len() && old_queue[i] == v;
                    if i == 0 {
                        assert(order@[old_order.len() as int] == v);
                    } else {
                        assert(queue@[i - 1] == v);
                    }
                }
            }
        }
        let mut j: usize = 0;
        while j < succs.len()
            invariant
                n == g.len() == graph@.len() == incoming@.len(),
                g == adj(graph@),
                targets_in_range(g),
                x < n,
                succs@ == g[x as int],
                j <= succs@.len(),
                order@.contains(x),
                !succs@.contains(x),
                forall|v: usize| v < n ==> ((order@.contains(v) || queue@.contains(v)) == (#[trigger] incoming@[v as int] == 0)),
                (order@ + queue@).no_duplicates(),
                forall|i: int| 0 <= i < (order@ + queue@).len() ==> (order@ + queue@)[i] < n,
                forall|v: usize| v < n ==> #[trigger] incoming@[v as int] == in_count(g, v, done, n as int)
                    + count(succs@.subrange(j as int, succs@.len() as int), v),
                forall|i: int, w: int|
                    0 <= i < queue@.len() && 0 <= w < n && #[trigger] g[w].contains(queue@[i]) ==> order@.contains(w as usize),
                forall|p: int, q: int|
#![trigger order@[p], order@[q]]
                    0 <= p <= q < order@.len() ==> !g[order@[q] as int].contains(order@[p]),
                forall|i: int, w: int|
                    0 <= i < order@.len() && 0 <= w < n && #[trigger] g[w].contains(order@[i]) ==> order@.contains(w as usize),
                forall|v: usize| done.contains(v) == order@.contains(v),
                kstate(order@, queue@, incoming@) == release_upto(st1, succs@, j as int),
            decreases succs@.len() - j,
        {
            let dest = succs[j];
            assert(g[x as int][j as int] < g.len());
            let ghost stj = kstate(order@, queue@, incoming@);
            proof {
                assert forall|v: usize| v < n implies count(succs@.subrange(j as int, succs@.len() as int), v)
                    == (if succs@[j as int] == v { 1nat } else { 0nat }) + count(
                    succs@.subrange(j + 1, succs@.len() as int),
                    v,
                ) by {
                    lemma_count_front(succs@, j as int, v);
                }
            }
            let c = incoming[dest];
            let ghost before = queue@;
            assert(succs@[j as int] == dest);
            assert(dest != x);
            assert(c >= 1);
            incoming.set(dest, c - 1);
            if c == 1 {
                proof {
                    lemma_count_le_len(succs@.subrange(j + 1, succs@.len() as int), dest);
                    assert forall|w: int| 0 <= w < n && g[w].contains(dest) implies order@.contains(w as usize) by {
                        lemma_in_count_zero(g, dest, done, n as int, w);
                        lemma_count_contains(g[w], dest);
                    }
                }
                queue.push_back(dest);
                proof {
                    assert(!(order@ + before).contains(dest));
                    lemma_push_no_dup(order@ + before, dest);
                    assert(order@ + queue@ =~= (order@ + before).push(dest));
                    assert forall|v: usize| v < n implies ((order@.contains(v) || queue@.contains(v)) == (#[trigger] incoming@[v as int] == 0)) by {
                        if v == dest {
                            assert(queue@[before.len() as int] == dest);
                        } else {
                            if queue@.contains(v) {
                                let i = choose|i: int| 0 <= i < queue@.len() && queue@[i] == v;
                                assert(before[i] == v);
                            }
                            if before.contains(v) {
                                let i = choose|i: int| 0 <= i < before.len() && before[i] == v;
                                assert(queue@[i] == v);
                            }
                        }
                    }
                }
            } else {
                assert(!(order@.contains(dest) || queue@.contains(dest)));
            }
            proof {
                assert(inc_view(incoming@) =~= stj.incoming.update(dest as int, stj.incoming[dest as int] - 1));
                assert(kstate(order@, queue@, incoming@) == release(stj, dest));
            }
            j = j + 1;
        }
        assert(succs@.subrange(j as int, succs@.len() as int) =~= Seq::<usize>::empty());
        assert(kstate(order@, queue@, incoming@) == kahn_step(g, st0));
    }
    proof {
        assert(order@ + queue@ =~= order@);
        lemma_no_dup_len(order@, n);
        lemma_kahn_done(g, order@.len(), n as nat);
        if exists|rank: spec_fn(usize) -> nat| is_ranking(g, rank) {
            let rank = choose|rank: spec_fn(usize) -> nat| is_ranking(g, rank);
            assert forall|v: usize| v < n implies order@.contains(v) by {
                assert forall|w: usize| w < g.len() && !done.contains(w) implies in_count(g, w, done, g.len() as int) > 0 by {
                    assert(!queue@.contains(w));
                    assert(!order@.contains(w));
                    assert(incoming@[w as int] != 0);
                }
                lemma_all_reached(g, rank, done, rank(v), v);
            }
        }
        assert forall|i: int, w: int|
            0 <= i < order@.len() && 0 <= w < graph@.len() && #[trigger] graph@[w]@.contains(order@[i])
                implies order@.contains(w as usize) by {
            assert(g[w] == graph@[w]@);
        }
        assert forall|p: int, q: int|
#![trigger order@[p], order@[q]]
            0 <= p <= q < order@.len() implies !graph@[order@[q] as int]@.contains(order@[p]) by {
            assert(g[order@[q] as int] == graph@[order@[q] as int]@);
        }
    }
    order
}

proof fn lemma_push_no_dup(s: Seq<usize>, x: usize)
    requires
        s.no_duplicates(),
        !s.contains(x),
    ensures
        s.push(x).no_duplicates(),
{
    assert forall|i: int, j: int| 0 <= i < j < s.push(x).len() implies s.push(x)[i] != s.push(x)[j] by {
        if j == s.len() {
            assert(s[i] == s.push(x)[i]);
        }
    }
}

/// A sequence without repeats of values below `n` has at most `n` entries.
pub proof fn lemma_no_dup_len(s: Seq<usize>, n: usize)
    requires
        s.no_duplicates(),
        forall|i: int| 0 <= i < s.len() ==> s[i] < n,
    ensures
        s.len() <= n,
{
    assert(s.to_set().subset_of(Set::new(|v: usize| v < n)));
    s.unique_seq_to_set();
    lemma_range_set_len(n);
    vstd::set_lib::lemma_len_subset(s.to_set(), Set::new(|v: usize| v < n));
}

/// The values below `n` form a finite set of `n` elements.
pub proof fn lemma_range_set_len(n: usize)
    ensures
        Set::new(|v: usize| v < n).finite(),
        Set::new(|v: usize| v < n).len() == n,
    decreases n,
{
    if n == 0 {
        assert(Set::new(|v: usize| v < n) =~= Set::<usize>::empty());
    } else {
        lemma_range_set_len((n - 1) as usize);
        assert(Set::new(|v: usize| v < n) =~= Set::new(|v: usize| v < (n - 1) as usize).insert(
            (n - 1) as usize,
        ));
    }
}

/// The position of the last of the first `k` names that equals `name`.
pub open spec fn find_name(names: Seq<Seq<char>>, name: Seq<char>, k: int) -> Option<usize>
    decreases k,
{
    if k <= 0 {
        None
    } else if names[k - 1] == name {
        Some((k - 1) as usize)
    } else {
        find_name(names, name, k - 1)
    }
}

/// The names of the blocks, in order.
pub open spec fn block_names(blocks: Seq<BasicBlock>) -> Seq<Seq<char>> {
    blocks.map_values(|b: BasicBlock| b.name@)
}

/// The position of the last block named `name` among the first `k`.
pub open spec fn find_block(blocks: Seq<BasicBlock>, name: Seq<char>, k: int) -> Option<usize> {
    find_name(block_names(blocks), name, k)
}

proof fn lemma_find_name_bound(names: Seq<Seq<char>>, name: Seq<char>, k: int)
    requires
        0 <= k <= names.len() <= usize::MAX,
    ensures
        find_name(names, name, k) matches Some(d) ==> d < k && names[d as int] == name,
    decreases k,
{
    if k > 0 {
        lemma_find_name_bound(names, name, k - 1);
    }
}

proof fn lemma_first_error_stays(blocks: Seq<BasicBlock>, k: int, m: int)
    requires
        0 <= k <= m,
        first_error(blocks, k) is Some,
    ensures
        first_error(blocks, m) == first_error(blocks, k),
    decreases m,
{
    if m > k {
        lemma_first_error_stays(blocks, k, m - 1);
    }
}

/// Why a control-flow graph could not be built.
#[derive(Clone, Copy, Debug, PartialEq, Eq, Structural)]
pub enum CfgError {
    /// The terminator of this block names a block that does not exist.
    UnknownTarget { block: usize },
    /// This block ends in a terminator other than a branch or a return.
    UnsupportedTerminator { block: usize },
}

/// The successors of block `i`: none for a return, one for a branch, the
/// true and then the false target for a conditional branch.
pub open spec fn succ_spec(blocks: Seq<BasicBlock>, i: int) -> Result<Seq<usize>, CfgError> {
    let n = blocks.len() as int;
    match blocks[i].term {
        Terminator::Br { dest } => match find_block(blocks, dest@, n) {
            Some(d) => Ok(seq![d]),
            None => Err(CfgError::UnknownTarget { block: i as usize }),
        },
        Terminator::CondBr { true_dest, false_dest, .. } => match (
            find_block(blocks, true_dest@, n),
            find_block(blocks, false_dest@, n),
        ) {
            (Some(t), Some(f)) => Ok(seq![t, f]),
            _ => Err(CfgError::UnknownTarget { block: i as usize }),
        },
        Terminator::Ret { .. } => Ok(seq![]),
        Terminator::Unsupported => Err(CfgError::UnsupportedTerminator { block: i as usize }),
    }
}

/// The first block, in order, whose successors cannot be found.
pub open spec fn first_error(blocks: Seq<BasicBlock>, k: int) -> Option<CfgError>
    decreases k,
{
    if k <= 0 {
        None
    } else {
        match first_error(blocks, k - 1) {
            Some(e) => Some(e),
            None => match succ_spec(blocks, k - 1) {
                Err(e) => Some(e),
                Ok(_) => None,
            },
        }
    }
}

/// The sources of the edges into `d` from the first `k` nodes, in order,
/// one entry per edge.
pub open spec fn preds_of(g: Seq<Seq<usize>>, d: usize, k: int) -> Seq<usize>
    decreases k,
{
    if k <= 0 {
        seq![]
    } else {
        preds_of(g, d, k - 1) + occurrences(g[k - 1], d, (k - 1) as usize)
    }
}

/// `i` once for each occurrence of `d` in `s`.
pub open spec fn occurrences(s: Seq<usize>, d: usize, i: usize) -> Seq<usize>
    decreases s.len(),
{
    if s.len() == 0 {
        seq![]
    } else {
        occurrences(s.drop_last(), d, i) + if s.last() == d {
            seq![i]
        } else {
            seq![]
        }
    }
}

/// The blocks, among the first `k`, that end in a return.
pub open spec fn ret_blocks_of(blocks: Seq<BasicBlock>, k: int) -> Seq<usize>
    decreases k,
{
    if k <= 0 {
        seq![]
    } else {
        ret_blocks_of(blocks, k - 1) + if blocks[k - 1].term is Ret {
            seq![(k - 1) as usize]
        } else {
            seq![]
        }
    }
}

/// The control-flow graph of a list of blocks: successor and predecessor
/// lists by block position, and the blocks that return.
pub struct Cfg {
    names: Vec<String>,
    graph: Vec<Vec<usize>>,
    transposed: Vec<Vec<usize>>,
    ret_blocks: Vec<usize>,
}

impl Cfg {
    /// The names of the blocks, by position.
    pub closed spec fn names_spec(&self) -> Seq<Seq<char>> {
        self.names@.map_values(|s: String| s@)
    }

    /// The successor lists.
    pub closed spec fn succ_lists(&self) -> Seq<Seq<usize>> {
        adj(self.graph@)
    }

    /// The predecessor lists.
    pub closed spec fn pred_lists(&self) -> Seq<Seq<usize>> {
        adj(self.transposed@)
    }

    pub closed spec fn ret_spec(&self) -> Seq<usize> {
        self.ret_blocks@
    }

    /// What a graph built from `blocks` holds.
    pub open spec fn built_from(&self, blocks: Seq<BasicBlock>) -> bool {
        let n = blocks.len() as int;
        &&& self.names_spec() == blocks.map_values(|b: BasicBlock| b.name@)
        &&& self.succ_lists().len() == n
        &&& forall|i: int| 0 <= i < n ==> succ_spec(blocks, i) == Ok::<Seq<usize>, CfgError>(
            #[trigger] self.succ_lists()[i],
        )
        &&& self.pred_lists().len() == n
        &&& forall|d: int| 0 <= d < n ==> #[trigger] self.pred_lists()[d] == preds_of(
            self.succ_lists(),
            d as usize,
            n,
        )
        &&& self.ret_spec() == ret_blocks_of(blocks, n)
    }

    /// Builds the graph, or names the first block whose terminator is not
    /// supported or has a target that no block is named.
    pub fn new(blocks: &[BasicBlock]) -> (r: Result<Cfg, CfgError>)
        ensures
            match first_error(blocks@, blocks@.len() as int) {
                Some(e) => r == Err::<Cfg, CfgError>(e),
                None => r matches Ok(cfg) && cfg.built_from(blocks@) && cfg.well_formed(),
            },
    {
        let n = blocks.len();
        let mut names: Vec<String> = Vec::new();
        let mut graph: Vec<Vec<usize>> = Vec::new();
        let mut transposed: Vec<Vec<usize>> = Vec::new();
        let mut ret_blocks: Vec<usize> = Vec::new();
        let mut k: usize = 0;
        while k < n
            invariant
                n == blocks@.len(),
                k <= n,
                names@.len() == k,
                forall|j: int| 0 <= j < k ==> #[trigger] names@[j]@ == blocks@[j].name@,
                transposed@.len() == k,
                forall|j: int| 0 <= j < k ==> #[trigger] transposed@[j]@ == Seq::<usize>::empty(),
            decreases n - k,
        {
            assert(names@.push(blocks[k as int].name).map_values(|s: String| s@) =~= names@.map_values(|s: String| s@).push(blocks@[k as int].name@));
            names.push(blocks[k].name.clone());
            transposed.push(Vec::new());
            k = k + 1;
        }
        assert(names@.map_values(|s: String| s@) =~= block_names(blocks@));
        let mut i: usize = 0;
        while i < n
            invariant
                n == blocks@.len() == names@.len() == transposed@.len(),
                i <= n,
                names@.map_values(|s: String| s@) == block_names(blocks@),
                first_error(blocks@, i as int) is None,
                graph@.len() == i,
                forall|j: int| 0 <= j < i ==> succ_spec(blocks@, j) == Ok::<Seq<usize>, CfgError>(
                    #[trigger] adj(graph@)[j],
                ),
                forall|j: int| 0 <= j < i ==> (#[trigger] adj(graph@)[j]).len() <= 2,
                forall|j: int, k: int| 0 <= j < i && 0 <= k < adj(graph@)[j].len() ==> #[trigger] adj(graph@)[j][k] < n,
                forall|d: int| 0 <= d < n ==> #[trigger] transposed@[d]@ == preds_of(adj(graph@), d as usize, i as int),
                ret_blocks@ == ret_blocks_of(blocks@, i as int),
            decreases n - i,
        {
            let ghost g0 = adj(graph@);
            let succs: Vec<usize> = match &blocks[i].term {
                Terminator::Br { dest } => {
                    match find_index(&names, dest) {
                        Some(d) => {
                            let v = vec![d];
                            assert(v@ =~= seq![d]);
                            assert(find_block(blocks@, dest@, n as int) == Some(d));
                            v
                        },
                        None => {
                            proof {
                                lemma_first_error_stays(blocks@, i + 1, n as int);
                            }
    return Err(CfgError::UnknownTarget { block: i });
                        },
                    }
                },
                Terminator::CondBr { true_dest, false_dest, .. } => {
                    let t = find_index(&names, true_dest);
                    let f = find_index(&names, false_dest);
                    match (t, f) {
                        (Some(t), Some(f)) => {
                            let v = vec![t, f];
                            assert(v@ =~= seq![t, f]);
                            v
                        },
                        _ => {
                            proof {
                                lemma_first_error_stays(blocks@, i + 1, n as int);
                            }
    return Err(CfgError::UnknownTarget { block: i });
                        },
                    }
                },
                Terminator::Ret { .. } => {
                    ret_blocks.push(i);
                    vec![]
                },
                Terminator::Unsupported => {
                            proof {
                                lemma_first_error_stays(blocks@, i + 1, n as int);
                            }
    return Err(CfgError::UnsupportedTerminator { block: i });
                },
            };
            proof {
                let bn = block_names(blocks@);
                assert(bn.len() == n);
                match blocks@[i as int].term {
                    Terminator::Br { dest } => {
                        lemma_find_name_bound(block_names(blocks@), dest@, n as int);
                    },
                    Terminator::CondBr { true_dest, false_dest, .. } => {
                        lemma_find_name_bound(block_names(blocks@), true_dest@, n as int);
                        lemma_find_name_bound(block_names(blocks@), false_dest@, n as int);
                    },
                    Terminator::Ret { .. } => {
                        assert(succs@ =~= Seq::<usize>::empty());
                    },
                    _ => {},
                }
            }
            assert(succ_spec(blocks@, i as int) == Ok::<Seq<usize>, CfgError>(succs@));
            let mut j: usize = 0;
            while j < succs.len()
                invariant
                    n == blocks@.len() == names@.len() == transposed@.len(),
                    i < n,
                    j <= succs@.len(),
                    forall|k: int| 0 <= k < succs@.len() ==> succs@[k] < n,
                    forall|d: int| 0 <= d < n ==> #[trigger] transposed@[d]@ == preds_of(g0, d as usize, i as int)
                        + occurrences(succs@.subrange(0, j as int), d as usize, i),
                decreases succs@.len() - j,
            {
                let d = succs[j];
                let mut preds_d = Vec::new();
                std::mem::swap(&mut preds_d, &mut transposed[d]);
                preds_d.push(i);
                std::mem::swap(&mut preds_d, &mut transposed[d]);
                proof {
                    assert forall|e: int| 0 <= e < n implies #[trigger] occurrences(succs@.subrange(0, j + 1), e as usize, i)
                        == occurrences(succs@.subrange(0, j as int), e as usize, i) + if succs@[j as int] == e as usize {
                        seq![i]
                    } else {
                        seq![]
                    } by {
                        assert(succs@.subrange(0, j + 1).drop_last() =~= succs@.subrange(0, j as int));
                    }
                    assert forall|e: int| 0 <= e < n implies #[trigger] transposed@[e]@ == preds_of(g0, e as usize, i as int)
                        + occurrences(succs@.subrange(0, j + 1), e as usize, i) by {
                        if e == d as int {
                            assert(transposed@[e]@ =~= preds_of(g0, e as usize, i as int)
                                + occurrences(succs@.subrange(0, j + 1), e as usize, i));
                        } else {
                            assert(transposed@[e]@ =~= preds_of(g0, e as usize, i as int)
                                + occurrences(succs@.subrange(0, j + 1), e as usize, i));
                        }
                    }
                }
                j = j + 1;
            }
            graph.push(succs);
            proof {
                let g1 = adj(graph@);
                assert(g1.subrange(0, i as int) =~= g0);
                assert(g1[i as int] == succs@);
                assert(succs@.subrange(0, succs@.len() as int) =~= succs@);
                assert forall|d: int| 0 <= d < n implies #[trigger] transposed@[d]@ == preds_of(g1, d as usize, i + 1) by {
                    lemma_preds_of_prefix(g0, g1, d as usize, i as int);
                }
                assert forall|j: int| 0 <= j < i + 1 implies (#[trigger] adj(graph@)[j]).len() <= 2 by {
                    if j < i {
                        assert(g1[j] == g0[j]);
                    }
                }
                assert forall|j: int, k: int| 0 <= j < i + 1 && 0 <= k < adj(graph@)[j].len() implies #[trigger] adj(graph@)[j][k] < n by {
                    if j < i {
                        assert(g1[j] == g0[j]);
                    }
                }
                assert forall|j: int| 0 <= j < i + 1 implies succ_spec(blocks@, j) == Ok::<Seq<usize>, CfgError>(
                    #[trigger] adj(graph@)[j],
                ) by {
                    if j < i {
                        assert(g1[j] == g0[j]);
                    }
                }
            }
            i = i + 1;
        }
        let cfg = Cfg { names, graph, transposed, ret_blocks };
        proof {
            assert(cfg.names_spec() =~= blocks@.map_values(|b: BasicBlock| b.name@));
        }
        Ok(cfg)
    }
}

proof fn lemma_edge_total_small(g: Seq<Seq<usize>>, k: int)
    requires
        0 <= k <= g.len(),
        forall|u: int| 0 <= u < g.len() ==> #[trigger] g[u].len() <= 2,
    ensures
        edge_total(g, k) <= 2 * k,
    decreases k,
{
    if k > 0 {
        lemma_edge_total_small(g, k - 1);
    }
}

impl Cfg {
    /// The number of blocks.
    pub open spec fn num_blocks(&self) -> nat {
        self.succ_lists().len()
    }

    /// The number of blocks.
    pub fn num_blocks_exec(&self) -> (r: usize)
        requires
            self.well_formed(),
        ensures
            r == self.num_blocks(),
    {
        self.graph.len()
    }

    /// Every successor is a block, and a block has at most two.
    pub open spec fn well_formed(&self) -> bool {
        &&& targets_in_range(self.succ_lists())
        &&& forall|u: int| 0 <= u < self.num_blocks() ==> #[trigger] self.succ_lists()[u].len() <= 2
        &&& self.pred_lists().len() == self.num_blocks()
        &&& forall|d: int| 0 <= d < self.num_blocks() ==> #[trigger] self.pred_lists()[d] == preds_of(
            self.succ_lists(),
            d as usize,
            self.num_blocks() as int,
        )
        &&& self.names_spec().len() == self.num_blocks()
    }

    /// The blocks that end in a return, in order.
    pub fn ret_blocks(&self) -> (r: &[usize])
        ensures
            r@ == self.ret_spec(),
    {
        self.ret_blocks.as_slice()
    }

    /// The position of the block named `name` (the last, if several are).
    pub fn id_of(&self, name: &String) -> (r: Option<usize>)
        ensures
            r == find_name(self.names_spec(), name@, self.names_spec().len() as int),
    {
        find_index(&self.names, name)
    }

    /// The successors of the block named `name`.
    pub fn succs(&self, name: &String) -> (r: Option<&[usize]>)
        requires
            self.well_formed(),
        ensures
            match find_name(self.names_spec(), name@, self.names_spec().len() as int) {
                Some(i) => r matches Some(s) && s@ == self.succ_lists()[i as int],
                None => r is None,
            },
    {
        let count = self.names.len();
        proof {
            lemma_find_name_bound(self.names_spec(), name@, self.names_spec().len() as int);
        }
        match find_index(&self.names, name) {
            Some(id) => Some(self.graph[id].as_slice()),
            None => None,
        }
    }

    /// The predecessors of the block named `name`, one entry per edge.
    pub fn preds(&self, name: &String) -> (r: Option<&[usize]>)
        requires
            self.well_formed(),
        ensures
            match find_name(self.names_spec(), name@, self.names_spec().len() as int) {
                Some(i) => r matches Some(s) && s@ == self.pred_lists()[i as int],
                None => r is None,
            },
    {
        let count = self.names.len();
        proof {
            lemma_find_name_bound(self.names_spec(), name@, self.names_spec().len() as int);
        }
        match find_index(&self.names, name) {
            Some(id) => Some(self.transposed[id].as_slice()),
            None => None,
        }
    }

    /// The successors of block `id`.
    pub fn succs_of(&self, id: usize) -> (r: &[usize])
        requires
            id < self.num_blocks(),
        ensures
            r@ == self.succ_lists()[id as int],
    {
        self.graph[id].as_slice()
    }

    /// The predecessors of block `id`, one entry per edge.
    pub fn preds_of(&self, id: usize) -> (r: &[usize])
        requires
            self.well_formed(),
            id < self.num_blocks(),
        ensures
            r@ == self.pred_lists()[id as int],
    {
        self.transposed[id].as_slice()
    }

    /// A visiting order of the blocks in which every block comes after its
    /// predecessors; on an acyclic graph it holds every block once.
    pub fn topo_order(&self) -> (order: Vec<usize>)
        requires
            self.well_formed(),
            self.num_blocks() <= usize::MAX / 2,
        ensures
            forall|i: int| 0 <= i < order@.len() ==> order@[i] < self.num_blocks(),
            order@.no_duplicates(),
            forall|p: int, q: int|
                #![trigger order@[p], order@[q]]
                0 <= p <= q < order@.len() ==> !self.succ_lists()[order@[q] as int].contains(order@[p]),
            forall|i: int, u: int|
                0 <= i < order@.len() && 0 <= u < self.num_blocks() && #[trigger] self.succ_lists()[u].contains(order@[i])
                    ==> order@.contains(u as usize),
            (exists|rank: spec_fn(usize) -> nat| is_ranking(self.succ_lists(), rank)) ==> forall|v: usize|
                v < self.num_blocks() ==> order@.contains(v),
            order@ == kahn_order(self.succ_lists()),
    {
        proof {
            lemma_edge_total_small(self.succ_lists(), self.num_blocks() as int);
        }
        topo_order(self.graph.as_slice())
    }
}

proof fn lemma_occurrences(s: Seq<usize>, d: usize, i: usize)
    ensures
        forall|m: int| 0 <= m < occurrences(s, d, i).len() ==> #[trigger] occurrences(s, d, i)[m] == i && s.contains(d),
    decreases s.len(),
{
    if s.len() > 0 {
        lemma_occurrences(s.drop_last(), d, i);
        let o = occurrences(s, d, i);
        let p = occurrences(s.drop_last(), d, i);
        assert forall|m: int| 0 <= m < o.len() implies #[trigger] o[m] == i && s.contains(d) by {
            if m < p.len() {
                assert(o[m] == p[m]);
                let k = choose|k: int| 0 <= k < s.drop_last().len() && s.drop_last()[k] == d;
                assert(s[k] == d);
            } else {
                assert(s[s.len() - 1] == d);
            }
        }
    }
}

/// Each entry of a predecessor list is an earlier node with an edge into
/// the block.
pub proof fn lemma_preds_of_edges(g: Seq<Seq<usize>>, d: usize, k: int)
    requires
        0 <= k <= g.len(),
        k <= usize::MAX + 1,
    ensures
        forall|m: int| 0 <= m < preds_of(g, d, k).len() ==> #[trigger] preds_of(g, d, k)[m] < k
            && g[preds_of(g, d, k)[m] as int].contains(d),
    decreases k,
{
    if k > 0 {
        lemma_preds_of_edges(g, d, k - 1);
        lemma_occurrences(g[k - 1], d, (k - 1) as usize);
        let a = preds_of(g, d, k - 1);
        let o = occurrences(g[k - 1], d, (k - 1) as usize);
        assert forall|m: int| 0 <= m < preds_of(g, d, k).len() implies #[trigger] preds_of(g, d, k)[m] < k
            && g[preds_of(g, d, k)[m] as int].contains(d) by {
            if m < a.len() {
                assert(preds_of(g, d, k)[m] == a[m]);
            } else {
                assert(preds_of(g, d, k)[m] == o[m - a.len()]);
            }
        }
    }
}

proof fn lemma_preds_of_prefix(g0: Seq<Seq<usize>>, g1: Seq<Seq<usize>>, d: usize, i: int)
    requires
        0 <= i < g1.len(),
        g0.len() == i,
        g1.subrange(0, i) == g0,
    ensures
        preds_of(g1, d, i + 1) == preds_of(g0, d, i) + occurrences(g1[i], d, i as usize),
{
    lemma_preds_of_same(g0, g1, d, i);
}

proof fn lemma_preds_of_same(g0: Seq<Seq<usize>>, g1: Seq<Seq<usize>>, d: usize, k: int)
    requires
        0 <= k <= g0.len(),
        k <= g1.len(),
        forall|j: int| 0 <= j < k ==> g0[j] == g1[j],
    ensures
        preds_of(g1, d, k) == preds_of(g0, d, k),
    decreases k,
{
    if k > 0 {
        lemma_preds_of_same(g0, g1, d, k - 1);
    }
}

/// The position of the last name equal to `name`.
fn find_index(names: &Vec<String>, name: &String) -> (r: Option<usize>)
    ensures
        r == find_name(names@.map_values(|s: String| s@), name@, names@.len() as int),
{
    let ghost ns = names@.map_values(|s: String| s@);
    let mut k: usize = names.len();
    while k > 0
        invariant
            k <= names@.len(),
            ns == names@.map_values(|s: String| s@),
            find_name(ns, name@, names@.len() as int) == find_name(ns, name@, k as int),
        decreases k,
    {
        if text_eq(names[k - 1].as_str(), name.as_str()) {
            return Some(k - 1);
        }
        k = k - 1;
    }
    None
}

} // verus!

//! Natural loops: a block dominating one of its predecessors heads a loop,
//! whose body is found by walking predecessors back from that edge.
use vstd::prelude::*;
use crate::cfg::Cfg;

verus! {

/// Dominance between the blocks of a graph: `dom[a][b]` holds when block
/// `a` dominates block `b`.
pub struct Dominance {
    dom: Vec<Vec<bool>>,
}

impl Dominance {
    /// Block `a` dominates block `b`.
    pub closed spec fn dom_spec(&self, a: usize, b: usize) -> bool {
        a < self.dom@.len() && b < self.dom@[a as int]@.len() && self.dom@[a as int]@[b as int]
    }

    /// Block `a` dominates block `b`, and is another block.
    pub open spec fn sdom_spec(&self, a: usize, b: usize) -> bool {
        a != b && self.dom_spec(a, b)
    }

    /// The relation given as a matrix; pairs outside it do not dominate.
    pub fn new(dom: Vec<Vec<bool>>) -> (r: Dominance)
        ensures
            forall|a: usize, b: usize| #[trigger] r.dom_spec(a, b) == (a < dom@.len() && b < dom@[a as int]@.len()
                && dom@[a as int]@[b as int]),
    {
        Dominance { dom }
    }

    pub fn dominates(&self, a: usize, b: usize) -> (r: bool)
        ensures
            r == self.dom_spec(a, b),
    {
        a < self.dom.len() && b < self.dom[a].len() && self.dom[a][b]
    }

    pub fn strictly_dominates(&self, a: usize, b: usize) -> (r: bool)
        ensures
            r == self.sdom_spec(a, b),
    {
        a != b && self.dominates(a, b)
    }
}

/// A natural loop: its header, the source of its one back edge, the one
/// member with an edge leaving the loop, and all its members.
pub struct Loop {
    pub header: usize,
    pub back_node: usize,
    pub exit_node: usize,
    pub parts: Vec<usize>,
}

/// Why the loops of a graph are not of the supported shape.
#[derive(Clone, Copy, Debug, PartialEq, Eq, Structural)]
pub enum LoopError {
    /// This header has more than one back edge.
    MultipleBackEdges { header: usize },
    /// The loop with this header has no member, or several, with an edge
    /// out of it.
    NotSingleExit { header: usize },
}

/// `t` holds every predecessor, strictly dominated by `h`, of each of its
/// members.
pub open spec fn closed_under_preds(cfg: &Cfg, dom: &Dominance, h: usize, t: Set<usize>) -> bool {
    forall|x: usize, m: int|
        #![trigger t.contains(x), cfg.pred_lists()[x as int][m]]
        t.contains(x) && x < cfg.num_blocks() && 0 <= m < cfg.pred_lists()[x as int].len() && dom.sdom_spec(
            h,
            cfg.pred_lists()[x as int][m],
        ) ==> t.contains(cfg.pred_lists()[x as int][m])
}

/// The body of the natural loop of the back edge `b -> h`: the header,
/// and the least set that holds `b` and is closed under predecessors
/// strictly dominated by `h`.
pub open spec fn loop_body(cfg: &Cfg, dom: &Dominance, h: usize, b: usize) -> Set<usize> {
    Set::new(
        |x: usize|
            x == h || forall|t: Set<usize>| #[trigger] closed_under_preds(cfg, dom, h, t) && t.contains(b) ==> t.contains(x),
    )
}

/// Collects the body of the natural loop of the back edge `back -> header`.
pub fn find_loop_nodes(cfg: &Cfg, dom: &Dominance, header: usize, back: usize) -> (r: Vec<usize>)
    requires
        cfg.well_formed(),
        header < cfg.num_blocks(),
        back < cfg.num_blocks(),
    ensures
        r@.no_duplicates(),
        r@.to_set() == loop_body(cfg, dom, header, back),
        forall|i: int| 0 <= i < r@.len() ==> r@[i] < cfg.num_blocks(),
{
    let n = cfg.num_blocks_exec();
    let mut marks: Vec<bool> = Vec::new();
    let mut k: usize = 0;
    while k < n
        invariant
            k <= n,
            marks@.len() == k,
            forall|v: int| 0 <= v < k ==> !marks@[v],
        decreases n - k,
    {
        marks.push(false);
        k = k + 1;
    }
    marks.set(back, true);
    let mut seen: Vec<usize> = vec![back];
    let mut worklist: Vec<usize> = vec![back];
    proof {
        assert(seen@ =~= seq![back]);
        assert(worklist@ =~= seq![back]);
        assert forall|v: usize| v < n implies #[trigger] marks@[v as int] == seen@.contains(v) by {
            if v == back {
                assert(seen@[0] == back);
            }
        }
    }
    while worklist.len() > 0
        invariant
            cfg.well_formed(),
            n == cfg.num_blocks(),
            header < n,
            back < n,
            marks@.len() == n,
            seen@.no_duplicates(),
            forall|i: int| 0 <= i < seen@.len() ==> seen@[i] < n,
            forall|v: usize| v < n ==> #[trigger] marks@[v as int] == seen@.contains(v),
            seen@.contains(back),
            worklist@.no_duplicates(),
            forall|i: int| 0 <= i < worklist@.len() ==> seen@.contains(#[trigger] worklist@[i]),
            forall|x: usize, m: int|
                #![trigger seen@.contains(x), cfg.pred_lists()[x as int][m]]
                seen@.contains(x) && !worklist@.contains(x) && 0 <= m < cfg.pred_lists()[x as int].len()
                    && dom.sdom_spec(header, cfg.pred_lists()[x as int][m]) ==> seen@.contains(
                    cfg.pred_lists()[x as int][m],
                ),
            forall|t: Set<usize>|
                #[trigger] closed_under_preds(cfg, dom, header, t) && t.contains(back) ==> forall|i: int|
                    0 <= i < seen@.len() ==> t.contains(#[trigger] seen@[i]),
        decreases n - seen@.len(), worklist@.len(),
    {
        proof {
            crate::cfg::lemma_no_dup_len(seen@, n);
        }
        let ghost wl0 = worklist@;
        let node = worklist.pop().unwrap();
        let preds = cfg.preds_of(node);
        let ghost s0 = seen@.len();
        let ghost w0 = worklist@.len();
        proof {
            assert(wl0 =~= worklist@.push(node));
            assert(!worklist@.contains(node)) by {
                if worklist@.contains(node) {
                    let i = choose|i: int| 0 <= i < worklist@.len() && worklist@[i] == node;
                    assert(wl0[i] == wl0[wl0.len() - 1]);
                }
            }
            assert forall|i: int| 0 <= i < worklist@.len() implies seen@.contains(#[trigger] worklist@[i]) by {
                assert(wl0[i] == worklist@[i]);
            }
            assert(seen@.contains(wl0[wl0.len() - 1]));
            assert forall|x: usize, m: int|
                #![trigger seen@.contains(x), cfg.pred_lists()[x as int][m]]
                seen@.contains(x) && !worklist@.contains(x) && x != node && 0 <= m < cfg.pred_lists()[x as int].len()
                    && dom.sdom_spec(header, cfg.pred_lists()[x as int][m]) implies seen@.contains(
                    cfg.pred_lists()[x as int][m],
                ) by {
                if wl0.contains(x) {
                    let i = choose|i: int| 0 <= i < wl0.len() && wl0[i] == x;
                    if i < worklist@.len() {
                        assert(worklist@[i] == x);
                    }
                }
            }
            crate::cfg::lemma_preds_of_edges(cfg.succ_lists(), node, n as int);
        }
        let mut j: usize = 0;
        while j < preds.len()
            invariant
                cfg.well_formed(),
                n == cfg.num_blocks(),
                node < n,
                preds@ == cfg.pred_lists()[node as int],
                j <= preds@.len(),
                marks@.len() == n,
                seen@.no_duplicates(),
                forall|i: int| 0 <= i < seen@.len() ==> seen@[i] < n,
                forall|v: usize| v < n ==> #[trigger] marks@[v as int] == seen@.contains(v),
                seen@.contains(back),
                seen@.contains(node),
                !worklist@.contains(node),
                worklist@.no_duplicates(),
                forall|i: int| 0 <= i < worklist@.len() ==> seen@.contains(#[trigger] worklist@[i]),
                forall|x: usize, m: int|
                    #![trigger seen@.contains(x), cfg.pred_lists()[x as int][m]]
                    seen@.contains(x) && !worklist@.contains(x) && x != node && 0 <= m < cfg.pred_lists()[x as int].len()
                        && dom.sdom_spec(header, cfg.pred_lists()[x as int][m]) ==> seen@.contains(
                        cfg.pred_lists()[x as int][m],
                    ),
                forall|m: int| 0 <= m < j && dom.sdom_spec(header, #[trigger] preds@[m]) ==> seen@.contains(preds@[m]),
                forall|m: int| 0 <= m < preds@.len() ==> #[trigger] preds@[m] < n,
                seen@.len() >= s0,
                worklist@.len() + s0 == seen@.len() + w0,
                forall|t: Set<usize>|
                    #[trigger] closed_under_preds(cfg, dom, header, t) && t.contains(back) ==> forall|i: int|
                        0 <= i < seen@.len() ==> t.contains(#[trigger] seen@[i]),
            decreases preds@.len() - j,
        {
            let p = preds[j];
            if dom.strictly_dominates(header, p) && !marks[p] {
                let ghost old_seen = seen@;
                let ghost old_wl = worklist@;
                marks.set(p, true);
                seen.push(p);
                worklist.push(p);
                proof {
                    assert(!old_seen.contains(p));
                    assert forall|v: usize| v < n implies #[trigger] marks@[v as int] == seen@.contains(v) by {
                        if v == p {
                            assert(seen@[old_seen.len() as int] == p);
                        } else if seen@.contains(v) {
                            let i = choose|i: int| 0 <= i < seen@.len() && seen@[i] == v;
                            assert(old_seen[i] == v);
                        } else if old_seen.contains(v) {
                            let i = choose|i: int| 0 <= i < old_seen.len() && old_seen[i] == v;
                            assert(seen@[i] == v);
                        }
                    }
                    assert forall|i: int, k2: int| 0 <= i < k2 < seen@.len() implies seen@[i] != seen@[k2] by {
                        if k2 == old_seen.len() {
                            assert(old_seen.contains(seen@[i]) ==> seen@[i] != p);
                            assert(old_seen[i] == seen@[i]);
                        }
                    }
                    assert(!old_wl.contains(p)) by {
                        if old_wl.contains(p) {
                            let i = choose|i: int| 0 <= i < old_wl.len() && old_wl[i] == p;
                            assert(old_seen.contains(old_wl[i]));
                        }
                    }
                    assert forall|i: int, k2: int| 0 <= i < k2 < worklist@.len() implies worklist@[i] != worklist@[k2] by {
                        if k2 == old_wl.len() {
                            assert(old_wl[i] == worklist@[i]);
                        }
                    }
                    assert forall|i: int| 0 <= i < worklist@.len() implies seen@.contains(#[trigger] worklist@[i]) by {
                        if i < old_wl.len() {
                            assert(old_seen.contains(old_wl[i]));
                            let k2 = choose|k2: int| 0 <= k2 < old_seen.len() && old_seen[k2] == old_wl[i];
                            assert(seen@[k2] == old_wl[i]);
                        } else {
                            assert(seen@[old_seen.len() as int] == p);
                        }
                    }
                    assert(seen@.contains(back)) by {
                        let k2 = choose|k2: int| 0 <= k2 < old_seen.len() && old_seen[k2] == back;
                        assert(seen@[k2] == back);
                    }
                    assert(seen@.contains(node)) by {
                        let k2 = choose|k2: int| 0 <= k2 < old_seen.len() && old_seen[k2] == node;
                        assert(seen@[k2] == node);
                    }
                    assert forall|x: usize, m: int|
                        #![trigger seen@.contains(x), cfg.pred_lists()[x as int][m]]
                        seen@.contains(x) && !worklist@.contains(x) && x != node && 0 <= m < cfg.pred_lists()[x as int].len()
                            && dom.sdom_spec(header, cfg.pred_lists()[x as int][m]) implies seen@.contains(
                            cfg.pred_lists()[x as int][m],
                        ) by {
                        if x != p {
                            let i = choose|i: int| 0 <= i < seen@.len() && seen@[i] == x;
                            assert(old_seen[i] == x);
                            assert(old_seen.contains(x));
                            if old_wl.contains(x) {
                                let i2 = choose|i2: int| 0 <= i2 < old_wl.len() && old_wl[i2] == x;
                                assert(worklist@[i2] == x);
                            }
                            let q = cfg.pred_lists()[x as int][m];
                            let k2 = choose|k2: int| 0 <= k2 < old_seen.len() && old_seen[k2] == q;
                            assert(seen@[k2] == q);
                        } else {
                            assert(worklist@[old_wl.len() as int] == p);
                        }
                    }
                    assert forall|m: int| 0 <= m < j + 1 && dom.sdom_spec(header, #[trigger] preds@[m]) implies seen@.contains(preds@[m]) by {
                        if m < j {
                            let k2 = choose|k2: int| 0 <= k2 < old_seen.len() && old_seen[k2] == preds@[m];
                            assert(seen@[k2] == preds@[m]);
                        } else {
                            assert(seen@[old_seen.len() as int] == p);
                        }
                    }
                    assert forall|t: Set<usize>|
                        #[trigger] closed_under_preds(cfg, dom, header, t) && t.contains(back) implies forall|i: int|
                            0 <= i < seen@.len() ==> t.contains(#[trigger] seen@[i]) by {
                        assert forall|i: int| 0 <= i < seen@.len() implies t.contains(#[trigger] seen@[i]) by {
                            if i < old_seen.len() {
                                assert(old_seen[i] == seen@[i]);
                            } else {
                                let kn = choose|kn: int| 0 <= kn < old_seen.len() && old_seen[kn] == node;
                                assert(t.contains(old_seen[kn]));
                                assert(t.contains(node));
                                assert(cfg.pred_lists()[node as int][j as int] == p);
                            }
                        }
                    }
                }
            } else {
                proof {
                    assert forall|m: int| 0 <= m < j + 1 && dom.sdom_spec(header, #[trigger] preds@[m]) implies seen@.contains(preds@[m]) by {
                        if m == j {
                            assert(marks@[p as int]);
                        }
                    }
                }
            }
            j = j + 1;
        }
        proof {
            crate::cfg::lemma_no_dup_len(seen@, n);
        }
    }
    let ghost body = seen@;
    if !marks[header] {
        let ghost old_seen = seen@;
        seen.push(header);
        proof {
            assert forall|i: int, k2: int| 0 <= i < k2 < seen@.len() implies seen@[i] != seen@[k2] by {
                if k2 == old_seen.len() {
                    assert(old_seen[i] == seen@[i]);
                }
            }
        }
    }
    proof {
        let ls = loop_body(cfg, dom, header, back);
        assert(closed_under_preds(cfg, dom, header, body.to_set())) by {
            assert forall|x: usize, m: int|
                #![trigger body.to_set().contains(x), cfg.pred_lists()[x as int][m]]
                body.to_set().contains(x) && x < cfg.num_blocks() && 0 <= m < cfg.pred_lists()[x as int].len() && dom.sdom_spec(
                    header,
                    cfg.pred_lists()[x as int][m],
                ) implies body.to_set().contains(cfg.pred_lists()[x as int][m]) by {
                assert(body.contains(x));
            }
        }
        assert forall|x: usize| #[trigger] seen@.to_set().contains(x) == ls.contains(x) by {
            if ls.contains(x) && x != header {
                assert(body.to_set().contains(back));
                assert(body.to_set().contains(x));
                let i = choose|i: int| 0 <= i < body.len() && body[i] == x;
                assert(seen@[i] == x);
            }
            if seen@.contains(x) && x != header {
                let i = choose|i: int| 0 <= i < seen@.len() && seen@[i] == x;
                if i < body.len() {
                    assert(body[i] == x);
                }
                assert forall|t: Set<usize>| #[trigger] closed_under_preds(cfg, dom, header, t) && t.contains(back) implies t.contains(x) by {
                    assert(body[i] == x);
                }
            }
            if x == header {
                if marks@[header as int] {
                    assert(body.contains(header));
                    let i = choose|i: int| 0 <= i < body.len() && body[i] == header;
                    assert(seen@[i] == header);
                } else {
                    assert(seen@[seen@.len() - 1] == header);
                }
            }
        }
        assert(seen@.to_set() =~= ls);
    }
    seen
}

/// The distinct predecessors of `h` that `h` dominates: the sources of
/// its back edges.
pub open spec fn back_edges(cfg: &Cfg, dom: &Dominance, h: usize) -> Set<usize> {
    Set::new(|p: usize| cfg.pred_lists()[h as int].contains(p) && dom.dom_spec(h, p))
}

/// Block `x` has an edge to a block outside `body`.
pub open spec fn leaves(cfg: &Cfg, body: Set<usize>, x: usize) -> bool {
    exists|j: int| 0 <= j < cfg.succ_lists()[x as int].len() && !body.contains(#[trigger] cfg.succ_lists()[x as int][j])
}

/// Exactly one member of the loop body has an edge out of it.
pub open spec fn single_exit(cfg: &Cfg, dom: &Dominance, h: usize, b: usize) -> bool {
    let body = loop_body(cfg, dom, h, b);
    exists|x: usize|
        #![trigger body.contains(x)]
        body.contains(x) && leaves(cfg, body, x) && forall|y: usize| body.contains(y) && leaves(cfg, body, y) ==> y == x
}

/// `l` is the natural loop headed by `l.header`, of the supported shape.
pub open spec fn is_natural_loop(cfg: &Cfg, dom: &Dominance, l: Loop) -> bool {
    let body = loop_body(cfg, dom, l.header, l.back_node);
    &&& l.header < cfg.num_blocks()
    &&& back_edges(cfg, dom, l.header) == set![l.back_node]
    &&& l.parts@.no_duplicates()
    &&& l.parts@.to_set() == body
    &&& body.contains(l.exit_node)
    &&& leaves(cfg, body, l.exit_node)
    &&& forall|y: usize| body.contains(y) && leaves(cfg, body, y) ==> y == l.exit_node
}

fn vec_contains(v: &Vec<usize>, x: usize) -> (r: bool)
    ensures
        r == v@.contains(x),
{
    let mut i: usize = 0;
    while i < v.len()
        invariant
            i <= v@.len(),
            forall|j: int| 0 <= j < i ==> v@[j] != x,
        decreases v@.len() - i,
    {
        if v[i] == x {
            return true;
        }
        i = i + 1;
    }
    false
}

/// Whether block `x` has an edge to a block outside `parts`.
fn has_outside_succ(cfg: &Cfg, parts: &Vec<usize>, x: usize) -> (r: bool)
    requires
        cfg.well_formed(),
        x < cfg.num_blocks(),
    ensures
        r == leaves(cfg, parts@.to_set(), x),
{
    let succs = cfg.succs_of(x);
    let mut j: usize = 0;
    while j < succs.len()
        invariant
            succs@ == cfg.succ_lists()[x as int],
            j <= succs@.len(),
            forall|k: int| 0 <= k < j ==> parts@.to_set().contains(#[trigger] succs@[k]),
        decreases succs@.len() - j,
    {
        if !vec_contains(parts, succs[j]) {
            assert(!parts@.to_set().contains(cfg.succ_lists()[x as int][j as int]));
            return true;
        }
        j = j + 1;
    }
    false
}

/// `loops` are the natural loops of the graph, one for each block with a
/// back edge, in the order of their headers.
pub open spec fn all_loops(cfg: &Cfg, dom: &Dominance, loops: Seq<Loop>) -> bool {
    &&& forall|k: int| 0 <= k < loops.len() ==> is_natural_loop(cfg, dom, #[trigger] loops[k])
    &&& forall|k: int| 0 <= k < loops.len() - 1 ==> #[trigger] loops[k].header < loops[k + 1].header
    &&& forall|h: usize| h < cfg.num_blocks() ==> (!back_edges(cfg, dom, h).is_empty() <==> exists|k: int|
        0 <= k < loops.len() && #[trigger] loops[k].header == h)
}

/// Block `h` has back edges from two distinct blocks.
pub open spec fn two_back_edges(cfg: &Cfg, dom: &Dominance, h: usize) -> bool {
    exists|a: usize, b: usize|
        a != b && #[trigger] back_edges(cfg, dom, h).contains(a) && #[trigger] back_edges(cfg, dom, h).contains(b)
}

/// Finds the natural loops of a graph, in the order of their headers: each
/// block that dominates one of its predecessors heads one. Only loops with
/// one back edge and one exit are supported.
pub fn find_loops(cfg: &Cfg, dom: &Dominance) -> (r: Result<Vec<Loop>, LoopError>)
    requires
        cfg.well_formed(),
    ensures
        r matches Ok(loops) ==> all_loops(cfg, dom, loops@),
        r matches Err(LoopError::MultipleBackEdges { header }) ==> header < cfg.num_blocks() && two_back_edges(
            cfg,
            dom,
            header,
        ),
        r matches Err(LoopError::NotSingleExit { header }) ==> header < cfg.num_blocks() && exists|b: usize|
            #[trigger] back_edges(cfg, dom, header) == set![b] && !single_exit(cfg, dom, header, b),
{
    let n = cfg.num_blocks_exec();
    let mut loops: Vec<Loop> = Vec::new();
    let mut h: usize = 0;
    while h < n
        invariant
            cfg.well_formed(),
            n == cfg.num_blocks(),
            h <= n,
            forall|k: int| 0 <= k < loops@.len() ==> is_natural_loop(cfg, dom, #[trigger] loops@[k]),
            forall|k: int| 0 <= k < loops@.len() ==> #[trigger] loops@[k].header < h,
            forall|k: int| 0 <= k < loops@.len() - 1 ==> #[trigger] loops@[k].header < loops@[k + 1].header,
            forall|g: usize| g < h ==> (!back_edges(cfg, dom, g).is_empty() <==> exists|k: int|
                0 <= k < loops@.len() && #[trigger] loops@[k].header == g),
        decreases n - h,
    {
        let preds = cfg.preds_of(h);
        proof {
            crate::cfg::lemma_preds_of_edges(cfg.succ_lists(), h, n as int);
        }
        let mut back: Option<usize> = None;
        let mut j: usize = 0;
        while j < preds.len()
            invariant
                preds@ == cfg.pred_lists()[h as int],
                h < n,
                n == cfg.num_blocks(),
                j <= preds@.len(),
                forall|m: int| 0 <= m < preds@.len() ==> #[trigger] preds@[m] < n,
                back is None ==> forall|m: int| 0 <= m < j ==> !dom.dom_spec(h, #[trigger] preds@[m]),
                back matches Some(b) ==> b < n && back_edges(cfg, dom, h).contains(b) && forall|m: int|
                    0 <= m < j && dom.dom_spec(h, #[trigger] preds@[m]) ==> preds@[m] == b,
            decreases preds@.len() - j,
        {
            let p = preds[j];
            if dom.dominates(h, p) {
                assert(preds@.contains(p));
                match back {
                    None => {
                        back = Some(p);
                    },
                    Some(b) => {
                        if b != p {
                            assert(back_edges(cfg, dom, h).contains(p));
                            assert(back_edges(cfg, dom, h).contains(b));
                            assert(two_back_edges(cfg, dom, h));
                            return Err(LoopError::MultipleBackEdges { header: h });
                        }
                    },
                }
            }
            j = j + 1;
        }
        match back {
            None => {
                proof {
                    assert(back_edges(cfg, dom, h) =~= Set::<usize>::empty()) by {
                        assert forall|p: usize| !back_edges(cfg, dom, h).contains(p) by {
                            if back_edges(cfg, dom, h).contains(p) {
                                let m = choose|m: int| 0 <= m < preds@.len() && preds@[m] == p;
                            }
                        }
                    }
                }
            },
            Some(b) => {
                proof {
                    assert(back_edges(cfg, dom, h) =~= set![b]) by {
                        assert forall|p: usize| back_edges(cfg, dom, h).contains(p) implies p == b by {
                            let m = choose|m: int| 0 <= m < preds@.len() && preds@[m] == p;
                        }
                    }
                }
                let parts = find_loop_nodes(cfg, dom, h, b);
                let ghost body = loop_body(cfg, dom, h, b);
                let exit = find_exit(cfg, &parts);
                match exit {
                    None => {
                        proof {
                            assert(back_edges(cfg, dom, h) == set![b]);
                        }
                        return Err(LoopError::NotSingleExit { header: h });
                    },
                    Some(x) => {
                        let ghost before = loops@;
                        loops.push(Loop { header: h, back_node: b, exit_node: x, parts });
                        proof {
                            assert(loops@[before.len() as int].header == h);
                            assert forall|g: usize| g < h + 1 implies (!back_edges(cfg, dom, g).is_empty() <==> exists|k: int|
                                0 <= k < loops@.len() && #[trigger] loops@[k].header == g) by {
                                if g < h {
                                    if exists|k: int| 0 <= k < loops@.len() && #[trigger] loops@[k].header == g {
                                        let k = choose|k: int| 0 <= k < loops@.len() && #[trigger] loops@[k].header == g;
                                        assert(before[k].header == g);
                                    }
                                    if exists|k: int| 0 <= k < before.len() && #[trigger] before[k].header == g {
                                        let k = choose|k: int| 0 <= k < before.len() && #[trigger] before[k].header == g;
                                        assert(loops@[k].header == g);
                                    }
                                } else {
                                    assert(back_edges(cfg, dom, h).contains(b));
                                }
                            }
                        }
                    },
                }
            },
        }
        proof {
            if back is None {
                assert forall|g: usize| g < h + 1 implies (!back_edges(cfg, dom, g).is_empty() <==> exists|k: int|
                    0 <= k < loops@.len() && #[trigger] loops@[k].header == g) by {
                    if g == h {
                        assert(back_edges(cfg, dom, h).is_empty());
                    }
                }
            }
        }
        h = h + 1;
    }
    assert(forall|h: usize| h < cfg.num_blocks() ==> (!back_edges(cfg, dom, h).is_empty() <==> exists|k: int|
        0 <= k < loops@.len() && #[trigger] loops@[k].header == h));
    assert(forall|k: int| 0 <= k < loops@.len() ==> is_natural_loop(cfg, dom, #[trigger] loops@[k]));
    assert(forall|k: int| 0 <= k < loops@.len() - 1 ==> #[trigger] loops@[k].header < loops@[k + 1].header);
    assert(all_loops(cfg, dom, loops@));
    Ok(loops)
}

/// The one member of `parts` with an edge out of it, if exactly one has.
fn find_exit(cfg: &Cfg, parts: &Vec<usize>) -> (r: Option<usize>)
    requires
        cfg.well_formed(),
        forall|i: int| 0 <= i < parts@.len() ==> parts@[i] < cfg.num_blocks(),
    ensures
        match r {
            Some(x) => parts@.to_set().contains(x) && leaves(cfg, parts@.to_set(), x) && forall|y: usize|
                parts@.to_set().contains(y) && leaves(cfg, parts@.to_set(), y) ==> y == x,
            None => !exists|x: usize|
                #![trigger parts@.to_set().contains(x)]
                parts@.to_set().contains(x) && leaves(cfg, parts@.to_set(), x) && forall|y: usize|
                    parts@.to_set().contains(y) && leaves(cfg, parts@.to_set(), y) ==> y == x,
        },
{
    let ghost body = parts@.to_set();
    let mut exit: Option<usize> = None;
    let mut e: usize = 0;
    while e < parts.len()
        invariant
            cfg.well_formed(),
            body == parts@.to_set(),
            forall|i: int| 0 <= i < parts@.len() ==> parts@[i] < cfg.num_blocks(),
            e <= parts@.len(),
            exit is None ==> forall|i: int| 0 <= i < e ==> !leaves(cfg, body, #[trigger] parts@[i]),
            exit matches Some(x) ==> body.contains(x) && leaves(cfg, body, x) && forall|i: int|
                0 <= i < e && leaves(cfg, body, #[trigger] parts@[i]) ==> parts@[i] == x,
        decreases parts@.len() - e,
    {
        let x = parts[e];
        if has_outside_succ(cfg, parts, x) {
            assert(parts@.contains(x));
            match exit {
                None => {
                    exit = Some(x);
                },
                Some(x0) => {
                    if x0 != x {
                        proof {
                            assert(body.contains(x));
                            if exists|y: usize|
                                #![trigger body.contains(y)]
                                body.contains(y) && leaves(cfg, body, y) && forall|z: usize| body.contains(z) && leaves(cfg, body, z) ==> z == y {
                                let y = choose|y: usize|
                                    #![trigger body.contains(y)]
                                    body.contains(y) && leaves(cfg, body, y) && forall|z: usize| body.contains(z) && leaves(cfg, body, z) ==> z == y;
                                assert(body.contains(x) && leaves(cfg, body, x));
                                assert(body.contains(x0) && leaves(cfg, body, x0));
                            }
                        }
                        return None;
                    }
                },
            }
        }
        e = e + 1;
    }
    match exit {
        None => {
            proof {
                assert forall|y: usize| #![trigger body.contains(y)] body.contains(y) implies !leaves(cfg, body, y) by {
                    let i = choose|i: int| 0 <= i < parts@.len() && parts@[i] == y;
                }
            }
            None
        },
        Some(x) => {
            proof {
                assert forall|y: usize| body.contains(y) && leaves(cfg, body, y) implies y == x by {
                    let i = choose|i: int| 0 <= i < parts@.len() && parts@[i] == y;
                }
            }
            Some(x)
        },
    }
}

/// Dominance behaves as dominance does: it is transitive and antisymmetric.
pub open spec fn dominance_laws(dom: &Dominance) -> bool {
    &&& forall|a: usize, b: usize, c: usize| #[trigger] dom.dom_spec(a, b) && #[trigger] dom.dom_spec(b, c) ==> dom.dom_spec(a, c)
    &&& forall|a: usize, b: usize| #[trigger] dom.dom_spec(a, b) && dom.dom_spec(b, a) ==> a == b
}

/// A loop nested in another has a body strictly inside the other's: if the
/// inner header `h2` lies in the body of the loop of `b1 -> h1` and `h1`
/// strictly dominates it, and the inner back edge `b2 -> h2` starts inside
/// that body too, then the inner body is a subset of the outer body that
/// leaves out `h1`.
pub proof fn lemma_nested_loop_body(cfg: &Cfg, dom: &Dominance, h1: usize, b1: usize, h2: usize, b2: usize)
    requires
        dominance_laws(dom),
        dom.sdom_spec(h1, h2),
        b1 != h1,
        b2 != h1,
        loop_body(cfg, dom, h1, b1).contains(h2),
        loop_body(cfg, dom, h1, b1).contains(b2),
    ensures
        loop_body(cfg, dom, h2, b2).subset_of(loop_body(cfg, dom, h1, b1)),
        loop_body(cfg, dom, h1, b1).contains(h1),
        !loop_body(cfg, dom, h2, b2).contains(h1),
{
    let t1 = Set::new(
        |x: usize| forall|t: Set<usize>| #[trigger] closed_under_preds(cfg, dom, h1, t) && t.contains(b1) ==> t.contains(x),
    );
    assert(closed_under_preds(cfg, dom, h2, t1)) by {
        assert forall|x: usize, m: int|
            #![trigger t1.contains(x), cfg.pred_lists()[x as int][m]]
            t1.contains(x) && x < cfg.num_blocks() && 0 <= m < cfg.pred_lists()[x as int].len() && dom.sdom_spec(
                h2,
                cfg.pred_lists()[x as int][m],
            ) implies t1.contains(cfg.pred_lists()[x as int][m]) by {
            let p = cfg.pred_lists()[x as int][m];
            assert(dom.dom_spec(h1, h2) && dom.dom_spec(h2, p));
            assert(dom.dom_spec(h1, p));
            if p == h1 {
                assert(dom.dom_spec(h2, h1));
            }
            assert forall|t: Set<usize>| #[trigger] closed_under_preds(cfg, dom, h1, t) && t.contains(b1) implies t.contains(p) by {
                assert(t.contains(x));
            }
        }
    }
    assert(t1.contains(b2));
    let t0 = Set::new(|x: usize| x == b1 || dom.sdom_spec(h1, x));
    assert(closed_under_preds(cfg, dom, h1, t0));
    assert(t0.contains(b1));
    assert(!t1.contains(h1)) by {
        assert(!t0.contains(h1));
    }
    assert forall|x: usize| loop_body(cfg, dom, h2, b2).contains(x) implies loop_body(cfg, dom, h1, b1).contains(x) by {
        if x != h2 {
            assert(t1.contains(x));
        }
    }
}

/// The loop of a block that branches to itself, where no other
/// predecessor of the block is dominated by it, is that block alone.
pub proof fn lemma_self_loop_body(cfg: &Cfg, dom: &Dominance, h: usize)
    requires
        h < cfg.num_blocks(),
        forall|m: int| 0 <= m < cfg.pred_lists()[h as int].len() ==> !dom.sdom_spec(h, #[trigger] cfg.pred_lists()[h as int][m]),
    ensures
        loop_body(cfg, dom, h, h) == set![h],
{
    let t = set![h];
    assert(closed_under_preds(cfg, dom, h, t));
    assert(loop_body(cfg, dom, h, h) =~= set![h]) by {
        assert forall|x: usize| loop_body(cfg, dom, h, h).contains(x) implies x == h by {
            if x != h {
                assert(t.contains(x));
            }
        }
    }
}

} // verus!

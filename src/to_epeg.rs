//! Translation of a function of basic blocks into one acyclic expression:
//! control flow becomes conditional merges over path conditions, and memory
//! becomes an explicit chain of witness nodes per pointer.
use vstd::prelude::*;
use crate::cfg::{Cfg, CfgError, first_error, is_ranking, kahn_order, preds_of, succ_spec, lemma_preds_of_edges};
use crate::interp::node_seq;
use crate::ir::{BasicBlock, Instruction, IrFunction, Operand, Terminator};
use crate::lang::{Lang, Node};
use crate::text::text_eq;

verus! {

/// Every child of every node comes before it.
pub open spec fn buffer_wf(nodes: Seq<Node>) -> bool {
    forall|i: int, j: int|
        0 <= i < nodes.len() && 0 <= j < nodes[i].children().len() ==> #[trigger] nodes[i].children()[j]
            < i
}

/// A translated function: its name and parameters, the expression buffer,
/// and the position of the node that gives its return value.
pub struct Function {
    pub name: String,
    pub params: Vec<String>,
    pub body: Vec<Lang>,
    pub root: usize,
    /// For each block: the state that its instructions start from.
    pub trace: Ghost<Map<usize, TState>>,
}

/// Why a function could not be translated.
#[derive(Clone, Debug, PartialEq, Eq)]
pub enum TranslateError {
    /// The control-flow graph could not be built.
    Cfg(CfgError),
    /// The blocks form a cycle, which this translation does not handle.
    CyclicGraph,
    /// A variable is used before an instruction defines it.
    UnknownVariable(String),
    /// A load or store in this block goes through a pointer with no single
    /// current memory state.
    WitnessNotFound { block: usize, ptr: usize },
    /// An instruction of this block is outside the supported subset.
    UnsupportedInstruction { block: usize },
    /// This block returns no value.
    VoidReturn { block: usize },
    /// No block returns.
    NoReturn,
    /// Allocation-site identifiers ran out.
    TooManyAllocations,
}

/// An operand as a mathematical value.
pub enum OperandV {
    Constant(i64),
    Variable(Seq<char>),
}

pub open spec fn operand_view(o: Operand) -> OperandV {
    match o {
        Operand::Constant(c) => OperandV::Constant(c),
        Operand::Variable(s) => OperandV::Variable(s@),
    }
}

fn operand_eq(a: &Operand, b: &Operand) -> (r: bool)
    ensures
        r == (operand_view(*a) == operand_view(*b)),
{
    match (a, b) {
        (Operand::Constant(x), Operand::Constant(y)) => *x == *y,
        (Operand::Variable(x), Operand::Variable(y)) => text_eq(x.as_str(), y.as_str()),
        _ => false,
    }
}

/// The node that the latest binding of operand `o` names.
pub open spec fn interned(to_id: Seq<(Operand, usize)>, o: OperandV) -> Option<usize>
    decreases to_id.len(),
{
    if to_id.len() == 0 {
        None
    } else if operand_view(to_id.last().0) == o {
        Some(to_id.last().1)
    } else {
        interned(to_id.drop_last(), o)
    }
}

proof fn lemma_interned_prefix(to_id: Seq<(Operand, usize)>, k: int, o: OperandV)
    requires
        0 <= k <= to_id.len(),
        forall|j: int| k <= j < to_id.len() ==> operand_view(#[trigger] to_id[j].0) != o,
    ensures
        interned(to_id, o) == interned(to_id.subrange(0, k), o),
    decreases to_id.len(),
{
    if to_id.len() > k {
        assert(to_id.drop_last() =~= to_id.subrange(0, to_id.len() - 1));
        assert(to_id.drop_last().subrange(0, k) =~= to_id.subrange(0, k));
        lemma_interned_prefix(to_id.drop_last(), k, o);
    } else {
        assert(to_id.subrange(0, k) =~= to_id);
    }
}

/// Allocation sites appear in the buffer with increasing identifiers.
pub open spec fn alloca_ids_increase(buf: Seq<Lang>) -> bool {
    forall|i: int, j: int|
        0 <= i < j < buf.len() && (#[trigger] buf[i]) is Alloca && (#[trigger] buf[j]) is Alloca ==> buf[i]->Alloca_0
            < buf[j]->Alloca_0
}

/// The state of one translation.
struct Context {
    buf: Vec<Lang>,
    /// Interned operands: later entries hide earlier ones.
    to_id: Vec<(Operand, usize)>,
    alloc_ctr: u64,
    /// Per block: pointer node to witness node.
    ptr_state: Vec<Vec<(usize, usize)>>,
    /// Per visited block: its path condition.
    block_cond: Vec<Option<usize>>,
    ret: Option<usize>,
    /// Per merged block: the pointer-to-witness table it started with.
    start_state: Ghost<Map<usize, Seq<(usize, usize)>>>,
    /// Per block: the state its instructions started from.
    merged: Ghost<Map<usize, TState>>,
}

impl Context {
    /// A context with an empty buffer and nothing interned, over the given
    /// per-block tables.
    fn new(ptr_state: Vec<Vec<(usize, usize)>>, block_cond: Vec<Option<usize>>) -> (r: Context)
        requires
            forall|b: int| 0 <= b < ptr_state@.len() ==> (#[trigger] ptr_state@[b])@.len() == 0,
            forall|b: int| 0 <= b < block_cond@.len() ==> #[trigger] block_cond@[b] is None,
        ensures
            r.inv(),
            r.buf@.len() == 0,
            r.ptr_state == ptr_state,
            r.block_cond == block_cond,
            r.ret is None,
            r.merged@ == Map::<usize, TState>::empty(),
    {
        Context {
            buf: Vec::new(),
            to_id: Vec::new(),
            alloc_ctr: 0,
            ptr_state,
            block_cond,
            ret: None,
            start_state: Ghost(Map::empty()),
            merged: Ghost(Map::empty()),
        }
    }

    spec fn len(&self) -> nat {
        self.buf@.len()
    }

    /// Every node position that the state holds is in the buffer, which is
    /// well formed.
    spec fn inv(&self) -> bool {
        &&& buffer_wf(node_seq(self.buf@))
        &&& forall|k: int| 0 <= k < self.to_id@.len() ==> #[trigger] self.to_id@[k].1 < self.len()
        &&& forall|b: int, k: int|
            0 <= b < self.ptr_state@.len() && 0 <= k < self.ptr_state@[b]@.len() ==> (#[trigger] self.ptr_state@[b]@[k]).0
                < self.len() && self.ptr_state@[b]@[k].1 < self.len()
        &&& forall|b: int|
            0 <= b < self.block_cond@.len() && (#[trigger] self.block_cond@[b]) is Some ==> self.block_cond@[b]->Some_0
                < self.len()
        &&& self.ret matches Some(r) ==> r < self.len()
        &&& forall|i: int| 0 <= i < self.buf@.len() && (#[trigger] self.buf@[i]) is Alloca ==> self.buf@[i]->Alloca_0 < self.alloc_ctr
        &&& alloca_ids_increase(self.buf@)
        &&& forall|k: int|
            0 <= k < self.to_id@.len() ==> match (#[trigger] self.to_id@[k]).0 {
                Operand::Constant(c) => self.buf@[self.to_id@[k].1 as int] == Lang::I64(c),
                _ => true,
            }
    }

    /// The buffer only grows, and the per-block tables keep their sizes.
    spec fn grows(&self, old: &Context) -> bool {
        &&& self.buf@.len() >= old.buf@.len()
        &&& forall|i: int| 0 <= i < old.buf@.len() ==> #[trigger] self.buf@[i] == old.buf@[i]
        &&& self.ptr_state@.len() == old.ptr_state@.len()
        &&& self.block_cond@.len() == old.block_cond@.len()
    }

    /// Appends a node whose children are already in the buffer.
    fn push(&mut self, node: Lang) -> (id: usize)
        requires
            old(self).inv(),
            forall|j: int| 0 <= j < node@.children().len() ==> #[trigger] node@.children()[j] < old(self).len(),
            node is Alloca ==> node->Alloca_0 < old(self).alloc_ctr && forall|i: int|
                0 <= i < old(self).buf@.len() && (#[trigger] old(self).buf@[i]) is Alloca ==> old(self).buf@[i]->Alloca_0
                    < node->Alloca_0,
        ensures
            final(self).inv(),
            final(self).grows(old(self)),
            final(self).buf@ == old(self).buf@.push(node),
            final(self).to_id == old(self).to_id,
            final(self).ptr_state == old(self).ptr_state,
            final(self).block_cond == old(self).block_cond,
            final(self).alloc_ctr == old(self).alloc_ctr,
            final(self).ret == old(self).ret,
            final(self).start_state == old(self).start_state,
            final(self).merged == old(self).merged,
            id == old(self).len(),
    {
        let id = self.buf.len();
        self.buf.push(node);
        proof {
            let ns = node_seq(self.buf@);
            let os = node_seq(old(self).buf@);
            assert(os =~= ns.subrange(0, id as int));
            assert(self.buf@.subrange(0, id as int) =~= old(self).buf@);
            assert(ns[id as int] == node@);
            assert forall|i: int, j: int|
                0 <= i < ns.len() && 0 <= j < ns[i].children().len() implies #[trigger] ns[i].children()[j] < i by {
                if i < id {
                    assert(ns[i] == os[i]);
                }
            }
            assert forall|k: int| 0 <= k < self.to_id@.len() implies self.buf@[self.to_id@[k].1 as int] == old(self).buf@[self.to_id@[k].1 as int] by {}
        }
        id
    }

    /// The node interned for an operand: a constant gets a node on first
    /// use; a variable must have been defined.
    fn get_or_add_id(&mut self, operand: &Operand) -> (r: Result<usize, TranslateError>)
        requires
            old(self).inv(),
        ensures
            final(self).inv(),
            final(self).grows(old(self)),
            final(self).ptr_state == old(self).ptr_state,
            final(self).block_cond == old(self).block_cond,
            final(self).alloc_ctr == old(self).alloc_ctr,
            final(self).ret == old(self).ret,
            final(self).start_state == old(self).start_state,
            final(self).merged == old(self).merged,
            r matches Ok(id) ==> id < final(self).len(),
            r matches Err(e) ==> !(e is Cfg) && !(e is CyclicGraph) && !(e is NoReturn),
            match interned(old(self).to_id@, operand_view(*operand)) {
                Some(id) => r == Ok::<usize, TranslateError>(id) && *final(self) == *old(self),
                None => match *operand {
                    Operand::Constant(c) => {
                        &&& r == Ok::<usize, TranslateError>(old(self).buf@.len() as usize)
                        &&& final(self).buf@ == old(self).buf@.push(Lang::I64(c))
                        &&& final(self).to_id@ == old(self).to_id@.push((Operand::Constant(c), old(self).buf@.len() as usize))
                    },
                    Operand::Variable(v) => r matches Err(TranslateError::UnknownVariable(name)) && name@ == v@,
                },
            },
            forall|table: Seq<(usize, usize)>, ctr: u64| #[trigger] intern_spec(TState { buf: old(self).buf@, to_id: old(self).to_id@, ctr, table }, *operand)
                == match r {
                Ok(id) => Ok::<(TState, usize), ErrorV>((TState { buf: final(self).buf@, to_id: final(self).to_id@, ctr, table }, id)),
                Err(e) => Err::<(TState, usize), ErrorV>(e@),
            },
    {
        assert(self.buf@.subrange(0, self.buf@.len() as int) =~= self.buf@);
        let mut k: usize = self.to_id.len();
        while k > 0
            invariant
                k <= self.to_id@.len(),
                self.inv(),
                *self == *old(self),
                self.buf@.subrange(0, self.buf@.len() as int) == self.buf@,
                forall|j: int| k <= j < self.to_id@.len() ==> operand_view(#[trigger] self.to_id@[j].0) != operand_view(*operand),
            decreases k,
        {
            k = k - 1;
            if operand_eq(&self.to_id[k].0, operand) {
                proof {
                    lemma_interned_prefix(self.to_id@, k + 1, operand_view(*operand));
                    assert(self.to_id@.subrange(0, k + 1).drop_last() =~= self.to_id@.subrange(0, k as int));
                }
                return Ok(self.to_id[k].1);
            }
        }
        proof {
            lemma_interned_prefix(self.to_id@, 0, operand_view(*operand));
        }
        match operand {
            Operand::Constant(value) => {
                let id = self.push(Lang::I64(*value));
                self.to_id.push((Operand::Constant(*value), id));
                Ok(id)
            },
            Operand::Variable(name) => Err(TranslateError::UnknownVariable(name.clone())),
        }
    }

    /// Binds a variable to a node.
    fn bind(&mut self, name: &String, id: usize)
        requires
            old(self).inv(),
            id < old(self).len(),
        ensures
            final(self).inv(),
            final(self).grows(old(self)),
            final(self).ptr_state == old(self).ptr_state,
            final(self).block_cond == old(self).block_cond,
            final(self).alloc_ctr == old(self).alloc_ctr,
            final(self).ret == old(self).ret,
            final(self).start_state == old(self).start_state,
            final(self).merged == old(self).merged,
            final(self).buf == old(self).buf,
            final(self).to_id@.drop_last() == old(self).to_id@,
            final(self).to_id@ == old(self).to_id@.push((Operand::Variable(*name), id)),
            final(self).to_id@.len() > 0 && operand_view(final(self).to_id@.last().0) == OperandV::Variable(name@)
                && final(self).to_id@.last().1 == id,
    {
        self.to_id.push((Operand::Variable(name.clone()), id));
        assert(self.to_id@.drop_last() =~= old(self).to_id@);
        assert(self.buf@.subrange(0, self.buf@.len() as int) =~= self.buf@);
    }
}

/// The position of the first entry for pointer `p` at or after `k`.
pub open spec fn first_entry(map: Seq<(usize, usize)>, p: usize, k: int) -> Option<int>
    decreases map.len() - k,
{
    if k < 0 || k >= map.len() {
        None
    } else if map[k].0 == p {
        Some(k)
    } else {
        first_entry(map, p, k + 1)
    }
}

/// The current witness of pointer `p` in a table: its first entry.
pub open spec fn witness_of(map: Seq<(usize, usize)>, p: usize) -> Option<usize> {
    match first_entry(map, p, 0) {
        Some(i) => Some(map[i].1),
        None => None,
    }
}

/// The table with `w` as the witness of `p`: the entry for `p` is
/// replaced, or one is added at the end.
pub open spec fn set_witness_spec(map: Seq<(usize, usize)>, p: usize, w: usize) -> Seq<(usize, usize)> {
    match first_entry(map, p, 0) {
        Some(i) => map.update(i, (p, w)),
        None => map.push((p, w)),
    }
}

proof fn lemma_first_entry_skip(map: Seq<(usize, usize)>, p: usize, k: int)
    requires
        0 <= k <= map.len(),
        forall|j: int| 0 <= j < k ==> map[j].0 != p,
    ensures
        first_entry(map, p, 0) == first_entry(map, p, k),
    decreases k,
{
    if k > 0 {
        lemma_first_entry_skip(map, p, k - 1);
    }
}

/// The witness recorded for a pointer in one block's table.
fn lookup(map: &Vec<(usize, usize)>, ptr: usize) -> (r: Option<usize>)
    ensures
        r == witness_of(map@, ptr),
        r matches Some(w) ==> exists|k: int| 0 <= k < map@.len() && map@[k] == (ptr, w),
        r is None ==> forall|k: int| 0 <= k < map@.len() ==> map@[k].0 != ptr,
{
    let mut k: usize = 0;
    while k < map.len()
        invariant
            k <= map@.len(),
            forall|j: int| 0 <= j < k ==> map@[j].0 != ptr,
        decreases map@.len() - k,
    {
        if map[k].0 == ptr {
            proof {
                lemma_first_entry_skip(map@, ptr, k as int);
            }
            return Some(map[k].1);
        }
        k = k + 1;
    }
    proof {
        lemma_first_entry_skip(map@, ptr, k as int);
    }
    None
}

/// Records `witness` as the current memory state of `ptr`.
fn set_witness(map: &mut Vec<(usize, usize)>, ptr: usize, witness: usize)
    ensures
        final(map)@ == set_witness_spec(old(map)@, ptr, witness),
        forall|k: int| 0 <= k < final(map)@.len() ==> #[trigger] final(map)@[k] == (ptr, witness) || old(map)@.contains(final(map)@[k]),
{
    let mut k: usize = 0;
    while k < map.len()
        invariant
            k <= map@.len(),
            *map == *old(map),
            forall|j: int| 0 <= j < k ==> map@[j].0 != ptr,
        decreases map@.len() - k,
    {
        if map[k].0 == ptr {
            proof {
                lemma_first_entry_skip(map@, ptr, k as int);
            }
            let ghost orig = map@;
            map.set(k, (ptr, witness));
            assert forall|j: int| 0 <= j < map@.len() implies #[trigger] map@[j] == (ptr, witness) || old(map)@.contains(map@[j]) by {
                if j != k {
                    assert(orig[j] == map@[j]);
                }
            }
            return;
        }
        k = k + 1;
    }
    proof {
        lemma_first_entry_skip(map@, ptr, k as int);
    }
    let ghost orig = map@;
    map.push((ptr, witness));
    assert forall|j: int| 0 <= j < map@.len() implies #[trigger] map@[j] == (ptr, witness) || old(map)@.contains(map@[j]) by {
        if j < orig.len() {
            assert(orig[j] == map@[j]);
        }
    }
}

impl Context {
    /// Records a new memory state for `ptr` in block `block`.
    fn set_ptr_state(&mut self, block: usize, ptr: usize, witness: usize)
        requires
            old(self).inv(),
            block < old(self).ptr_state@.len(),
            ptr < old(self).len(),
            witness < old(self).len(),
        ensures
            final(self).inv(),
            final(self).grows(old(self)),
            final(self).buf == old(self).buf,
            final(self).to_id == old(self).to_id,
            final(self).ptr_state@[block as int]@ == set_witness_spec(old(self).ptr_state@[block as int]@, ptr, witness),
            forall|b: int| 0 <= b < old(self).ptr_state@.len() && b != block ==> #[trigger] final(self).ptr_state@[b] == old(self).ptr_state@[b],
            final(self).ptr_state@.len() == old(self).ptr_state@.len(),
            final(self).block_cond == old(self).block_cond,
            final(self).alloc_ctr == old(self).alloc_ctr,
            final(self).ret == old(self).ret,
            final(self).start_state == old(self).start_state,
            final(self).merged == old(self).merged,
    {
        let ghost before = self.ptr_state@;
        set_witness(&mut self.ptr_state[block], ptr, witness);
        proof {
            assert(self.buf@.subrange(0, self.buf@.len() as int) =~= self.buf@);
            assert forall|b: int, k: int|
                0 <= b < self.ptr_state@.len() && 0 <= k < self.ptr_state@[b]@.len() implies (#[trigger] self.ptr_state@[b]@[k]).0
                    < self.len() && self.ptr_state@[b]@[k].1 < self.len() by {
                if b == block as int {
                    let e = self.ptr_state@[b]@[k];
                    if e != (ptr, witness) {
                        assert(before[b]@.contains(e));
                        let m = choose|m: int| 0 <= m < before[b]@.len() && before[b]@[m] == e;
                        assert(before[b]@[m] == e);
                    }
                } else {
                    assert(self.ptr_state@[b] == before[b]);
                }
            }
        }
    }
}

impl Context {
    /// Interns two operands in turn.
    fn intern_pair(&mut self, o0: &Operand, o1: &Operand) -> (r: Result<(usize, usize), TranslateError>)
        requires
            old(self).inv(),
        ensures
            final(self).inv(),
            final(self).grows(old(self)),
            final(self).ptr_state == old(self).ptr_state,
            final(self).block_cond == old(self).block_cond,
            final(self).alloc_ctr == old(self).alloc_ctr,
            final(self).ret == old(self).ret,
            final(self).start_state == old(self).start_state,
            final(self).merged == old(self).merged,
            r matches Err(e) ==> !(e is Cfg) && !(e is CyclicGraph) && !(e is NoReturn),
            r matches Ok((a, b)) ==> a < final(self).len() && b < final(self).len(),
            forall|table: Seq<(usize, usize)>, ctr: u64|
                #[trigger] intern_spec(TState { buf: old(self).buf@, to_id: old(self).to_id@, ctr, table }, *o0) matches Ok((s1, a))
                    ==> match intern_spec(s1, *o1) {
                    Ok((s2, b)) => r == Ok::<(usize, usize), TranslateError>((a, b)) && s2 == (TState {
                        buf: final(self).buf@,
                        to_id: final(self).to_id@,
                        ctr,
                        table,
                    }),
                    Err(e) => r matches Err(x) && x@ == e,
                },
            forall|table: Seq<(usize, usize)>, ctr: u64|
                #[trigger] intern_spec(TState { buf: old(self).buf@, to_id: old(self).to_id@, ctr, table }, *o0) matches Err(e)
                    ==> r matches Err(x) && x@ == e,
    {
        let ghost b0 = self.buf@;
        let ghost t0 = self.to_id@;
        let a = self.get_or_add_id(o0)?;
        let ghost b1 = self.buf@;
        let ghost t1 = self.to_id@;
        let b = self.get_or_add_id(o1)?;
        proof {
            assert forall|table: Seq<(usize, usize)>, ctr: u64|
                #[trigger] intern_spec(TState { buf: b0, to_id: t0, ctr, table }, *o0) == Ok::<(TState, usize), ErrorV>(
                    (TState { buf: b1, to_id: t1, ctr, table }, a),
                ) by {}
            assert forall|table: Seq<(usize, usize)>, ctr: u64|
                #[trigger] intern_spec(TState { buf: b1, to_id: t1, ctr, table }, *o1) == Ok::<(TState, usize), ErrorV>(
                    (TState { buf: self.buf@, to_id: self.to_id@, ctr, table }, b),
                ) by {}
        }
        Ok((a, b))
    }
}

/// An error as a mathematical value.
pub enum ErrorV {
    Cfg(CfgError),
    CyclicGraph,
    UnknownVariable(Seq<char>),
    WitnessNotFound { block: usize, ptr: usize },
    UnsupportedInstruction { block: usize },
    VoidReturn { block: usize },
    NoReturn,
    TooManyAllocations,
}

impl View for TranslateError {
    type V = ErrorV;

    open spec fn view(&self) -> ErrorV {
        match self {
            TranslateError::Cfg(e) => ErrorV::Cfg(*e),
            TranslateError::CyclicGraph => ErrorV::CyclicGraph,
            TranslateError::UnknownVariable(s) => ErrorV::UnknownVariable(s@),
            TranslateError::WitnessNotFound { block, ptr } => ErrorV::WitnessNotFound { block: *block, ptr: *ptr },
            TranslateError::UnsupportedInstruction { block } => ErrorV::UnsupportedInstruction { block: *block },
            TranslateError::VoidReturn { block } => ErrorV::VoidReturn { block: *block },
            TranslateError::NoReturn => ErrorV::NoReturn,
            TranslateError::TooManyAllocations => ErrorV::TooManyAllocations,
        }
    }
}

/// What translating instructions of one block works on: the buffer, the
/// interned operands, the allocation counter and the block's pointer table.
pub struct TState {
    pub buf: Seq<Lang>,
    pub to_id: Seq<(Operand, usize)>,
    pub ctr: u64,
    pub table: Seq<(usize, usize)>,
}

/// Interning an operand: its latest binding, or for a constant not yet
/// seen a new integer node; a variable never defined is an error.
pub open spec fn intern_spec(st: TState, o: Operand) -> Result<(TState, usize), ErrorV> {
    match interned(st.to_id, operand_view(o)) {
        Some(id) => Ok((st, id)),
        None => match o {
            Operand::Constant(c) => Ok(
                (
                    TState {
                        buf: st.buf.push(Lang::I64(c)),
                        to_id: st.to_id.push((Operand::Constant(c), st.buf.len() as usize)),
                        ..st
                    },
                    st.buf.len() as usize,
                ),
            ),
            Operand::Variable(v) => Err(ErrorV::UnknownVariable(v@)),
        },
    }
}

/// Appends a node and binds `dest` to it.
pub open spec fn emit_bind(st: TState, node: Lang, dest: String) -> TState {
    TState {
        buf: st.buf.push(node),
        to_id: st.to_id.push((Operand::Variable(dest), st.buf.len() as usize)),
        ..st
    }
}

/// A binary instruction: both operands interned in order, then the node
/// over them bound to the destination.
pub open spec fn binary_spec(st: TState, o0: Operand, o1: Operand, dest: String, mk: spec_fn(usize, usize) -> Lang) -> Result<TState, ErrorV> {
    match intern_spec(st, o0) {
        Err(e) => Err(e),
        Ok((s1, a)) => match intern_spec(s1, o1) {
            Err(e) => Err(e),
            Ok((s2, b)) => Ok(emit_bind(s2, mk(a, b), dest)),
        },
    }
}

/// What translating one instruction of block `block` does.
pub open spec fn instr_spec(st: TState, instr: Instruction, block: usize) -> Result<TState, ErrorV> {
    match instr {
        Instruction::Alloca { dest } => if st.ctr == u64::MAX {
            Err(ErrorV::TooManyAllocations)
        } else {
            let w = st.buf.len() as usize;
            let p = (st.buf.len() + 1) as usize;
            Ok(
                TState {
                    buf: st.buf.push(Lang::Alloca(st.ctr)).push(Lang::Ptr(w)),
                    to_id: st.to_id.push((Operand::Variable(dest), p)),
                    ctr: (st.ctr + 1) as u64,
                    table: set_witness_spec(st.table, p, w),
                },
            )
        },
        Instruction::Load { dest, address } => match intern_spec(st, address) {
            Err(e) => Err(e),
            Ok((s1, p)) => match witness_of(s1.table, p) {
                None => Err(ErrorV::WitnessNotFound { block, ptr: p }),
                Some(w) => Ok(emit_bind(s1, Lang::Load([w, p]), dest)),
            },
        },
        Instruction::Store { address, value } => match intern_spec(st, address) {
            Err(e) => Err(e),
            Ok((s1, p)) => match intern_spec(s1, value) {
                Err(e) => Err(e),
                Ok((s2, v)) => match witness_of(s2.table, p) {
                    None => Err(ErrorV::WitnessNotFound { block, ptr: p }),
                    Some(w) => Ok(
                        TState {
                            buf: s2.buf.push(Lang::Store([v, w, p])),
                            table: set_witness_spec(s2.table, p, s2.buf.len() as usize),
                            ..s2
                        },
                    ),
                },
            },
        },
        Instruction::ICmp { dest, predicate, operand0, operand1 } => binary_spec(
            st,
            operand0,
            operand1,
            dest,
            |a: usize, b: usize| Lang::ICmp(predicate, [a, b]),
        ),
        Instruction::Add { dest, operand0, operand1 } => binary_spec(st, operand0, operand1, dest, |a: usize, b: usize| Lang::Add([a, b])),
        Instruction::Sub { dest, operand0, operand1 } => binary_spec(st, operand0, operand1, dest, |a: usize, b: usize| Lang::Sub([a, b])),
        Instruction::Mul { dest, operand0, operand1 } => binary_spec(st, operand0, operand1, dest, |a: usize, b: usize| Lang::Mul([a, b])),
        Instruction::Unsupported => Err(ErrorV::UnsupportedInstruction { block }),
    }
}

/// Translating the first `k` instructions of a block in turn; the first
/// error stops it.
pub open spec fn instrs_spec(st: TState, instrs: Seq<Instruction>, k: int, block: usize) -> Result<TState, ErrorV>
    decreases k,
{
    if k <= 0 {
        Ok(st)
    } else {
        match instrs_spec(st, instrs, k - 1, block) {
            Ok(s) => instr_spec(s, instrs[k - 1], block),
            Err(e) => Err(e),
        }
    }
}

/// Translating a block's instructions and then its terminator, from the
/// state its predecessors gave: a return records the node its operand is
/// interned as; a return without a value is an error.
pub open spec fn body_spec(st: TState, bb: BasicBlock, block: usize) -> Result<(TState, Option<usize>), ErrorV> {
    match instrs_spec(st, bb.instrs@, bb.instrs@.len() as int, block) {
        Err(e) => Err(e),
        Ok(s) => match bb.term {
            Terminator::Ret { return_operand: Some(op) } => match intern_spec(s, op) {
                Ok((s2, id)) => Ok((s2, Some(id))),
                Err(e) => Err(e),
            },
            Terminator::Ret { return_operand: None } => Err(ErrorV::VoidReturn { block }),
            _ => Ok((s, None)),
        },
    }
}

proof fn lemma_instrs_err_stays(st: TState, instrs: Seq<Instruction>, k: int, m: int, block: usize)
    requires
        0 <= k <= m,
        instrs_spec(st, instrs, k, block) is Err,
    ensures
        instrs_spec(st, instrs, m, block) == instrs_spec(st, instrs, k, block),
    decreases m,
{
    if m > k {
        lemma_instrs_err_stays(st, instrs, k, m - 1, block);
    }
}

/// The variable names an instruction reads.
pub open spec fn reads_var(instr: Instruction, v: Seq<char>) -> bool {
    let is_v = |o: Operand| o matches Operand::Variable(s) && s@ == v;
    match instr {
        Instruction::Load { address, .. } => is_v(address),
        Instruction::Store { address, value } => is_v(address) || is_v(value),
        Instruction::ICmp { operand0, operand1, .. } | Instruction::Add { operand0, operand1, .. }
        | Instruction::Sub { operand0, operand1, .. } | Instruction::Mul { operand0, operand1, .. } => is_v(operand0)
            || is_v(operand1),
        _ => false,
    }
}

/// Translating `instr` in block `b` can fail with `e`.
pub open spec fn instr_can_raise(instr: Instruction, b: usize, e: ErrorV) -> bool {
    match e {
        ErrorV::UnsupportedInstruction { block } => block == b && instr is Unsupported,
        ErrorV::WitnessNotFound { block, .. } => block == b && (instr is Load || instr is Store),
        ErrorV::TooManyAllocations => instr is Alloca,
        ErrorV::UnknownVariable(v) => reads_var(instr, v),
        _ => false,
    }
}

proof fn lemma_intern_error(st: TState, o: Operand)
    ensures
        intern_spec(st, o) matches Err(e) ==> o matches Operand::Variable(s) && e == ErrorV::UnknownVariable(s@),
{
}

proof fn lemma_instr_error(st: TState, instr: Instruction, b: usize)
    ensures
        instr_spec(st, instr, b) matches Err(e) ==> instr_can_raise(instr, b, e),
{
    match instr {
        Instruction::Load { address, .. } => {
            lemma_intern_error(st, address);
        },
        Instruction::Store { address, value } => {
            lemma_intern_error(st, address);
            if let Ok((s1, p)) = intern_spec(st, address) {
                lemma_intern_error(s1, value);
            }
        },
        Instruction::ICmp { operand0, operand1, .. } | Instruction::Add { operand0, operand1, .. }
        | Instruction::Sub { operand0, operand1, .. } | Instruction::Mul { operand0, operand1, .. } => {
            lemma_intern_error(st, operand0);
            if let Ok((s1, a)) = intern_spec(st, operand0) {
                lemma_intern_error(s1, operand1);
            }
        },
        _ => {},
    }
}

proof fn lemma_instrs_error(st: TState, instrs: Seq<Instruction>, k: int, b: usize)
    requires
        0 <= k <= instrs.len(),
    ensures
        instrs_spec(st, instrs, k, b) matches Err(e) ==> exists|j: int| 0 <= j < k && instr_can_raise(#[trigger] instrs[j], b, e),
    decreases k,
{
    if k > 0 {
        lemma_instrs_error(st, instrs, k - 1, b);
        if let Ok(s) = instrs_spec(st, instrs, k - 1, b) {
            lemma_instr_error(s, instrs[k - 1], b);
        }
    }
}

/// Block `b` of `blocks` can itself give error `e`: through one of its
/// instructions, a return without a value or of an undefined variable, or a
/// predecessor's branch condition that names an undefined variable.
pub open spec fn block_can_raise(blocks: Seq<BasicBlock>, preds: Seq<usize>, b: usize, e: ErrorV) -> bool {
    ||| exists|j: int| 0 <= j < blocks[b as int].instrs@.len() && instr_can_raise(#[trigger] blocks[b as int].instrs@[j], b, e)
    ||| e == ErrorV::VoidReturn { block: b } && blocks[b as int].term matches Terminator::Ret { return_operand: None }
    ||| e is UnknownVariable && term_var(blocks[b as int].term) == Some(e->UnknownVariable_0)
    ||| e is UnknownVariable && exists|m: int|
        0 <= m < preds.len() && #[trigger] term_var(blocks[preds[m] as int].term) == Some(e->UnknownVariable_0)
}

/// The variable a terminator reads: a returned variable, or the variable a
/// conditional branch tests.
pub open spec fn term_var(t: Terminator) -> Option<Seq<char>> {
    match t {
        Terminator::Ret { return_operand: Some(Operand::Variable(v)) } => Some(v@),
        Terminator::CondBr { condition: Operand::Variable(v), .. } => Some(v@),
        _ => None,
    }
}

/// The translation state as seen from block `block`.
spec fn tstate(ctx: &Context, block: usize) -> TState {
    TState { buf: ctx.buf@, to_id: ctx.to_id@, ctr: ctx.alloc_ctr, table: ctx.ptr_state@[block as int]@ }
}

/// Translates one instruction of block `block`.
fn parse_instruction(ctx: &mut Context, block: usize, instr: &Instruction) -> (r: Result<(), TranslateError>)
    requires
        old(ctx).inv(),
        block < old(ctx).ptr_state@.len(),
    ensures
        final(ctx).inv(),
        final(ctx).grows(old(ctx)),
        final(ctx).block_cond == old(ctx).block_cond,
        final(ctx).ret == old(ctx).ret,
        final(ctx).start_state == old(ctx).start_state,
        final(ctx).merged == old(ctx).merged,
        r matches Err(e) ==> !(e is Cfg) && !(e is CyclicGraph) && !(e is NoReturn),
        match instr_spec(tstate(old(ctx), block), *instr, block) {
            Ok(st) => r is Ok && tstate(final(ctx), block) == st,
            Err(e) => r matches Err(x) && x@ == e,
        },
        forall|b: int| 0 <= b < old(ctx).ptr_state@.len() && b != block ==> #[trigger] final(ctx).ptr_state@[b] == old(ctx).ptr_state@[b],
        *instr is Unsupported ==> r == Err::<(), TranslateError>(TranslateError::UnsupportedInstruction { block }),
{
    match instr {
        Instruction::Alloca { dest } => {
            if ctx.alloc_ctr == u64::MAX {
                return Err(TranslateError::TooManyAllocations);
            }
            let site = ctx.alloc_ctr;
            ctx.alloc_ctr = site + 1;
            let witness = ctx.push(Lang::Alloca(site));
            let ptr = ctx.push(Lang::Ptr(witness));
            ctx.bind(dest, ptr);
            ctx.set_ptr_state(block, ptr, witness);
            assert(ctx.buf@[ctx.buf@.len() - 2] == Lang::Alloca((ctx.alloc_ctr - 1) as u64));
            Ok(())
        },
        Instruction::Load { dest, address } => {
            let ptr = ctx.get_or_add_id(address)?;
            let witness = match lookup(&ctx.ptr_state[block], ptr) {
                Some(w) => w,
                None => {
                    return Err(TranslateError::WitnessNotFound { block, ptr });
                },
            };
            proof {
                let m = choose|k: int| 0 <= k < ctx.ptr_state@[block as int]@.len() && ctx.ptr_state@[block as int]@[k] == (ptr, witness);
                assert(ctx.ptr_state@[block as int]@[m] == (ptr, witness));
            }
            let id = ctx.push(Lang::Load([witness, ptr]));
            ctx.bind(dest, id);
            Ok(())
        },
        Instruction::Store { address, value } => {
            let ptr = ctx.get_or_add_id(address)?;
            let value = ctx.get_or_add_id(value)?;
            let witness = match lookup(&ctx.ptr_state[block], ptr) {
                Some(w) => w,
                None => {
                    return Err(TranslateError::WitnessNotFound { block, ptr });
                },
            };
            proof {
                let m = choose|k: int| 0 <= k < ctx.ptr_state@[block as int]@.len() && ctx.ptr_state@[block as int]@[k] == (ptr, witness);
                assert(ctx.ptr_state@[block as int]@[m] == (ptr, witness));
            }
            let id = ctx.push(Lang::Store([value, witness, ptr]));
            ctx.set_ptr_state(block, ptr, id);
            Ok(())
        },
        Instruction::ICmp { dest, predicate, operand0, operand1 } => {
            let (op0, op1) = ctx.intern_pair(operand0, operand1)?;
            let id = ctx.push(Lang::ICmp(*predicate, [op0, op1]));
            ctx.bind(dest, id);
            Ok(())
        },
        Instruction::Add { dest, operand0, operand1 } => {
            let (op0, op1) = ctx.intern_pair(operand0, operand1)?;
            let id = ctx.push(Lang::Add([op0, op1]));
            ctx.bind(dest, id);
            Ok(())
        },
        Instruction::Sub { dest, operand0, operand1 } => {
            let (op0, op1) = ctx.intern_pair(operand0, operand1)?;
            let id = ctx.push(Lang::Sub([op0, op1]));
            ctx.bind(dest, id);
            Ok(())
        },
        Instruction::Mul { dest, operand0, operand1 } => {
            let (op0, op1) = ctx.intern_pair(operand0, operand1)?;
            let id = ctx.push(Lang::Mul([op0, op1]));
            ctx.bind(dest, id);
            Ok(())
        },
        Instruction::Unsupported => Err(TranslateError::UnsupportedInstruction { block }),
    }
}

/// The successor lists of a list of blocks whose terminators all resolve.
pub open spec fn block_graph(blocks: Seq<BasicBlock>) -> Seq<Seq<usize>> {
    Seq::new(blocks.len(), |i: int| succ_spec(blocks, i)->Ok_0)
}

/// Some entry of the table is for pointer `p`.
pub open spec fn has_key(map: Seq<(usize, usize)>, p: usize) -> bool {
    exists|j: int| 0 <= j < map.len() && map[j].0 == p
}

/// The table a block starts with keeps exactly the pointers that every
/// predecessor's table holds, and is the predecessor's own table when there
/// is one predecessor.
pub open spec fn merged_ok(merged: Seq<(usize, usize)>, preds: Seq<usize>, tables: Seq<Seq<(usize, usize)>>) -> bool {
    &&& forall|m: int, k: int|
        0 <= m < merged.len() && 0 <= k < preds.len() ==> #[trigger] has_key(tables[preds[k] as int], merged[m].0)
    &&& forall|e: int|
        0 <= e < tables[preds[0] as int].len() && (forall|k: int|
            0 <= k < preds.len() ==> #[trigger] has_key(tables[preds[k] as int], tables[preds[0] as int][e].0))
            ==> has_key(merged, #[trigger] tables[preds[0] as int][e].0)
    &&& preds.len() == 1 ==> merged == tables[preds[0] as int]
}

/// The pointer tables of all blocks, as sequences.
pub open spec fn tables_of(t: Seq<Vec<(usize, usize)>>) -> Seq<Seq<(usize, usize)>> {
    t.map_values(|x: Vec<(usize, usize)>| x@)
}

/// The witnesses that a pointer `p` has in each predecessor's table, with
/// `w0` for the first predecessor.
pub open spec fn witness_seq(tables: Seq<Seq<(usize, usize)>>, preds: Seq<usize>, w0: usize, p: usize) -> Seq<usize> {
    Seq::new(preds.len(), |k: int| if k == 0 { w0 } else { witness_of(tables[preds[k] as int], p)->Some_0 })
}

/// Node `r` merges the witnesses `ws` from the left: starting from the
/// first, each later witness `ws[k]` becomes the true branch of a merge on
/// the edge condition `cs[k]`, over the merge so far as the false branch.
pub open spec fn phi_fold(buf: Seq<Lang>, cs: Seq<usize>, ws: Seq<usize>, r: usize) -> bool
    decreases ws.len(),
{
    if ws.len() == 0 {
        false
    } else if ws.len() == 1 {
        r == ws[0]
    } else {
        &&& r < buf.len()
        &&& buf[r as int] is Phi
        &&& buf[r as int]->Phi_0[0] == cs[ws.len() - 1]
        &&& buf[r as int]->Phi_0[1] == ws.last()
        &&& buf[r as int]->Phi_0[2] < r
        &&& phi_fold(buf, cs, ws.drop_last(), buf[r as int]->Phi_0[2])
    }
}

/// Each entry `m` of the merged table holds, for its pointer, the merge of
/// the predecessors' witnesses on the edge conditions `cs`; its witness in
/// the first predecessor is that table's entry `src[m]`.
pub open spec fn witnesses_ok(
    buf: Seq<Lang>,
    merged: Seq<(usize, usize)>,
    preds: Seq<usize>,
    tables: Seq<Seq<(usize, usize)>>,
    cs: Seq<usize>,
    src: Seq<int>,
) -> bool {
    &&& src.len() == merged.len()
    &&& forall|m: int|
        0 <= m < merged.len() ==> {
            &&& 0 <= #[trigger] src[m] < tables[preds[0] as int].len()
            &&& tables[preds[0] as int][src[m]].0 == merged[m].0
            &&& phi_fold(buf, cs, witness_seq(tables, preds, tables[preds[0] as int][src[m]].1, merged[m].0), merged[m].1)
        }
}

proof fn lemma_phi_fold_grows(buf: Seq<Lang>, buf2: Seq<Lang>, cs: Seq<usize>, ws: Seq<usize>, r: usize)
    requires
        phi_fold(buf, cs, ws, r),
        buf2.len() >= buf.len(),
        forall|i: int| 0 <= i < buf.len() ==> #[trigger] buf2[i] == buf[i],
    ensures
        phi_fold(buf2, cs, ws, r),
    decreases ws.len(),
{
    if ws.len() > 1 {
        assert(buf2[r as int] == buf[r as int]);
        lemma_phi_fold_grows(buf, buf2, cs, ws.drop_last(), buf[r as int]->Phi_0[2]);
    }
}

proof fn lemma_witnesses_grow(
    buf: Seq<Lang>,
    buf2: Seq<Lang>,
    merged: Seq<(usize, usize)>,
    preds: Seq<usize>,
    tables: Seq<Seq<(usize, usize)>>,
    cs: Seq<usize>,
    src: Seq<int>,
)
    requires
        witnesses_ok(buf, merged, preds, tables, cs, src),
        buf2.len() >= buf.len(),
        forall|i: int| 0 <= i < buf.len() ==> #[trigger] buf2[i] == buf[i],
    ensures
        witnesses_ok(buf2, merged, preds, tables, cs, src),
{
    assert forall|m: int| 0 <= m < merged.len() implies phi_fold(
        buf2,
        cs,
        witness_seq(tables, preds, tables[preds[0] as int][#[trigger] src[m]].1, merged[m].0),
        merged[m].1,
    ) by {
        lemma_phi_fold_grows(buf, buf2, cs, witness_seq(tables, preds, tables[preds[0] as int][src[m]].1, merged[m].0), merged[m].1);
    }
}

/// The condition under which control passes from a predecessor ending in
/// `term`, whose own path condition is node `pc`, to the block `name`: for
/// a conditional branch, node `c` is the conjunction of the branch
/// condition (negated when `name` is the false target) with `pc`; for an
/// unconditional branch it is `pc` itself.
pub open spec fn edge_cond_ok(buf: Seq<Lang>, term: Terminator, name: Seq<char>, pc: usize, c: usize) -> bool {
    match term {
        Terminator::CondBr { false_dest, .. } => {
            &&& c < buf.len()
            &&& buf[c as int] matches Lang::And(o) && o[1] == pc && (false_dest@ == name ==> o[0] < buf.len()
                && buf[o[0] as int] is Not)
        },
        _ => c == pc,
    }
}

pub open spec fn text_eq_spec(a: Seq<char>, b: Seq<char>) -> bool {
    a == b
}

/// The branch condition of predecessor `p`, if it branches conditionally
/// on a variable that was never defined.
pub open spec fn undefined_cond(blocks: Seq<BasicBlock>, p: usize, to_id: Seq<(Operand, usize)>) -> Option<Seq<char>> {
    match blocks[p as int].term {
        Terminator::CondBr { condition: Operand::Variable(v), .. } => if interned(to_id, OperandV::Variable(v@)) is None {
            Some(v@)
        } else {
            None
        },
        _ => None,
    }
}

/// Node `x` is the node of branch condition `cond`: the node a variable
/// was bound to before the block, or an integer node for a constant.
pub open spec fn cond_node_ok(buf: Seq<Lang>, to_id: Seq<(Operand, usize)>, cond: Operand, x: usize) -> bool {
    match cond {
        Operand::Variable(v) => interned(to_id, OperandV::Variable(v@)) == Some(x),
        Operand::Constant(k) => x < buf.len() && buf[x as int] == Lang::I64(k),
    }
}

/// For a conditional branch into block `name`, the first operand of the
/// conjunction `c` is the branch condition's node, wrapped in a negation
/// exactly when `name` is the false target.
pub open spec fn edge_cond_named(buf: Seq<Lang>, term: Terminator, name: Seq<char>, to_id: Seq<(Operand, usize)>, c: usize) -> bool {
    match term {
        Terminator::CondBr { condition, false_dest, .. } => {
            &&& c < buf.len()
            &&& buf[c as int] is And
            &&& if false_dest@ == name {
                let n = buf[c as int]->And_0[0];
                &&& n < buf.len()
                &&& buf[n as int] is Not
                &&& cond_node_ok(buf, to_id, condition, buf[n as int]->Not_0)
            } else {
                cond_node_ok(buf, to_id, condition, buf[c as int]->And_0[0])
            }
        },
        _ => true,
    }
}

proof fn lemma_named_grows(buf: Seq<Lang>, buf2: Seq<Lang>, term: Terminator, name: Seq<char>, to_id: Seq<(Operand, usize)>, c: usize)
    requires
        edge_cond_named(buf, term, name, to_id, c),
        buf2.len() >= buf.len(),
        forall|i: int| 0 <= i < buf.len() ==> #[trigger] buf2[i] == buf[i],
    ensures
        edge_cond_named(buf2, term, name, to_id, c),
{
    if let Terminator::CondBr { condition, false_dest, .. } = term {
        assert(buf2[c as int] == buf[c as int]);
        let o = buf[c as int]->And_0;
        if o[0] < buf.len() {
            assert(buf2[o[0] as int] == buf[o[0] as int]);
        }
        if let Operand::Constant(k) = condition {
            if false_dest@ == name {
                let x = buf[o[0] as int]->Not_0;
                assert(buf2[x as int] == buf[x as int]);
            } else {
                assert(buf2[o[0] as int] == buf[o[0] as int]);
            }
        }
    }
}

proof fn lemma_interned_entry(to_id: Seq<(Operand, usize)>, o: OperandV)
    ensures
        interned(to_id, o) matches Some(id) ==> exists|k: int|
            0 <= k < to_id.len() && operand_view(#[trigger] to_id[k].0) == o && to_id[k].1 == id,
    decreases to_id.len(),
{
    if to_id.len() > 0 && operand_view(to_id.last().0) != o {
        lemma_interned_entry(to_id.drop_last(), o);
        if interned(to_id.drop_last(), o) is Some {
            let k = choose|k: int| 0 <= k < to_id.drop_last().len() && operand_view(#[trigger] to_id.drop_last()[k].0) == o
                && to_id.drop_last()[k].1 == interned(to_id.drop_last(), o)->Some_0;
            assert(to_id[k] == to_id.drop_last()[k]);
        }
    } else if to_id.len() > 0 {
        assert(operand_view(to_id[to_id.len() - 1].0) == o);
    }
}

/// Node `r` is the disjunction of the nodes `cs`, folded from the left:
/// each later one is or-ed onto what the earlier ones gave.
pub open spec fn or_fold(buf: Seq<Lang>, cs: Seq<usize>, r: usize) -> bool
    decreases cs.len(),
{
    if cs.len() == 0 {
        false
    } else if cs.len() == 1 {
        r == cs[0]
    } else {
        &&& r < buf.len()
        &&& buf[r as int] matches Lang::Or(o) && o[0] == cs.last() && o[1] < r && or_fold(
            buf,
            cs.drop_last(),
            o[1],
        )
    }
}

/// Node `r` is the path condition of block `b` built over the
/// predecessors' path conditions `conds`.
pub open spec fn path_cond_ok(
    buf: Seq<Lang>,
    blocks: Seq<BasicBlock>,
    preds: Seq<usize>,
    b: int,
    conds: Seq<Option<usize>>,
    to_id: Seq<(Operand, usize)>,
    cs: Seq<usize>,
    r: usize,
    merged: Seq<(usize, usize)>,
    tables: Seq<Seq<(usize, usize)>>,
    src: Seq<int>,
) -> bool {
    &&& witnesses_ok(buf, merged, preds, tables, cs, src)
    &&& cs.len() == preds.len()
    &&& forall|k: int|
        0 <= k < preds.len() ==> edge_cond_named(buf, blocks[preds[k] as int].term, blocks[b].name@, to_id, #[trigger] cs[k])
    &&& or_fold(buf, cs, r)
    &&& forall|k: int|
        0 <= k < preds.len() ==> edge_cond_ok(
            buf,
            blocks[preds[k] as int].term,
            blocks[b].name@,
            conds[preds[k] as int]->Some_0,
            #[trigger] cs[k],
        )
}

proof fn lemma_or_fold_grows(buf: Seq<Lang>, buf2: Seq<Lang>, cs: Seq<usize>, r: usize)
    requires
        or_fold(buf, cs, r),
        buf2.len() >= buf.len(),
        forall|i: int| 0 <= i < buf.len() ==> #[trigger] buf2[i] == buf[i],
    ensures
        or_fold(buf2, cs, r),
    decreases cs.len(),
{
    if cs.len() > 1 {
        let o = buf[r as int]->Or_0;
        assert(buf2[r as int] == buf[r as int]);
        lemma_or_fold_grows(buf, buf2, cs.drop_last(), o[1]);
    }
}

proof fn lemma_edges_grow(
    buf: Seq<Lang>,
    buf2: Seq<Lang>,
    blocks: Seq<BasicBlock>,
    preds: Seq<usize>,
    b: int,
    conds: Seq<Option<usize>>,
    cs: Seq<usize>,
    n: int,
)
    requires
        0 <= n <= preds.len(),
        n <= cs.len(),
        forall|k: int|
            0 <= k < n ==> edge_cond_ok(
                buf,
                blocks[preds[k] as int].term,
                blocks[b].name@,
                conds[preds[k] as int]->Some_0,
                #[trigger] cs[k],
            ),
        buf2.len() >= buf.len(),
        forall|i: int| 0 <= i < buf.len() ==> #[trigger] buf2[i] == buf[i],
    ensures
        forall|k: int|
            0 <= k < n ==> edge_cond_ok(
                buf2,
                blocks[preds[k] as int].term,
                blocks[b].name@,
                conds[preds[k] as int]->Some_0,
                #[trigger] cs[k],
            ),
{
    assert forall|k: int| 0 <= k < n implies edge_cond_ok(
        buf2,
        blocks[preds[k] as int].term,
        blocks[b].name@,
        conds[preds[k] as int]->Some_0,
        #[trigger] cs[k],
    ) by {
        let c = cs[k];
        if blocks[preds[k] as int].term is CondBr {
            assert(buf2[c as int] == buf[c as int]);
            let o = buf[c as int]->And_0;
            if o[0] < buf.len() {
                assert(buf2[o[0] as int] == buf[o[0] as int]);
            }
        }
    }
}

proof fn lemma_path_cond_grows(
    buf: Seq<Lang>,
    buf2: Seq<Lang>,
    blocks: Seq<BasicBlock>,
    preds: Seq<usize>,
    b: int,
    conds: Seq<Option<usize>>,
    to_id: Seq<(Operand, usize)>,
    cs: Seq<usize>,
    r: usize,
    merged: Seq<(usize, usize)>,
    tables: Seq<Seq<(usize, usize)>>,
    src: Seq<int>,
)
    requires
        path_cond_ok(buf, blocks, preds, b, conds, to_id, cs, r, merged, tables, src),
        buf2.len() >= buf.len(),
        forall|i: int| 0 <= i < buf.len() ==> #[trigger] buf2[i] == buf[i],
    ensures
        path_cond_ok(buf2, blocks, preds, b, conds, to_id, cs, r, merged, tables, src),
{
    lemma_witnesses_grow(buf, buf2, merged, preds, tables, cs, src);
    assert forall|k: int| 0 <= k < preds.len() implies edge_cond_named(buf2, blocks[preds[k] as int].term, blocks[b].name@, to_id, #[trigger] cs[k]) by {
        lemma_named_grows(buf, buf2, blocks[preds[k] as int].term, blocks[b].name@, to_id, cs[k]);
    }
    lemma_or_fold_grows(buf, buf2, cs, r);
    lemma_edges_grow(buf, buf2, blocks, preds, b, conds, cs, preds.len() as int);
}

/// What merging the predecessors gave block `block_id`: the constant true
/// as the path condition of a block without predecessors; otherwise the
/// path condition folded over the edge conditions, and the pointer table
/// merged from the predecessors' tables with its witness merges.
#[verifier::opaque]
spec fn merge_facts(old: &Context, new: &Context, cfg: &Cfg, blocks: Seq<BasicBlock>, block_id: usize) -> bool {
    &&& (cfg.pred_lists()[block_id as int].len() == 0 ==> new.buf@[new.block_cond@[block_id as int]->Some_0 as int]
            == Lang::I1(true))
    &&& (cfg.pred_lists()[block_id as int].len() > 0 ==> exists|cs: Seq<usize>, src: Seq<int>|
            #[trigger] path_cond_ok(
                new.buf@,
                blocks,
                cfg.pred_lists()[block_id as int],
                block_id as int,
                old.block_cond@,
                old.to_id@,
                cs,
                new.block_cond@[block_id as int]->Some_0,
                new.start_state@[block_id],
                tables_of(old.ptr_state@),
                src,
            ))
    &&& (cfg.pred_lists()[block_id as int].len() > 0 ==> new.start_state@.contains_key(block_id)
            && merged_ok(
            new.start_state@[block_id],
            cfg.pred_lists()[block_id as int],
            tables_of(old.ptr_state@),
        ))
}

/// Translates block `block_id`: its path condition, the memory state of
/// each pointer live on every incoming path, its instructions, and its
/// return value if it returns.
#[verifier::rlimit(60)]
fn parse_bblock(ctx: &mut Context, cfg: &Cfg, blocks: &[BasicBlock], block_id: usize) -> (r: Result<(), TranslateError>)
    requires
        old(ctx).inv(),
        !old(ctx).merged@.contains_key(block_id),
        blocks@.len() == old(ctx).ptr_state@.len() == old(ctx).block_cond@.len(),
        cfg.built_from(blocks@),
        cfg.well_formed(),
        block_id < blocks@.len(),
        forall|m: int| 0 <= m < cfg.pred_lists()[block_id as int].len() ==> {
            let p = #[trigger] cfg.pred_lists()[block_id as int][m];
            p < blocks@.len() && old(ctx).block_cond@[p as int] is Some
        },
    ensures
        final(ctx).inv(),
        final(ctx).grows(old(ctx)),
        r is Ok ==> final(ctx).block_cond@[block_id as int] is Some,
        r matches Err(e) ==> !(e is Cfg) && !(e is CyclicGraph) && !(e is NoReturn),
        r is Ok ==> if blocks@[block_id as int].term is Ret {
            final(ctx).ret is Some
        } else {
            final(ctx).ret == old(ctx).ret
        },
        blocks@[block_id as int].term matches Terminator::Ret { return_operand: None } ==> r is Err,
        forall|b: int| 0 <= b < blocks@.len() && b != block_id ==> #[trigger] final(ctx).ptr_state@[b] == old(ctx).ptr_state@[b],
        forall|b: int| 0 <= b < blocks@.len() && b != block_id ==> #[trigger] final(ctx).block_cond@[b] == old(ctx).block_cond@[b],
        r is Ok ==> final(ctx).merged@.contains_key(block_id),
        r is Ok ==> merge_facts(old(ctx), final(ctx), cfg, blocks@, block_id),
        final(ctx).merged@.contains_key(block_id) ==> is_prefix(final(ctx).merged@[block_id].buf, final(ctx).buf@),
        r matches Err(e) ==> block_can_raise(blocks@, cfg.pred_lists()[block_id as int], block_id, e@),
        forall|x: usize| #[trigger] final(ctx).merged@.contains_key(x) ==> old(ctx).merged@.contains_key(x) || x == block_id,
        forall|x: usize| x != block_id && #[trigger] old(ctx).merged@.contains_key(x) ==> final(ctx).merged@.contains_key(x)
            && final(ctx).merged@[x] == old(ctx).merged@[x],
        !final(ctx).merged@.contains_key(block_id) ==> exists|m: int|
            0 <= m < cfg.pred_lists()[block_id as int].len() && (#[trigger] undefined_cond(
                blocks@,
                cfg.pred_lists()[block_id as int][m],
                old(ctx).to_id@,
            )) is Some && r == Err::<(), TranslateError>(TranslateError::UnknownVariable(r->Err_0->UnknownVariable_0))
                && r->Err_0->UnknownVariable_0@ == undefined_cond(
                blocks@,
                cfg.pred_lists()[block_id as int][m],
                old(ctx).to_id@,
            )->Some_0,
        (forall|m: int|
            0 <= m < cfg.pred_lists()[block_id as int].len() ==> #[trigger] undefined_cond(
                blocks@,
                cfg.pred_lists()[block_id as int][m],
                old(ctx).to_id@,
            ) is None) ==> final(ctx).merged@.contains_key(block_id),
        final(ctx).merged@.contains_key(block_id) ==> {
            &&& final(ctx).merged@[block_id].ctr == old(ctx).alloc_ctr
            &&& cfg.pred_lists()[block_id as int].len() == 0 ==> final(ctx).merged@[block_id].table
                == old(ctx).ptr_state@[block_id as int]@
            &&& cfg.pred_lists()[block_id as int].len() > 0 ==> final(ctx).merged@[block_id].table
                == final(ctx).start_state@[block_id]
            &&& match body_spec(final(ctx).merged@[block_id], blocks@[block_id as int], block_id) {
                Ok((st, rv)) => r is Ok && tstate(final(ctx), block_id) == st && final(ctx).ret == (if rv is Some {
                    rv
                } else {
                    old(ctx).ret
                }),
                Err(e) => r matches Err(x) && x@ == e,
            }
        },
{
    reveal(merge_facts);
    let preds = cfg.preds_of(block_id);
    let name = &blocks[block_id].name;
    let ghost entry_cond: Option<usize> = None;
    let ghost cs: Seq<usize> = Seq::empty();
    let ghost mut src: Seq<int> = Seq::empty();
    let ghost tabs = tables_of(old(ctx).ptr_state@);
    if preds.len() == 0 {
        let id = ctx.push(Lang::I1(true));
        ctx.block_cond.set(block_id, Some(id));
        proof {
            entry_cond = Some(id);
        }
    } else {
        let mut edge_conds: Vec<usize> = Vec::new();
        let mut k: usize = 0;
        while k < preds.len()
            invariant
                ctx.inv(),
                ctx.grows(old(ctx)),
                ctx.block_cond == old(ctx).block_cond,
                ctx.ptr_state == old(ctx).ptr_state,
                ctx.ret == old(ctx).ret,
                ctx.alloc_ctr == old(ctx).alloc_ctr,
                ctx.merged == old(ctx).merged,
                !old(ctx).merged@.contains_key(block_id),
                blocks@.len() == ctx.block_cond@.len(),
                preds@ == cfg.pred_lists()[block_id as int],
                forall|m: int| 0 <= m < preds@.len() ==> {
                    let p = #[trigger] preds@[m];
                    p < blocks@.len() && ctx.block_cond@[p as int] is Some
                },
                k <= preds@.len(),
                edge_conds@.len() == k,
                forall|m: int| 0 <= m < k ==> #[trigger] edge_conds@[m] < ctx.len(),
                forall|m: int|
                    0 <= m < k ==> edge_cond_ok(
                        ctx.buf@,
                        blocks@[preds@[m] as int].term,
                        blocks@[block_id as int].name@,
                        old(ctx).block_cond@[preds@[m] as int]->Some_0,
                        #[trigger] edge_conds@[m],
                    ),
                name@ == blocks@[block_id as int].name@,
                forall|v: Seq<char>| #[trigger] interned(ctx.to_id@, OperandV::Variable(v)) == interned(old(ctx).to_id@, OperandV::Variable(v)),
                forall|m: int|
                    0 <= m < k ==> edge_cond_named(
                        ctx.buf@,
                        blocks@[preds@[m] as int].term,
                        blocks@[block_id as int].name@,
                        old(ctx).to_id@,
                        #[trigger] edge_conds@[m],
                    ),
            decreases preds@.len() - k,
        {
            let ghost b0 = ctx.buf@;
            let ghost t0 = ctx.to_id@;
            let pred = preds[k];
            let pc = ctx.block_cond[pred].unwrap();
            let c = match &blocks[pred].term {
                Terminator::CondBr { condition, false_dest, .. } => {
                    let cid = match ctx.get_or_add_id(condition) {
                        Ok(id) => id,
                        Err(e) => {
                            proof {
                                assert(undefined_cond(blocks@, pred, old(ctx).to_id@) is Some);
                                assert(preds@[k as int] == pred);
                                assert(cfg.pred_lists()[block_id as int][k as int] == pred);
                                assert(e@ is UnknownVariable);
                                assert(term_var(blocks@[pred as int].term) == Some(e@->UnknownVariable_0));
                                assert(term_var(blocks@[cfg.pred_lists()[block_id as int][k as int] as int].term) == Some(
                                    e@->UnknownVariable_0,
                                ));
                            }
                            return Err(e);
                        },
                    };
                    proof {
                        if ctx.to_id@ != t0 {
                            assert(ctx.to_id@.drop_last() =~= t0);
                        }
                        assert forall|v: Seq<char>| #[trigger] interned(ctx.to_id@, OperandV::Variable(v)) == interned(old(ctx).to_id@, OperandV::Variable(v)) by {
                            assert(interned(t0, OperandV::Variable(v)) == interned(old(ctx).to_id@, OperandV::Variable(v)));
                        }
                        lemma_interned_entry(ctx.to_id@, operand_view(*condition));
                        assert(cond_node_ok(ctx.buf@, old(ctx).to_id@, *condition, cid)) by {
                            if let Operand::Constant(kk) = *condition {
                                let j = choose|j: int| 0 <= j < ctx.to_id@.len() && operand_view(#[trigger] ctx.to_id@[j].0) == operand_view(*condition) && ctx.to_id@[j].1 == cid;
                                assert(ctx.to_id@[j].0 == Operand::Constant(kk));
                            } else {
                                assert(interned(ctx.to_id@, operand_view(*condition)) == Some(cid));
                            }
                        }
                    }
                    let ghost b_mid = ctx.buf@;
                    let first = if text_eq(false_dest.as_str(), name.as_str()) {
                        ctx.push(Lang::Not(cid))
                    } else {
                        cid
                    };
                    let ghost b_neg = ctx.buf@;
                    let c = ctx.push(Lang::And([first, pc]));
                    proof {
                        if let Operand::Constant(kk) = *condition {
                            assert(ctx.buf@[cid as int] == b_mid[cid as int]);
                        }
                        if text_eq_spec(false_dest@, name@) {
                            let x = b_neg[ctx.buf@[c as int]->And_0[0] as int]->Not_0;
                            if let Operand::Constant(kk) = *condition {
                                assert(ctx.buf@[x as int] == b_mid[x as int]);
                            }
                        }
                        assert(edge_cond_named(ctx.buf@, blocks@[pred as int].term, blocks@[block_id as int].name@, old(ctx).to_id@, c));
                    }
                    c
                },
                // an unconditional branch: a block that returns has no successor
                _ => pc,
            };
            proof {
                lemma_edges_grow(b0, ctx.buf@, blocks@, preds@, block_id as int, old(ctx).block_cond@, edge_conds@, k as int);
                if blocks@[pred as int].term is CondBr {
                    assert(ctx.buf@.last() == Lang::And([ctx.buf@[c as int]->And_0[0], pc]));
                }
            }
            proof {
                assert forall|m: int|
                    0 <= m < k implies edge_cond_named(
                        ctx.buf@,
                        blocks@[preds@[m] as int].term,
                        blocks@[block_id as int].name@,
                        old(ctx).to_id@,
                        #[trigger] edge_conds@[m],
                    ) by {
                    lemma_named_grows(b0, ctx.buf@, blocks@[preds@[m] as int].term, blocks@[block_id as int].name@, old(ctx).to_id@, edge_conds@[m]);
                }
            }
            edge_conds.push(c);
            proof {
                assert forall|m: int|
                    0 <= m < k + 1 implies edge_cond_ok(
                        ctx.buf@,
                        blocks@[preds@[m] as int].term,
                        blocks@[block_id as int].name@,
                        old(ctx).block_cond@[preds@[m] as int]->Some_0,
                        #[trigger] edge_conds@[m],
                    ) by {
                }
            }
            k = k + 1;
        }
        let ghost snap = ctx.buf@;
        let first = preds[0];
        let first_len = ctx.ptr_state[first].len();
        let mut new_state: Vec<(usize, usize)> = Vec::new();
        let mut e: usize = 0;
        while e < first_len
            invariant
                ctx.inv(),
                ctx.grows(old(ctx)),
                ctx.block_cond == old(ctx).block_cond,
                ctx.ptr_state == old(ctx).ptr_state,
                ctx.ret == old(ctx).ret,
                ctx.alloc_ctr == old(ctx).alloc_ctr,
                ctx.merged == old(ctx).merged,
                blocks@.len() == ctx.ptr_state@.len(),
                preds@ == cfg.pred_lists()[block_id as int],
                forall|m: int| 0 <= m < preds@.len() ==> #[trigger] preds@[m] < blocks@.len(),
                preds@.len() > 0,
                first == preds@[0],
                first_len == ctx.ptr_state@[first as int]@.len(),
                edge_conds@.len() == preds@.len(),
                forall|m: int| 0 <= m < edge_conds@.len() ==> #[trigger] edge_conds@[m] < ctx.len(),
                e <= first_len,
                witnesses_ok(ctx.buf@, new_state@, preds@, tabs, edge_conds@, src),
                tabs == tables_of(old(ctx).ptr_state@),
                forall|m: int, k: int|
                    0 <= m < new_state@.len() && 0 <= k < preds@.len() ==> #[trigger] has_key(
                        ctx.ptr_state@[preds@[k] as int]@,
                        new_state@[m].0,
                    ),
                forall|e2: int|
                    0 <= e2 < e && (forall|k: int|
                        0 <= k < preds@.len() ==> #[trigger] has_key(
                            ctx.ptr_state@[preds@[k] as int]@,
                            ctx.ptr_state@[first as int]@[e2].0,
                        )) ==> has_key(new_state@, #[trigger] ctx.ptr_state@[first as int]@[e2].0),
                preds@.len() == 1 ==> new_state@ == ctx.ptr_state@[first as int]@.subrange(0, e as int),
                ctx.buf@.len() >= snap.len(),
                forall|i: int| 0 <= i < snap.len() ==> #[trigger] ctx.buf@[i] == snap[i],
                forall|m: int| 0 <= m < new_state@.len() ==> (#[trigger] new_state@[m]).0 < ctx.len() && new_state@[m].1 < ctx.len(),
            decreases first_len - e,
        {
            let (ptr, w0) = ctx.ptr_state[first][e];
            let mut ws: Vec<usize> = Vec::new();
            let mut shared = true;
            let mut k: usize = 1;
            while k < preds.len()
                invariant
                    ctx.inv(),
                    blocks@.len() == ctx.ptr_state@.len(),
                    forall|m: int| 0 <= m < preds@.len() ==> #[trigger] preds@[m] < blocks@.len(),
                    1 <= k <= preds@.len(),
                    shared ==> ws@.len() == k - 1,
                    ctx.ptr_state == old(ctx).ptr_state,
                    k == 1 ==> shared,
                    shared ==> forall|k2: int| 1 <= k2 < k ==> #[trigger] has_key(ctx.ptr_state@[preds@[k2] as int]@, ptr),
                    shared ==> forall|k2: int| 1 <= k2 < k ==> ws@[k2 - 1] == (#[trigger] witness_of(ctx.ptr_state@[preds@[k2] as int]@, ptr))->Some_0,
                    !shared ==> exists|k2: int| 0 <= k2 < preds@.len() && !#[trigger] has_key(ctx.ptr_state@[preds@[k2] as int]@, ptr),
                    forall|m: int| 0 <= m < ws@.len() ==> #[trigger] ws@[m] < ctx.len(),
                decreases preds@.len() - k,
            {
                match lookup(&ctx.ptr_state[preds[k]], ptr) {
                    Some(w) => {
                        proof {
                            let b = preds@[k as int] as int;
                            let m = choose|m: int| 0 <= m < ctx.ptr_state@[b]@.len() && ctx.ptr_state@[b]@[m] == (ptr, w);
                            assert(ctx.ptr_state@[b]@[m] == (ptr, w));
                            assert(has_key(ctx.ptr_state@[b]@, ptr));
                        }
                        ws.push(w);
                    },
                    None => {
                        proof {
                            assert(!has_key(ctx.ptr_state@[preds@[k as int] as int]@, ptr));
                        }
                        shared = false;
                    },
                }
                k = k + 1;
            }
            if shared {
                let ghost wsq = witness_seq(tabs, preds@, w0, ptr);
                assert forall|k2: int| 1 <= k2 < preds@.len() implies ws@[k2 - 1] == #[trigger] wsq[k2] by {
                    assert(tabs[preds@[k2] as int] == ctx.ptr_state@[preds@[k2] as int]@);
                    assert(ws@[k2 - 1] == witness_of(ctx.ptr_state@[preds@[k2] as int]@, ptr)->Some_0);
                }
                assert(wsq.subrange(0, 1) =~= seq![w0]);
                let mut curr = w0;
                let mut k: usize = 1;
                while k < preds.len()
                    invariant
                        ctx.inv(),
                        ctx.grows(old(ctx)),
                        ctx.block_cond == old(ctx).block_cond,
                        ctx.ptr_state == old(ctx).ptr_state,
                        ctx.ret == old(ctx).ret,
                        ctx.alloc_ctr == old(ctx).alloc_ctr,
                        ctx.merged == old(ctx).merged,
                ctx.alloc_ctr == old(ctx).alloc_ctr,
                ctx.merged == old(ctx).merged,
                        edge_conds@.len() == preds@.len(),
                        ws@.len() == preds@.len() - 1,
                        forall|m: int| 0 <= m < edge_conds@.len() ==> #[trigger] edge_conds@[m] < ctx.len(),
                        forall|m: int| 0 <= m < ws@.len() ==> #[trigger] ws@[m] < ctx.len(),
                        forall|m: int| 0 <= m < new_state@.len() ==> (#[trigger] new_state@[m]).0 < ctx.len() && new_state@[m].1 < ctx.len(),
                        1 <= k <= preds@.len(),
                        curr < ctx.len(),
                        ctx.buf@.len() >= snap.len(),
                        forall|i: int| 0 <= i < snap.len() ==> #[trigger] ctx.buf@[i] == snap[i],
                        ptr < ctx.len(),
                        k == 1 ==> curr == w0,
                        witnesses_ok(ctx.buf@, new_state@, preds@, tabs, edge_conds@, src),
                        wsq == witness_seq(tabs, preds@, w0, ptr),
                        forall|k2: int| 1 <= k2 < preds@.len() ==> ws@[k2 - 1] == #[trigger] wsq[k2],
                        phi_fold(ctx.buf@, edge_conds@, wsq.subrange(0, k as int), curr),
                    decreases preds@.len() - k,
                {
                    let ghost b1 = ctx.buf@;
                    let ghost prev = curr;
                    curr = ctx.push(Lang::Phi([edge_conds[k], ws[k - 1], curr]));
                    proof {
                        lemma_witnesses_grow(b1, ctx.buf@, new_state@, preds@, tabs, edge_conds@, src);
                        lemma_phi_fold_grows(b1, ctx.buf@, edge_conds@, wsq.subrange(0, k as int), prev);
                        assert(wsq.subrange(0, k + 1).drop_last() =~= wsq.subrange(0, k as int));
                        assert(wsq[k as int] == ws@[k - 1]);
                    }
                    k = k + 1;
                }
                assert(wsq.subrange(0, preds@.len() as int) =~= wsq);
                let ghost ns0 = new_state@;
                let ghost src0 = src;
                new_state.push((ptr, curr));
                proof {
                    src = src.push(e as int);
                    assert(ctx.ptr_state@[first as int]@[e as int] == (ptr, w0));
                    assert(tabs[preds@[0] as int] == ctx.ptr_state@[first as int]@);
                    assert forall|m: int| 0 <= m < new_state@.len() implies {
                        &&& 0 <= #[trigger] src[m] < tabs[preds@[0] as int].len()
                        &&& tabs[preds@[0] as int][src[m]].0 == new_state@[m].0
                        &&& phi_fold(ctx.buf@, edge_conds@, witness_seq(tabs, preds@, tabs[preds@[0] as int][src[m]].1, new_state@[m].0), new_state@[m].1)
                    } by {
                        if m < ns0.len() {
                            assert(src[m] == src0[m]);
                            assert(new_state@[m] == ns0[m]);
                        }
                    }
                }
                proof {
                    let p0 = ctx.ptr_state@[first as int]@;
                    assert(p0[e as int] == (ptr, w0));
                    assert(has_key(p0, ptr));
                    assert(has_key(new_state@, ptr)) by {
                        assert(new_state@[ns0.len() as int].0 == ptr);
                    }
                    assert forall|m: int, k: int|
                        0 <= m < new_state@.len() && 0 <= k < preds@.len() implies #[trigger] has_key(
                            ctx.ptr_state@[preds@[k] as int]@,
                            new_state@[m].0,
                        ) by {
                        if m < ns0.len() {
                            assert(new_state@[m] == ns0[m]);
                        } else if k > 0 {
                        }
                    }
                    assert forall|e2: int|
                        0 <= e2 < e + 1 && (forall|k: int|
                            0 <= k < preds@.len() ==> #[trigger] has_key(
                                ctx.ptr_state@[preds@[k] as int]@,
                                ctx.ptr_state@[first as int]@[e2].0,
                            )) implies has_key(new_state@, #[trigger] ctx.ptr_state@[first as int]@[e2].0) by {
                        if e2 < e {
                            let q = p0[e2].0;
                            assert(has_key(ns0, q));
                            let j = choose|j: int| 0 <= j < ns0.len() && ns0[j].0 == q;
                            assert(new_state@[j].0 == q);
                        }
                    }
                    if preds@.len() == 1 {
                        assert(new_state@ =~= p0.subrange(0, e + 1));
                    }
                }
            }
            else {
                proof {
                    let p0 = ctx.ptr_state@[first as int]@;
                    assert(p0[e as int].0 == ptr);
                    assert forall|e2: int|
                        0 <= e2 < e + 1 && (forall|k: int|
                            0 <= k < preds@.len() ==> #[trigger] has_key(
                                ctx.ptr_state@[preds@[k] as int]@,
                                ctx.ptr_state@[first as int]@[e2].0,
                            )) implies has_key(new_state@, #[trigger] ctx.ptr_state@[first as int]@[e2].0) by {
                        if e2 == e {
                            let k2 = choose|k2: int| 0 <= k2 < preds@.len() && !#[trigger] has_key(ctx.ptr_state@[preds@[k2] as int]@, ptr);
                        }
                    }
                }
            }
            e = e + 1;
        }
        proof {
            if preds@.len() == 1 {
                assert(new_state@ =~= ctx.ptr_state@[first as int]@);
            }
            let tab = tables_of(old(ctx).ptr_state@);
            assert forall|b: int| 0 <= b < tab.len() implies #[trigger] tab[b] == ctx.ptr_state@[b]@ by {}
            assert forall|m: int, k: int|
                0 <= m < new_state@.len() && 0 <= k < preds@.len() implies #[trigger] has_key(tab[preds@[k] as int], new_state@[m].0) by {
                assert(has_key(ctx.ptr_state@[preds@[k] as int]@, new_state@[m].0));
            }
            assert forall|e2: int|
                0 <= e2 < tab[preds@[0] as int].len() && (forall|k: int|
                    0 <= k < preds@.len() ==> #[trigger] has_key(tab[preds@[k] as int], tab[preds@[0] as int][e2].0))
                    implies has_key(new_state@, #[trigger] tab[preds@[0] as int][e2].0) by {
                assert forall|k: int| 0 <= k < preds@.len() implies #[trigger] has_key(
                    ctx.ptr_state@[preds@[k] as int]@,
                    ctx.ptr_state@[first as int]@[e2].0,
                ) by {
                    assert(has_key(tab[preds@[k] as int], tab[preds@[0] as int][e2].0));
                }
            }
            assert(merged_ok(new_state@, preds@, tab));
        }
        let mut bc = edge_conds[0];
        assert(edge_conds@.subrange(0, 1) =~= seq![edge_conds@[0]]);
        let mut k: usize = 1;
        while k < preds.len()
            invariant
                ctx.inv(),
                ctx.grows(old(ctx)),
                ctx.block_cond == old(ctx).block_cond,
                ctx.ptr_state == old(ctx).ptr_state,
                ctx.ret == old(ctx).ret,
                ctx.alloc_ctr == old(ctx).alloc_ctr,
                ctx.merged == old(ctx).merged,
                edge_conds@.len() == preds@.len(),
                forall|m: int| 0 <= m < edge_conds@.len() ==> #[trigger] edge_conds@[m] < ctx.len(),
                forall|m: int| 0 <= m < new_state@.len() ==> (#[trigger] new_state@[m]).0 < ctx.len() && new_state@[m].1 < ctx.len(),
                1 <= k <= preds@.len(),
                bc < ctx.len(),
                ctx.buf@.len() >= snap.len(),
                forall|i: int| 0 <= i < snap.len() ==> #[trigger] ctx.buf@[i] == snap[i],
                or_fold(ctx.buf@, edge_conds@.subrange(0, k as int), bc),
                witnesses_ok(ctx.buf@, new_state@, preds@, tabs, edge_conds@, src),
            decreases preds@.len() - k,
        {
            let ghost b1 = ctx.buf@;
            let ghost prev = bc;
            bc = ctx.push(Lang::Or([edge_conds[k], bc]));
            proof {
                lemma_witnesses_grow(b1, ctx.buf@, new_state@, preds@, tabs, edge_conds@, src);
                lemma_or_fold_grows(b1, ctx.buf@, edge_conds@.subrange(0, k as int), prev);
                assert(edge_conds@.subrange(0, k + 1).drop_last() =~= edge_conds@.subrange(0, k as int));
            }
            k = k + 1;
        }
        proof {
            assert(edge_conds@.subrange(0, preds@.len() as int) =~= edge_conds@);
            lemma_edges_grow(snap, ctx.buf@, blocks@, preds@, block_id as int, old(ctx).block_cond@, edge_conds@, preds@.len() as int);
            assert forall|m: int|
                0 <= m < preds@.len() implies edge_cond_named(
                    ctx.buf@,
                    blocks@[preds@[m] as int].term,
                    blocks@[block_id as int].name@,
                    old(ctx).to_id@,
                    #[trigger] edge_conds@[m],
                ) by {
                lemma_named_grows(snap, ctx.buf@, blocks@[preds@[m] as int].term, blocks@[block_id as int].name@, old(ctx).to_id@, edge_conds@[m]);
            }
            cs = edge_conds@;
            assert(path_cond_ok(ctx.buf@, blocks@, preds@, block_id as int, old(ctx).block_cond@, old(ctx).to_id@, cs, bc, new_state@, tabs, src));
        }
        let ghost before = ctx.ptr_state@;
        ctx.start_state = Ghost(ctx.start_state@.insert(block_id, new_state@));
        ctx.ptr_state.set(block_id, new_state);
        ctx.block_cond.set(block_id, Some(bc));
        proof {
            assert forall|b: int, k: int|
                0 <= b < ctx.ptr_state@.len() && 0 <= k < ctx.ptr_state@[b]@.len() implies (#[trigger] ctx.ptr_state@[b]@[k]).0
                    < ctx.len() && ctx.ptr_state@[b]@[k].1 < ctx.len() by {
                if b != block_id as int {
                    assert(ctx.ptr_state@[b] == before[b]);
                }
            }
        }
    }
    let ghost start_after_merge = ctx.start_state;
    let ghost m0 = tstate(ctx, block_id);
    proof {
        ctx.merged = Ghost(ctx.merged@.insert(block_id, m0));
    }
    let ghost merged_after = ctx.merged;
    let instrs = &blocks[block_id].instrs;
    let mut k: usize = 0;
    while k < instrs.len()
        invariant
            ctx.inv(),
            ctx.grows(old(ctx)),
            blocks@.len() == ctx.ptr_state@.len() == ctx.block_cond@.len(),
            block_id < blocks@.len(),
            ctx.block_cond@[block_id as int] is Some,
            forall|b: int| 0 <= b < blocks@.len() && b != block_id ==> #[trigger] ctx.block_cond@[b] == old(ctx).block_cond@[b],
            k <= instrs@.len(),
            ctx.ret == old(ctx).ret,
            instrs@ == blocks@[block_id as int].instrs@,
            entry_cond matches Some(c) ==> ctx.block_cond@[block_id as int] == Some(c) && c < ctx.buf@.len()
                && ctx.buf@[c as int] == Lang::I1(true),
            preds@.len() == 0 ==> entry_cond is Some,
            preds@ == cfg.pred_lists()[block_id as int],
            ctx.start_state == start_after_merge,
            ctx.merged == merged_after,
            ctx.merged@ == old(ctx).merged@.insert(block_id, m0),
            ctx.merged@.contains_key(block_id),
            ctx.merged@[block_id] == m0,
            m0.buf.len() <= ctx.buf@.len(),
            forall|i: int| 0 <= i < m0.buf.len() ==> #[trigger] ctx.buf@[i] == m0.buf[i],
            m0.ctr == old(ctx).alloc_ctr,
            preds@.len() == 0 ==> m0.table == old(ctx).ptr_state@[block_id as int]@,
            preds@.len() > 0 ==> m0.table == ctx.start_state@[block_id],
            instrs_spec(m0, instrs@, k as int, block_id) == Ok::<TState, ErrorV>(tstate(ctx, block_id)),
            preds@.len() > 0 ==> path_cond_ok(
                ctx.buf@,
                blocks@,
                preds@,
                block_id as int,
                old(ctx).block_cond@,
                old(ctx).to_id@,
                cs,
                ctx.block_cond@[block_id as int]->Some_0,
                ctx.start_state@[block_id],
                tables_of(old(ctx).ptr_state@),
                src,
            ),
            forall|b: int| 0 <= b < blocks@.len() && b != block_id ==> #[trigger] ctx.ptr_state@[b] == old(ctx).ptr_state@[b],
        decreases instrs@.len() - k,
    {
        let ghost b2 = ctx.buf@;
        let ghost ctx_before_instr = *ctx;
        match parse_instruction(ctx, block_id, &instrs[k]) {
            Ok(()) => {},
            Err(e) => {
                proof {
                    lemma_instrs_err_stays(m0, instrs@, k + 1, instrs@.len() as int, block_id);
                    lemma_instr_error(tstate(&ctx_before_instr, block_id), instrs@[k as int], block_id);
                    assert(instr_can_raise(blocks@[block_id as int].instrs@[k as int], block_id, e@));
                }
                return Err(e);
            },
        }
        proof {
            if preds@.len() > 0 {
                lemma_path_cond_grows(b2, ctx.buf@, blocks@, preds@, block_id as int, old(ctx).block_cond@, old(ctx).to_id@, cs, ctx.block_cond@[block_id as int]->Some_0, ctx.start_state@[block_id], tables_of(old(ctx).ptr_state@), src);
            }
        }
        k = k + 1;
    }
    assert(instrs@.subrange(0, instrs@.len() as int) =~= instrs@);
    match &blocks[block_id].term {
        Terminator::Ret { return_operand: Some(op) } => {
            let ghost b3 = ctx.buf@;
            let r = match ctx.get_or_add_id(op) {
                Ok(id) => id,
                Err(e) => {
                    return Err(e);
                },
            };
            ctx.ret = Some(r);
            proof {
                if preds@.len() > 0 {
                    lemma_path_cond_grows(b3, ctx.buf@, blocks@, preds@, block_id as int, old(ctx).block_cond@, old(ctx).to_id@, cs, ctx.block_cond@[block_id as int]->Some_0, ctx.start_state@[block_id], tables_of(old(ctx).ptr_state@), src);
                }
            }
        },
        Terminator::Ret { return_operand: None } => {
            return Err(TranslateError::VoidReturn { block: block_id });
        },
        _ => {},
    }
    Ok(())
}

/// `a` is a prefix of `b`.
pub open spec fn is_prefix(a: Seq<Lang>, b: Seq<Lang>) -> bool {
    a.len() <= b.len() && forall|i: int| 0 <= i < a.len() ==> #[trigger] b[i] == a[i]
}

/// The position in `ord`, below `i`, of the last block that returns.
pub open spec fn last_return(blocks: Seq<BasicBlock>, ord: Seq<usize>, i: int) -> Option<int>
    decreases i,
{
    if i <= 0 {
        None
    } else if blocks[ord[i - 1] as int].term is Ret {
        Some(i - 1)
    } else {
        last_return(blocks, ord, i - 1)
    }
}

proof fn lemma_last_return_bound(blocks: Seq<BasicBlock>, ord: Seq<usize>, i: int)
    ensures
        last_return(blocks, ord, i) matches Some(j) ==> 0 <= j < i,
    decreases i,
{
    if i > 0 {
        lemma_last_return_bound(blocks, ord, i - 1);
    }
}

/// Translates a function into one expression over its parameters. The
/// blocks are visited in a topological order; the value that the block
/// visited last among those that return gives the root.
#[verifier::rlimit(100)]
pub fn parse_function(function: &IrFunction) -> (r: Result<Function, TranslateError>)
    requires
        function.basic_blocks@.len() <= usize::MAX / 2,
    ensures
        r matches Ok(f) ==> {
            &&& forall|b: usize| b < function.basic_blocks@.len() ==> #[trigger] f.trace@.contains_key(b)
                && body_spec(f.trace@[b], function.basic_blocks@[b as int], b) is Ok && is_prefix(f.trace@[b].buf, f.body@)
            &&& last_return(
                function.basic_blocks@,
                kahn_order(block_graph(function.basic_blocks@)),
                function.basic_blocks@.len() as int,
            ) matches Some(j) && {
                let b = kahn_order(block_graph(function.basic_blocks@))[j];
                f.root == body_spec(f.trace@[b], function.basic_blocks@[b as int], b)->Ok_0.1->Some_0
            }
            &&& f.name@ == function.name@
            &&& f.params@.len() == function.parameters@.len()
            &&& buffer_wf(node_seq(f.body@))
            &&& f.root < f.body@.len()
            &&& f.params@.len() <= f.body@.len()
            &&& alloca_ids_increase(f.body@)
            &&& forall|k: int| 0 <= k < f.params@.len() ==> (#[trigger] f.params@[k])@ == function.parameters@[k]@
                && f.body@[k]@ == Node::Var(function.parameters@[k]@)
            &&& exists|b: int| 0 <= b < function.basic_blocks@.len() && (#[trigger] function.basic_blocks@[b]).term is Ret
        },
        r matches Err(TranslateError::Cfg(e)) ==> first_error(function.basic_blocks@, function.basic_blocks@.len() as int)
            == Some(e),
        (first_error(function.basic_blocks@, function.basic_blocks@.len() as int) is None && (exists|
            rank: spec_fn(usize) -> nat,
        | is_ranking(block_graph(function.basic_blocks@), rank)) && (exists|b: int|
            0 <= b < function.basic_blocks@.len() && (#[trigger] function.basic_blocks@[b]).term is Ret) && (forall|
            b: usize,
            e: ErrorV,
        |
            b < function.basic_blocks@.len() ==> !#[trigger] block_can_raise(
                function.basic_blocks@,
                preds_of(block_graph(function.basic_blocks@), b, function.basic_blocks@.len() as int),
                b,
                e,
            ))) ==> r is Ok,
        first_error(function.basic_blocks@, function.basic_blocks@.len() as int) matches Some(e) ==> r
            == Err::<Function, TranslateError>(TranslateError::Cfg(e)),
        r == Err::<Function, TranslateError>(TranslateError::CyclicGraph) ==> !exists|rank: spec_fn(usize) -> nat|
            is_ranking(block_graph(function.basic_blocks@), rank),
        (first_error(function.basic_blocks@, function.basic_blocks@.len() as int) is None && !(exists|
            rank: spec_fn(usize) -> nat,
        | is_ranking(block_graph(function.basic_blocks@), rank))) ==> r == Err::<Function, TranslateError>(
            TranslateError::CyclicGraph,
        ),
        r matches Err(e) ==> e is Cfg || e is CyclicGraph || e is NoReturn || exists|b: usize|
            b < function.basic_blocks@.len() && #[trigger] block_can_raise(
                function.basic_blocks@,
                preds_of(block_graph(function.basic_blocks@), b, function.basic_blocks@.len() as int),
                b,
                e@,
            ),
        r == Err::<Function, TranslateError>(TranslateError::NoReturn) ==> forall|b: int|
            0 <= b < function.basic_blocks@.len() ==> !((#[trigger] function.basic_blocks@[b]).term is Ret),
{
    let blocks = function.basic_blocks.as_slice();
    let n = blocks.len();
    let mut ptr_state: Vec<Vec<(usize, usize)>> = Vec::new();
    let mut block_cond: Vec<Option<usize>> = Vec::new();
    let mut k: usize = 0;
    while k < n
        invariant
            k <= n == blocks@.len(),
            ptr_state@.len() == k,
            block_cond@.len() == k,
            forall|b: int| 0 <= b < k ==> (#[trigger] ptr_state@[b])@.len() == 0,
            forall|b: int| 0 <= b < k ==> #[trigger] block_cond@[b] is None,
        decreases n - k,
    {
        ptr_state.push(Vec::new());
        block_cond.push(None);
        k = k + 1;
    }
    let mut ctx = Context::new(ptr_state, block_cond);
    let params = &function.parameters;
    let mut names: Vec<String> = Vec::new();
    let mut k: usize = 0;
    while k < params.len()
        invariant
            ctx.inv(),
            ctx.ptr_state@.len() == n,
            ctx.block_cond@.len() == n,
            forall|b: int| 0 <= b < n ==> #[trigger] ctx.block_cond@[b] is None,
            ctx.ret is None,
            ctx.merged@ == Map::<usize, TState>::empty(),
            k <= params@.len(),
            ctx.buf@.len() == k,
            names@.len() == k,
            forall|j: int| 0 <= j < k ==> (#[trigger] names@[j])@ == params@[j]@,
            forall|j: int| 0 <= j < k ==> (#[trigger] ctx.buf@[j])@ == Node::Var(params@[j]@),
        decreases params@.len() - k,
    {
        let id = ctx.push(Lang::Var(params[k].clone()));
        ctx.bind(&params[k], id);
        names.push(params[k].clone());
        k = k + 1;
    }
    let np = params.len();
    let cfg = match Cfg::new(blocks) {
        Ok(c) => c,
        Err(e) => {
            return Err(TranslateError::Cfg(e));
        },
    };
    proof {
        assert(cfg.succ_lists() =~= block_graph(blocks@));
    }
    let order = cfg.topo_order();
    if order.len() != n {
        proof {
            if exists|rank: spec_fn(usize) -> nat| is_ranking(block_graph(blocks@), rank) {
                assert forall|v: usize| v < n implies order@.contains(v) by {}
                crate::cfg::lemma_no_dup_len(order@, n);
                lemma_all_in_len(order@, n);
            }
        }
        return Err(TranslateError::CyclicGraph);
    }
    proof {
        let g = block_graph(blocks@);
        let rank = |v: usize| order@.index_of(v) as nat;
        assert forall|u: int, j: int| 0 <= u < g.len() && 0 <= j < g[u].len() implies rank(u as usize) < rank(
            #[trigger] g[u][j],
        ) by {
            let v = g[u][j];
            lemma_all_visited(order@, n, u as usize);
            lemma_all_visited(order@, n, v);
            let pu = order@.index_of(u as usize);
            let pv = order@.index_of(v);
            assert(order@[pu] == u as usize);
            assert(order@[pv] == v);
            assert(cfg.succ_lists()[u].contains(v));
            if pv <= pu {
                assert(!cfg.succ_lists()[order@[pu] as int].contains(order@[pv]));
            }
        }
        assert(is_ranking(g, rank));
    }
    let mut i: usize = 0;
    while i < n
        invariant
            ctx.inv(),
            blocks@.len() == n == ctx.ptr_state@.len() == ctx.block_cond@.len(),
            n <= usize::MAX / 2,
            cfg.built_from(blocks@),
            cfg.well_formed(),
            cfg.num_blocks() == n,
            first_error(blocks@, n as int) is None,
            order@.len() == n,
            forall|j: int| 0 <= j < n ==> #[trigger] order@[j] < n,
            order@.no_duplicates(),
            forall|p: int, q: int|
                #![trigger order@[p], order@[q]]
                0 <= p <= q < order@.len() ==> !cfg.succ_lists()[order@[q] as int].contains(order@[p]),
            forall|j: int, u: int|
                0 <= j < order@.len() && 0 <= u < n && #[trigger] cfg.succ_lists()[u].contains(order@[j])
                    ==> order@.contains(u as usize),
            i <= n,
            forall|j: int| 0 <= j < i ==> ctx.block_cond@[#[trigger] order@[j] as int] is Some,
            np <= ctx.buf@.len(),
            names@.len() == np == params@.len(),
            blocks@ == function.basic_blocks@,
            forall|j: int| 0 <= j < np ==> (#[trigger] names@[j])@ == params@[j]@,
            forall|j: int| 0 <= j < np ==> (#[trigger] ctx.buf@[j])@ == Node::Var(params@[j]@),
            ctx.ret is Some ==> exists|b: int| 0 <= b < n && (#[trigger] blocks@[b]).term is Ret,
            ctx.ret is None ==> forall|j: int| 0 <= j < i ==> !(blocks@[#[trigger] order@[j] as int].term is Ret),
            exists|rank: spec_fn(usize) -> nat| is_ranking(block_graph(blocks@), rank),
            forall|x: usize| #[trigger] ctx.merged@.contains_key(x) ==> exists|j: int| 0 <= j < i && order@[j] == x,
            forall|x: usize| #[trigger] ctx.merged@.contains_key(x) ==> is_prefix(ctx.merged@[x].buf, ctx.buf@),
            order@ == kahn_order(block_graph(blocks@)),
            cfg.succ_lists() == block_graph(blocks@),
            forall|j: int| 0 <= j < i ==> #[trigger] ctx.merged@.contains_key(order@[j]) && body_spec(
                ctx.merged@[order@[j]],
                blocks@[order@[j] as int],
                order@[j],
            ) is Ok,
            match last_return(blocks@, order@, i as int) {
                None => ctx.ret is None,
                Some(j) => ctx.ret == body_spec(ctx.merged@[order@[j]], blocks@[order@[j] as int], order@[j])->Ok_0.1,
            },
        decreases n - i,
    {
        let b = order[i];
        proof {
            let ps = cfg.pred_lists()[b as int];
            lemma_preds_of_edges(cfg.succ_lists(), b, n as int);
            assert forall|m: int| 0 <= m < ps.len() implies {
                let p = #[trigger] ps[m];
                p < n && ctx.block_cond@[p as int] is Some
            } by {
                let p = ps[m];
                assert(cfg.succ_lists()[p as int].contains(order@[i as int]));
                assert(order@.contains(p));
                let q = choose|q: int| 0 <= q < order@.len() && order@[q] == p;
                if q >= i {
                    assert(!cfg.succ_lists()[order@[q] as int].contains(order@[i as int]));
                }
            }
        }
        let ghost before = ctx;
        assert(!ctx.merged@.contains_key(b)) by {
            if ctx.merged@.contains_key(b) {
                let j = choose|j: int| 0 <= j < i && order@[j] == b;
                assert(order@[j] == order@[i as int]);
            }
        }
        match parse_bblock(&mut ctx, &cfg, blocks, b) {
            Err(e) => {
                proof {
                    assert(cfg.pred_lists()[b as int] == preds_of(block_graph(blocks@), b, n as int));
                    assert(block_can_raise(blocks@, preds_of(block_graph(blocks@), b, n as int), b, e@));
                }
                return Err(e);
            },
            Ok(()) => {
                proof {
                    if ctx.ret is Some && blocks@[b as int].term is Ret {
                        assert(blocks@[b as int].term is Ret);
                    }
                }
            },
        }
        proof {
            assert forall|j: int| 0 <= j < i + 1 implies #[trigger] ctx.merged@.contains_key(order@[j]) && body_spec(
                ctx.merged@[order@[j]],
                blocks@[order@[j] as int],
                order@[j],
            ) is Ok by {
                if j < i {
                    assert(order@[j] != order@[i as int]);
                    assert(before.merged@.contains_key(order@[j]));
                    assert(ctx.merged@[order@[j]] == before.merged@[order@[j]]);
                } else {
                    assert(ctx.merged@.contains_key(b));
                    assert(body_spec(ctx.merged@[b], blocks@[b as int], b) is Ok);
                }
            }
            assert(ctx.merged@.contains_key(b));
            assert(body_spec(ctx.merged@[b], blocks@[b as int], b) is Ok);
            if blocks@[b as int].term is Ret {
                assert(last_return(blocks@, order@, i + 1) == Some(i as int));
                assert(body_spec(ctx.merged@[b], blocks@[b as int], b)->Ok_0.1 is Some);
                assert(ctx.ret == body_spec(ctx.merged@[b], blocks@[b as int], b)->Ok_0.1);
            } else {
                assert(last_return(blocks@, order@, i + 1) == last_return(blocks@, order@, i as int));
                assert(body_spec(ctx.merged@[b], blocks@[b as int], b)->Ok_0.1 is None);
                assert(ctx.ret == before.ret);
                if last_return(blocks@, order@, i as int) is Some {
                    let j = last_return(blocks@, order@, i as int)->Some_0;
                    lemma_last_return_bound(blocks@, order@, i as int);
                    assert(order@[j] != b);
                    assert(before.merged@.contains_key(order@[j]));
                    assert(ctx.merged@[order@[j]] == before.merged@[order@[j]]);
                }
            }
            assert forall|x: usize| #[trigger] ctx.merged@.contains_key(x) implies is_prefix(ctx.merged@[x].buf, ctx.buf@) by {
                if x != b {
                    assert(before.merged@.contains_key(x));
                    assert(is_prefix(before.merged@[x].buf, before.buf@));
                    assert(ctx.merged@[x] == before.merged@[x]);
                }
            }
            assert forall|x: usize| #[trigger] ctx.merged@.contains_key(x) implies exists|j: int| 0 <= j < i + 1 && order@[j] == x by {
                if x != b {
                    assert(before.merged@.contains_key(x));
                    let j = choose|j: int| 0 <= j < i && order@[j] == x;
                    assert(0 <= j < i + 1 && order@[j] == x);
                } else {
                    assert(order@[i as int] == x);
                }
            }
            assert forall|j: int| 0 <= j < np implies (#[trigger] ctx.buf@[j])@ == Node::Var(params@[j]@) by {
                assert(ctx.buf@[j] == before.buf@[j]);
            }
            assert forall|j: int| 0 <= j < i + 1 implies ctx.block_cond@[#[trigger] order@[j] as int] is Some by {
                if j < i {
                    assert(order@[j] != order@[i as int]);
                    assert(ctx.block_cond@[order@[j] as int] == before.block_cond@[order@[j] as int]);
                }
            }
        }
        i = i + 1;
    }
    match ctx.ret {
        Some(root) => {
            proof {
                assert forall|b: usize| b < n implies #[trigger] ctx.merged@.contains_key(b) && body_spec(
                    ctx.merged@[b],
                    blocks@[b as int],
                    b,
                ) is Ok by {
                    lemma_all_visited(order@, n, b);
                    let j = choose|j: int| 0 <= j < order@.len() && order@[j] == b;
                    assert(ctx.merged@.contains_key(order@[j]));
                }
            }
            Ok(Function { name: function.name.clone(), params: names, body: ctx.buf, root, trace: ctx.merged })
        },
        None => {
            proof {
                assert forall|b: int| 0 <= b < n implies !((#[trigger] blocks@[b]).term is Ret) by {
                    lemma_all_visited(order@, n, b as usize);
                    let j = choose|j: int| 0 <= j < order@.len() && order@[j] == b as usize;
                    assert(!(blocks@[order@[j] as int].term is Ret));
                }
            }
            Err(TranslateError::NoReturn)
        },
    }
}

/// A sequence of `n` distinct values below `n` holds each of them.
proof fn lemma_all_visited(s: Seq<usize>, n: usize, v: usize)
    requires
        s.no_duplicates(),
        s.len() == n,
        forall|i: int| 0 <= i < s.len() ==> s[i] < n,
        v < n,
    ensures
        s.contains(v),
{
    if !s.contains(v) {
        let range = Set::new(|x: usize| x < n);
        crate::cfg::lemma_range_set_len(n);
        s.unique_seq_to_set();
        assert(s.to_set().subset_of(range.remove(v)));
        assert(range.contains(v));
        vstd::set_lib::lemma_len_subset(s.to_set(), range.remove(v));
    }
}

proof fn lemma_all_in_len(s: Seq<usize>, n: usize)
    requires
        s.no_duplicates(),
        forall|v: usize| v < n ==> s.contains(v),
    ensures
        s.len() >= n,
{
    let range = Set::new(|v: usize| v < n);
    assert(range.subset_of(s.to_set()));
    s.unique_seq_to_set();
    crate::cfg::lemma_range_set_len(n);
    vstd::set_lib::lemma_len_subset(range, s.to_set());
}

} // verus!

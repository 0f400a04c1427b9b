//! Complete paths and the single-step transition engine.
//!
//! A path records a walk through the graph together with the symbol stack
//! and the scope stack that result from applying, in order, the transition
//! of every traversed node to the initially empty stacks. A *complete* path
//! starts at a reference, ends at a definition, and finishes with both
//! stacks empty: it witnesses one resolution of that reference.

use vstd::prelude::*;

use crate::cycles::HasPathKey;
use crate::cycles::PathKey;
use crate::graph::Edge;
use crate::graph::NodeKind;
use crate::graph::StackGraph;

verus! {

/// One element of the symbol stack: a symbol, optionally carrying attached
/// scopes saved by a scoped push.
pub struct SymbolStackElem {
    pub symbol: usize,
    pub scopes: Option<Vec<usize>>,
}

/// The mathematical value of a symbol-stack element.
#[verifier::ext_equal]
pub struct ElemV {
    pub symbol: usize,
    pub scopes: Option<Seq<usize>>,
}

/// The value of `e`.
pub open spec fn elem_v(e: SymbolStackElem) -> ElemV {
    ElemV {
        symbol: e.symbol,
        scopes: match e.scopes {
            Some(v) => Some(v@),
            None => None,
        },
    }
}

/// The value of a whole symbol stack, front first.
pub open spec fn sym_view(v: Seq<SymbolStackElem>) -> Seq<ElemV> {
    v.map_values(|e: SymbolStackElem| elem_v(e))
}

/// The stacks of a path at its end node.
#[verifier::ext_equal]
pub struct PathStateV {
    pub end: usize,
    pub sym: Seq<ElemV>,
    pub scopes: Seq<usize>,
}

/// A complete-path candidate: a walk `edges` from `start_node` to
/// `end_node`, and the stacks that hold at the end.
pub struct Path {
    pub start_node: usize,
    pub end_node: usize,
    pub edges: Vec<Edge>,
    pub symbol_stack: Vec<SymbolStackElem>,
    pub scope_stack: Vec<usize>,
}

/// The mathematical value of a path.
#[verifier::ext_equal]
pub struct PathV {
    pub start: usize,
    pub end: usize,
    pub edges: Seq<Edge>,
    pub sym: Seq<ElemV>,
    pub scopes: Seq<usize>,
}

impl Path {
    /// The stacks of this path at its end.
    pub open spec fn state_v(self) -> PathStateV {
        PathStateV { end: self.end_node, sym: sym_view(self.symbol_stack@), scopes: self.scope_stack@ }
    }

    /// The value of this path.
    pub open spec fn view_v(self) -> PathV {
        PathV {
            start: self.start_node,
            end: self.end_node,
            edges: self.edges@,
            sym: sym_view(self.symbol_stack@),
            scopes: self.scope_stack@,
        }
    }

    /// All handles held by this path are valid in `g`.
    pub open spec fn valid(self, g: StackGraph) -> bool {
        state_valid(g, self.state_v()) && self.start_node < g.nodes@.len()
    }
}

/// One symbol-stack element holds only valid handles.
pub open spec fn elem_ok(g: StackGraph, e: ElemV) -> bool {
    &&& e.symbol < g.symbols@.len()
    &&& match e.scopes {
        Some(v) => forall|j: int| 0 <= j < v.len() ==> (#[trigger] v[j]) < g.nodes@.len(),
        None => true,
    }
}

/// The stacks of a state hold only valid handles.
pub open spec fn state_valid(g: StackGraph, st: PathStateV) -> bool {
    &&& st.end < g.nodes@.len()
    &&& forall|i: int| 0 <= i < st.sym.len() ==> elem_ok(g, #[trigger] st.sym[i])
    &&& forall|j: int| 0 <= j < st.scopes.len() ==> (#[trigger] st.scopes[j]) < g.nodes@.len()
}

/// The transition applied on arrival at node `v`: how stepping into `v`
/// transforms the stacks, or `None` when the step is not legal.
pub open spec fn spec_arrive(g: StackGraph, st: PathStateV, v: usize) -> Option<PathStateV> {
    match g.kind_at(v as int) {
        NodeKind::Root => Some(PathStateV { end: v, ..st }),
        NodeKind::JumpToScope => Some(PathStateV { end: v, ..st }),
        NodeKind::InternalScope => Some(PathStateV { end: v, ..st }),
        NodeKind::ExportedScope => Some(PathStateV { end: v, ..st }),
        NodeKind::DropScopes => Some(PathStateV { end: v, sym: st.sym, scopes: Seq::empty() }),
        NodeKind::PushSymbol { symbol } => Some(
            PathStateV {
                end: v,
                sym: seq![ElemV { symbol, scopes: None }] + st.sym,
                scopes: st.scopes,
            },
        ),
        NodeKind::Reference { symbol } => Some(
            PathStateV {
                end: v,
                sym: seq![ElemV { symbol, scopes: None }] + st.sym,
                scopes: st.scopes,
            },
        ),
        NodeKind::PushScopedSymbol { symbol, attached_scope } => Some(
            PathStateV {
                end: v,
                sym: seq![ElemV { symbol, scopes: Some(seq![attached_scope] + st.scopes) }]
                    + st.sym,
                scopes: st.scopes,
            },
        ),
        NodeKind::PopSymbol { symbol } => if st.sym.len() > 0 && st.sym[0].symbol == symbol
            && st.sym[0].scopes is None {
            Some(PathStateV { end: v, sym: st.sym.drop_first(), scopes: st.scopes })
        } else {
            None
        },
        NodeKind::Definition { symbol } => if st.sym.len() > 0 && st.sym[0].symbol == symbol
            && st.sym[0].scopes is None {
            Some(PathStateV { end: v, sym: st.sym.drop_first(), scopes: st.scopes })
        } else {
            None
        },
        NodeKind::PopScopedSymbol { symbol } => if st.sym.len() > 0 && st.sym[0].symbol == symbol
            && st.sym[0].scopes is Some {
            Some(
                PathStateV {
                    end: v,
                    sym: st.sym.drop_first(),
                    scopes: st.sym[0].scopes.unwrap(),
                },
            )
        } else {
            None
        },
    }
}

/// One step along `e` from state `st`: when the step leaves a jump-to-scope
/// node, the scope stack must name `e.sink` on top and is popped; then the
/// arrival transition of `e.sink` applies.
pub open spec fn spec_step(g: StackGraph, st: PathStateV, e: Edge) -> Option<PathStateV> {
    if e.source != st.end {
        None
    } else if g.kind_at(st.end as int) is JumpToScope {
        if st.scopes.len() > 0 && st.scopes[0] == e.sink {
            spec_arrive(g, PathStateV { end: st.end, sym: st.sym, scopes: st.scopes.drop_first() }, e.sink)
        } else {
            None
        }
    } else {
        spec_arrive(g, st, e.sink)
    }
}

/// The stacks that a walk from `start` along `edges` produces, starting
/// from empty stacks and applying the arrival transition of `start` first;
/// `None` when some step is not legal.
pub open spec fn spec_replay(g: StackGraph, start: usize, edges: Seq<Edge>) -> Option<PathStateV>
    decreases edges.len(),
{
    if edges.len() == 0 {
        spec_arrive(g, PathStateV { end: start, sym: Seq::empty(), scopes: Seq::empty() }, start)
    } else {
        match spec_replay(g, start, edges.drop_last()) {
            Some(st) => spec_step(g, st, edges.last()),
            None => None,
        }
    }
}

/// A path is well formed when replaying its edge list from empty stacks
/// reproduces exactly its end node and stacks.
pub open spec fn path_ok(g: StackGraph, p: Path) -> bool {
    spec_replay(g, p.start_node, p.edges@) == Some(p.state_v())
}

/// A complete path: from a reference to a definition, with both stacks
/// empty at the end.
pub open spec fn spec_is_complete(g: StackGraph, p: Path) -> bool {
    &&& g.kind_at(p.start_node as int) is Reference
    &&& g.kind_at(p.end_node as int) is Definition
    &&& p.symbol_stack@.len() == 0
    &&& p.scope_stack@.len() == 0
}

/// Mapping to values distributes over concatenation of symbol stacks.
pub proof fn lemma_sym_view_concat(a: Seq<SymbolStackElem>, b: Seq<SymbolStackElem>)
    ensures
        sym_view(a + b) =~= sym_view(a) + sym_view(b),
{
    assert forall|i: int| 0 <= i < (a + b).len() implies sym_view(a + b)[i] == (sym_view(a)
        + sym_view(b))[i] by {
        if i < a.len() {
            assert((a + b)[i] == a[i]);
        } else {
            assert((a + b)[i] == b[i - a.len()]);
        }
    }
}

/// Copies the scope stack `v` from index `from` on.
#[verifier::loop_isolation(false)]
pub fn copy_scopes_from(v: &Vec<usize>, from: usize) -> (r: Vec<usize>)
    requires
        from <= v@.len(),
    ensures
        r@ == v@.skip(from as int),
{
    let mut r: Vec<usize> = Vec::new();
    let mut i: usize = from;
    while i < v.len()
        invariant
            from <= i <= v@.len(),
            r@ =~= v@.subrange(from as int, i as int),
        decreases v@.len() - i,
    {
        r.push(v[i]);
        i = i + 1;
    }
    proof {
        assert(r@ =~= v@.skip(from as int));
    }
    r
}

/// Copies one symbol-stack element.
pub fn copy_elem(e: &SymbolStackElem) -> (r: SymbolStackElem)
    ensures
        elem_v(r) == elem_v(*e),
{
    let scopes = match &e.scopes {
        Some(v) => Some(copy_scopes_from(v, 0)),
        None => None,
    };
    proof {
        if e.scopes is Some {
            assert(e.scopes.unwrap()@.skip(0) =~= e.scopes.unwrap()@);
        }
    }
    SymbolStackElem { symbol: e.symbol, scopes }
}

/// Copies the symbol stack `v` from index `from` on.
#[verifier::loop_isolation(false)]
pub fn copy_sym_from(v: &Vec<SymbolStackElem>, from: usize) -> (r: Vec<SymbolStackElem>)
    requires
        from <= v@.len(),
    ensures
        sym_view(r@) == sym_view(v@).skip(from as int),
{
    let mut r: Vec<SymbolStackElem> = Vec::new();
    let mut i: usize = from;
    while i < v.len()
        invariant
            from <= i <= v@.len(),
            sym_view(r@) =~= sym_view(v@).subrange(from as int, i as int),
        decreases v@.len() - i,
    {
        r.push(copy_elem(&v[i]));
        proof {
            assert(sym_view(r@) =~= sym_view(v@).subrange(from as int, i + 1));
        }
        i = i + 1;
    }
    proof {
        assert(sym_view(r@) =~= sym_view(v@).skip(from as int));
    }
    r
}

/// Copies an edge list.
#[verifier::loop_isolation(false)]
pub fn copy_edges(v: &Vec<Edge>) -> (r: Vec<Edge>)
    ensures
        r@ == v@,
{
    let mut r: Vec<Edge> = Vec::new();
    let mut i: usize = 0;
    while i < v.len()
        invariant
            0 <= i <= v@.len(),
            r@ =~= v@.take(i as int),
        decreases v@.len() - i,
    {
        r.push(v[i]);
        i = i + 1;
    }
    proof {
        assert(r@ =~= v@);
    }
    r
}

impl Path {
    /// Copies this path; the copy has the same value.
    pub fn duplicate_path(&self) -> (r: Path)
        ensures
            r.view_v() == self.view_v(),
            r.start_node == self.start_node,
            r.end_node == self.end_node,
            r.edges@ == self.edges@,
            sym_view(r.symbol_stack@) == sym_view(self.symbol_stack@),
            r.scope_stack@ == self.scope_stack@,
    {
        let r = Path {
            start_node: self.start_node,
            end_node: self.end_node,
            edges: copy_edges(&self.edges),
            symbol_stack: copy_sym_from(&self.symbol_stack, 0),
            scope_stack: copy_scopes_from(&self.scope_stack, 0),
        };
        proof {
            assert(sym_view(self.symbol_stack@).skip(0) =~= sym_view(self.symbol_stack@));
            assert(self.scope_stack@.skip(0) =~= self.scope_stack@);
        }
        r
    }

    /// The empty-edge path seeded at reference `r`: its symbol stack holds
    /// the reference's own symbol and its scope stack is empty.
    pub fn from_reference(g: &StackGraph, node: usize) -> (p: Path)
        requires
            g.wf(),
            node < g.nodes@.len(),
            g.kind_at(node as int) is Reference,
        ensures
            p.start_node == node,
            p.end_node == node,
            p.edges@.len() == 0,
            path_ok(*g, p),
            p.valid(*g),
            p.view_v() == seed_v(*g, node),
    {
        let symbol = match g.nodes[node].kind {
            NodeKind::Reference { symbol } => symbol,
            _ => 0,
        };
        let mut symbol_stack: Vec<SymbolStackElem> = Vec::new();
        symbol_stack.push(SymbolStackElem { symbol, scopes: None });
        let p = Path {
            start_node: node,
            end_node: node,
            edges: Vec::new(),
            symbol_stack,
            scope_stack: Vec::new(),
        };
        proof {
            assert(sym_view(p.symbol_stack@) =~= seq![ElemV { symbol, scopes: None }]
                + Seq::<ElemV>::empty());
            assert(p.edges@.len() == 0);
            assert(spec_replay(*g, node, p.edges@) == Some(p.state_v()));
            assert(p.view_v() =~~= seed_v(*g, node));
        }
        p
    }

    /// Whether this path is complete.
    pub fn is_complete(&self, g: &StackGraph) -> (r: bool)
        requires
            g.wf(),
            self.valid(*g),
        ensures
            r == spec_is_complete(*g, *self),
    {
        let start_ref = match g.nodes[self.start_node].kind {
            NodeKind::Reference { .. } => true,
            _ => false,
        };
        let end_def = match g.nodes[self.end_node].kind {
            NodeKind::Definition { .. } => true,
            _ => false,
        };
        start_ref && end_def && self.symbol_stack.len() == 0 && self.scope_stack.len() == 0
    }

    /// The endpoint signature of this path. A complete-path key has no
    /// start heads; the end heads are the heads of the current stacks.
    pub open spec fn key_spec(self) -> PathKey {
        PathKey {
            start_node: self.start_node,
            start_symbol_stack_head: None,
            start_scope_stack_head: None,
            end_node: self.end_node,
            end_symbol_stack_head: if self.symbol_stack@.len() > 0 {
                Some(self.symbol_stack@[0].symbol)
            } else {
                None
            },
            end_scope_stack_head: if self.scope_stack@.len() > 0 {
                Some(self.scope_stack@[0])
            } else {
                None
            },
        }
    }

    /// Computes the endpoint signature of this path.
    pub fn path_key(&self) -> (r: PathKey)
        ensures
            r == self.key_spec(),
    {
        let end_symbol_stack_head = if self.symbol_stack.len() > 0 {
            Some(self.symbol_stack[0].symbol)
        } else {
            None
        };
        let end_scope_stack_head = if self.scope_stack.len() > 0 {
            Some(self.scope_stack[0])
        } else {
            None
        };
        PathKey {
            start_node: self.start_node,
            start_symbol_stack_head: None,
            start_scope_stack_head: None,
            end_node: self.end_node,
            end_symbol_stack_head,
            end_scope_stack_head,
        }
    }
}

/// Compares two scope stacks.
#[verifier::loop_isolation(false)]
pub fn eq_scopes(a: &Vec<usize>, b: &Vec<usize>) -> (r: bool)
    ensures
        r == (a@ == b@),
{
    if a.len() != b.len() {
        proof {
            assert(a@ != b@);
        }
        return false;
    }
    let mut i: usize = 0;
    while i < a.len()
        invariant
            a@.len() == b@.len(),
            0 <= i <= a@.len(),
            forall|j: int| 0 <= j < i ==> a@[j] == b@[j],
        decreases a@.len() - i,
    {
        if a[i] != b[i] {
            return false;
        }
        i = i + 1;
    }
    proof {
        assert(a@ =~= b@);
    }
    true
}

/// Compares two symbol stacks by value.
#[verifier::loop_isolation(false)]
pub fn eq_sym_stacks(a: &Vec<SymbolStackElem>, b: &Vec<SymbolStackElem>) -> (r: bool)
    ensures
        r == (sym_view(a@) == sym_view(b@)),
{
    if a.len() != b.len() {
        proof {
            assert(sym_view(a@).len() != sym_view(b@).len());
        }
        return false;
    }
    let mut i: usize = 0;
    while i < a.len()
        invariant
            a@.len() == b@.len(),
            0 <= i <= a@.len(),
            forall|j: int| 0 <= j < i ==> elem_v(a@[j]) == elem_v(b@[j]),
        decreases a@.len() - i,
    {
        let x = &a[i];
        let y = &b[i];
        if x.symbol != y.symbol {
            proof {
                assert(elem_v(a@[i as int]) != elem_v(b@[i as int]));
                assert(sym_view(a@)[i as int] != sym_view(b@)[i as int]);
            }
            return false;
        }
        let scopes_equal = match (&x.scopes, &y.scopes) {
            (None, None) => true,
            (Some(xs), Some(ys)) => eq_scopes(xs, ys),
            _ => false,
        };
        if !scopes_equal {
            proof {
                assert(elem_v(a@[i as int]) != elem_v(b@[i as int]));
                assert(sym_view(a@)[i as int] != sym_view(b@)[i as int]);
            }
            return false;
        }
        proof {
            assert(elem_v(a@[i as int]) == elem_v(b@[i as int]));
        }
        i = i + 1;
    }
    proof {
        assert(sym_view(a@) =~= sym_view(b@));
    }
    true
}

/// Compares two edge lists.
#[verifier::loop_isolation(false)]
pub fn eq_edges(a: &Vec<Edge>, b: &Vec<Edge>) -> (r: bool)
    ensures
        r == (a@ == b@),
{
    if a.len() != b.len() {
        proof {
            assert(a@ != b@);
        }
        return false;
    }
    let mut i: usize = 0;
    while i < a.len()
        invariant
            a@.len() == b@.len(),
            0 <= i <= a@.len(),
            forall|j: int| 0 <= j < i ==> a@[j] == b@[j],
        decreases a@.len() - i,
    {
        if !(a[i] == b[i]) {
            return false;
        }
        i = i + 1;
    }
    proof {
        assert(a@ =~= b@);
    }
    true
}

impl HasPathKey for Path {
    type V = PathV;

    open spec fn v(&self) -> PathV {
        self.view_v()
    }

    /// A path is strictly shorter when it has fewer edges and its symbol
    /// stack is no longer.
    open spec fn shorter_spec(&self, other: &Self) -> bool {
        self.edges@.len() < other.edges@.len() && self.symbol_stack@.len()
            <= other.symbol_stack@.len()
    }

    fn is_shorter_than(&self, other: &Self) -> (r: bool) {
        self.edges.len() < other.edges.len() && self.symbol_stack.len()
            <= other.symbol_stack.len()
    }

    fn same_path(&self, other: &Self) -> (r: bool) {
        let r = self.start_node == other.start_node && self.end_node == other.end_node
            && eq_edges(&self.edges, &other.edges) && eq_sym_stacks(
            &self.symbol_stack,
            &other.symbol_stack,
        ) && eq_scopes(&self.scope_stack, &other.scope_stack);
        proof {
            if r {
                assert(self.view_v() == other.view_v());
            } else {
                assert(self.view_v() != other.view_v());
            }
        }
        r
    }

    fn duplicate(&self) -> (r: Self) {
        self.duplicate_path()
    }
}

/// Extends `p` by one step along `e`, applying the transition of `e.sink`,
/// or returns `None` when the step is not legal. A pure function of its
/// arguments: equal inputs give equal outputs.
#[verifier::loop_isolation(false)]
pub fn extend(g: &StackGraph, p: &Path, e: Edge) -> (r: Option<Path>)
    requires
        g.wf(),
        p.valid(*g),
        e.source == p.end_node,
        e.sink < g.nodes@.len(),
    ensures
        r is Some <==> spec_step(*g, p.state_v(), e) is Some,
        r is Some ==> {
            let q = r.unwrap();
            &&& q.start_node == p.start_node
            &&& q.edges@ == p.edges@.push(e)
            &&& Some(q.state_v()) == spec_step(*g, p.state_v(), e)
            &&& q.view_v() == ext_view(*g, *p, e)
            &&& q.valid(*g)
        },
{
    // leaving a jump-to-scope node consumes the top of the scope stack,
    // which must name the edge's sink
    let from_jump = match g.nodes[p.end_node].kind {
        NodeKind::JumpToScope => true,
        _ => false,
    };
    let mut scopes: Vec<usize>;
    if from_jump {
        if p.scope_stack.len() == 0 {
            return None;
        }
        if p.scope_stack[0] != e.sink {
            return None;
        }
        scopes = copy_scopes_from(&p.scope_stack, 1);
    } else {
        scopes = copy_scopes_from(&p.scope_stack, 0);
        proof {
            assert(p.scope_stack@.skip(0) =~= p.scope_stack@);
        }
    }
    let ghost mid = PathStateV {
        end: p.end_node,
        sym: sym_view(p.symbol_stack@),
        scopes: scopes@,
    };
    proof {
        assert(spec_step(*g, p.state_v(), e) == spec_arrive(*g, mid, e.sink));
    }
    let mut sym: Vec<SymbolStackElem>;
    match g.nodes[e.sink].kind {
        NodeKind::Root | NodeKind::JumpToScope | NodeKind::InternalScope
            | NodeKind::ExportedScope => {
            sym = copy_sym_from(&p.symbol_stack, 0);
            proof {
                assert(sym_view(p.symbol_stack@).skip(0) =~= sym_view(p.symbol_stack@));
            }
        },
        NodeKind::DropScopes => {
            sym = copy_sym_from(&p.symbol_stack, 0);
            scopes = Vec::new();
            proof {
                assert(sym_view(p.symbol_stack@).skip(0) =~= sym_view(p.symbol_stack@));
            }
        },
        NodeKind::PushSymbol { symbol } | NodeKind::Reference { symbol } => {
            sym = Vec::new();
            sym.push(SymbolStackElem { symbol, scopes: None });
            let mut rest = copy_sym_from(&p.symbol_stack, 0);
            let ghost rest0 = rest@;
            sym.append(&mut rest);
            proof {
                assert(sym_view(p.symbol_stack@).skip(0) =~= sym_view(p.symbol_stack@));
                assert(sym@ =~= seq![SymbolStackElem { symbol, scopes: None }] + rest0);
                lemma_sym_view_concat(seq![SymbolStackElem { symbol, scopes: None }], rest0);
                assert(sym_view(seq![SymbolStackElem { symbol, scopes: None }]) =~= seq![
                    ElemV { symbol, scopes: None },
                ]);
                assert(sym_view(sym@) =~= seq![ElemV { symbol, scopes: None }] + sym_view(
                    p.symbol_stack@,
                ));
            }
        },
        NodeKind::PushScopedSymbol { symbol, attached_scope } => {
            let mut attached: Vec<usize> = Vec::new();
            attached.push(attached_scope);
            let mut rest_scopes = copy_scopes_from(&scopes, 0);
            let ghost rs0 = rest_scopes@;
            attached.append(&mut rest_scopes);
            proof {
                assert(scopes@.skip(0) =~= scopes@);
                assert(rs0 =~= scopes@);
                assert(attached@ =~= seq![attached_scope] + mid.scopes);
            }
            let ghost att_elem = SymbolStackElem { symbol, scopes: Some(attached) };
            sym = Vec::new();
            sym.push(SymbolStackElem { symbol, scopes: Some(attached) });
            let mut rest = copy_sym_from(&p.symbol_stack, 0);
            let ghost rest0 = rest@;
            sym.append(&mut rest);
            proof {
                assert(sym_view(p.symbol_stack@).skip(0) =~= sym_view(p.symbol_stack@));
                assert(sym@ =~= seq![att_elem] + rest0);
                lemma_sym_view_concat(seq![att_elem], rest0);
                assert(sym_view(seq![att_elem]) =~= seq![elem_v(att_elem)]);
                assert(elem_v(att_elem) == ElemV {
                    symbol,
                    scopes: Some(seq![attached_scope] + mid.scopes),
                });
                assert(sym_view(sym@) =~= seq![
                    ElemV { symbol, scopes: Some(seq![attached_scope] + mid.scopes) },
                ] + sym_view(p.symbol_stack@));
            }
        },
        NodeKind::PopSymbol { symbol } | NodeKind::Definition { symbol } => {
            if p.symbol_stack.len() == 0 {
                return None;
            }
            let head = &p.symbol_stack[0];
            if head.symbol != symbol {
                return None;
            }
            if head.scopes.is_some() {
                return None;
            }
            sym = copy_sym_from(&p.symbol_stack, 1);
            proof {
                assert(sym_view(p.symbol_stack@).skip(1) =~= sym_view(
                    p.symbol_stack@,
                ).drop_first());
            }
        },
        NodeKind::PopScopedSymbol { symbol } => {
            if p.symbol_stack.len() == 0 {
                return None;
            }
            let head = &p.symbol_stack[0];
            if head.symbol != symbol {
                return None;
            }
            match &head.scopes {
                Some(att) => {
                    scopes = copy_scopes_from(att, 0);
                    proof {
                        assert(att@.skip(0) =~= att@);
                    }
                },
                None => {
                    return None;
                },
            }
            sym = copy_sym_from(&p.symbol_stack, 1);
            proof {
                assert(sym_view(p.symbol_stack@).skip(1) =~= sym_view(
                    p.symbol_stack@,
                ).drop_first());
            }
        },
    }
    let mut edges = copy_edges(&p.edges);
    edges.push(e);
    let q = Path {
        start_node: p.start_node,
        end_node: e.sink,
        edges,
        symbol_stack: sym,
        scope_stack: scopes,
    };
    proof {
        assert(Some(q.state_v()) == spec_step(*g, p.state_v(), e));
        assert(q.view_v() =~~= ext_view(*g, *p, e));
    }
    Some(q)
}

/// The endpoint signature of a path value.
pub open spec fn key_of_v(pv: PathV) -> PathKey {
    PathKey {
        start_node: pv.start,
        start_symbol_stack_head: None,
        start_scope_stack_head: None,
        end_node: pv.end,
        end_symbol_stack_head: if pv.sym.len() > 0 {
            Some(pv.sym[0].symbol)
        } else {
            None
        },
        end_scope_stack_head: if pv.scopes.len() > 0 {
            Some(pv.scopes[0])
        } else {
            None
        },
    }
}

/// The "strictly shorter" relation of complete paths, over values: fewer
/// edges and a symbol stack that is no longer.
pub open spec fn shorter_v(a: PathV, b: PathV) -> bool {
    a.edges.len() < b.edges.len() && a.sym.len() <= b.sym.len()
}

/// The values in `s` whose endpoint signature is `key`, in order.
pub open spec fn with_key_v(s: Seq<PathV>, key: PathKey) -> Seq<PathV>
    decreases s.len(),
{
    if s.len() == 0 {
        Seq::empty()
    } else if key_of_v(s[0]) == key {
        seq![s[0]] + with_key_v(s.drop_first(), key)
    } else {
        with_key_v(s.drop_first(), key)
    }
}

/// How many values in `s` are strictly shorter than `pv`.
pub open spec fn count_shorter_v(s: Seq<PathV>, pv: PathV) -> int
    decreases s.len(),
{
    if s.len() == 0 {
        0int
    } else {
        (if shorter_v(s[0], pv) {
            1int
        } else {
            0int
        }) + count_shorter_v(s.drop_first(), pv)
    }
}

/// Whether `pv` occurs in `s`.
pub open spec fn has_same_v(s: Seq<PathV>, pv: PathV) -> bool {
    exists|i: int| 0 <= i < s.len() && s[i] == pv
}

/// The value of the empty-edge path seeded at reference `n`.
pub open spec fn seed_v(g: StackGraph, n: usize) -> PathV {
    let symbol = match g.kind_at(n as int) {
        NodeKind::Reference { symbol } => symbol,
        _ => 0,
    };
    PathV {
        start: n,
        end: n,
        edges: Seq::empty(),
        sym: seq![ElemV { symbol, scopes: None }],
        scopes: Seq::empty(),
    }
}

/// The value of `p` extended along `e`, when the step is legal.
pub open spec fn ext_view(g: StackGraph, p: Path, e: Edge) -> PathV {
    let st = spec_step(g, p.state_v(), e).unwrap();
    PathV { start: p.start_node, end: st.end, edges: p.edges@.push(e), sym: st.sym, scopes: st.scopes }
}

/// The jump a path whose end is a jump-to-scope node can take: to the top
/// of its scope stack.
pub open spec fn jump_edge(p: Path) -> Edge {
    Edge { source: p.end_node, sink: p.scope_stack@[0], precedence: 0 }
}

/// A candidate of this value was either emitted (an equal value is among
/// the emitted ones) or refused by the cycle detector: more than
/// [`MAX_SIMILAR_PATH_COUNT`](crate::cycles::MAX_SIMILAR_PATH_COUNT)
/// emitted values under its endpoint signature are strictly shorter.
pub open spec fn emitted_or_refused(vs: Seq<PathV>, pv: PathV) -> bool {
    has_same_v(vs, pv) || count_shorter_v(with_key_v(vs, key_of_v(pv)), pv)
        > crate::cycles::MAX_SIMILAR_PATH_COUNT
}

/// Every legal one-step extension of `p` is accounted for against the
/// emitted values `vs`: it was emitted, or the detector refused it.
pub open spec fn extensions_covered(g: StackGraph, vs: Seq<PathV>, p: Path) -> bool {
    if g.kind_at(p.end_node as int) is JumpToScope {
        (p.scope_stack@.len() > 0 && spec_step(g, p.state_v(), jump_edge(p)) is Some)
            ==> emitted_or_refused(vs, ext_view(g, p, jump_edge(p)))
    } else {
        forall|ei: int|
            0 <= ei < g.out_edges(p.end_node as int).len() && spec_step(
                g,
                p.state_v(),
                #[trigger] g.out_edges(p.end_node as int)[ei],
            ) is Some ==> emitted_or_refused(vs, ext_view(g, p, g.out_edges(p.end_node as int)[ei]))
    }
}

/// Every legal one-step extension of `p` has a path of its value in `qs`.
pub open spec fn extensions_queued(g: StackGraph, qs: Seq<Path>, p: Path) -> bool {
    if g.kind_at(p.end_node as int) is JumpToScope {
        (p.scope_stack@.len() > 0 && spec_step(g, p.state_v(), jump_edge(p)) is Some)
            ==> queued_value(qs, ext_view(g, p, jump_edge(p)))
    } else {
        forall|ei: int|
            0 <= ei < g.out_edges(p.end_node as int).len() && spec_step(
                g,
                p.state_v(),
                #[trigger] g.out_edges(p.end_node as int)[ei],
            ) is Some ==> queued_value(qs, ext_view(g, p, g.out_edges(p.end_node as int)[ei]))
    }
}

/// Whether some path in `qs` has the value `pv`.
pub open spec fn queued_value(qs: Seq<Path>, pv: PathV) -> bool {
    exists|m: int| 0 <= m < qs.len() && (#[trigger] qs[m]).view_v() == pv
}

/// Growing the worklist keeps every queued-extension witness.
proof fn lemma_ext_queued_push(g: StackGraph, qs: Seq<Path>, x: Path, p: Path)
    requires
        extensions_queued(g, qs, p),
    ensures
        extensions_queued(g, qs.push(x), p),
{
    if g.kind_at(p.end_node as int) is JumpToScope {
        if p.scope_stack@.len() > 0 && spec_step(g, p.state_v(), jump_edge(p)) is Some {
            let w = ext_view(g, p, jump_edge(p));
            let m = choose|m: int| 0 <= m < qs.len() && (#[trigger] qs[m]).view_v() == w;
            assert(qs.push(x)[m] == qs[m]);
        }
    } else {
        assert forall|ei: int|
            0 <= ei < g.out_edges(p.end_node as int).len() && spec_step(
                g,
                p.state_v(),
                #[trigger] g.out_edges(p.end_node as int)[ei],
            ) is Some implies queued_value(
            qs.push(x),
            ext_view(g, p, g.out_edges(p.end_node as int)[ei]),
        ) by {
            let w = ext_view(g, p, g.out_edges(p.end_node as int)[ei]);
            assert(queued_value(qs, w));
            let m = choose|m: int| 0 <= m < qs.len() && (#[trigger] qs[m]).view_v() == w;
            assert(qs.push(x)[m] == qs[m]);
        }
    }
}

/// A path's endpoint signature is a function of its value.
proof fn lemma_key_agrees(p: Path)
    ensures
        p.key_spec() == key_of_v(p.view_v()),
{
    if p.symbol_stack@.len() > 0 {
        assert(p.view_v().sym[0] == elem_v(p.symbol_stack@[0]));
    }
}

/// Over sequences that agree in values, the detector's equality and
/// shorter-count agree with their value-level forms.
proof fn lemma_views_agree(s: Seq<Path>, t: Seq<PathV>, p: Path)
    requires
        s.len() == t.len(),
        forall|i: int| 0 <= i < s.len() ==> (#[trigger] s[i]).view_v() == t[i],
    ensures
        crate::cycles::has_same(s, p) == has_same_v(t, p.view_v()),
        crate::cycles::count_shorter(s, p) == count_shorter_v(t, p.view_v()),
    decreases s.len(),
{
    if s.len() > 0 {
        lemma_views_agree(s.drop_first(), t.drop_first(), p);
        assert(s[0].view_v() == t[0]);
        assert(s[0].v() == s[0].view_v());
        assert(sym_view(s[0].symbol_stack@).len() == s[0].symbol_stack@.len());
        assert(sym_view(p.symbol_stack@).len() == p.symbol_stack@.len());
        assert(s[0].shorter_spec(&p) == shorter_v(t[0], p.view_v()));
        if crate::cycles::has_same(s, p) {
            let i = choose|i: int| 0 <= i < s.len() && (#[trigger] s[i]).v() == p.v();
            assert(t[i] == p.view_v());
        }
        if has_same_v(t, p.view_v()) {
            let i = choose|i: int| 0 <= i < t.len() && t[i] == p.view_v();
            assert(s[i].v() == p.v());
        }
    }
}

/// Appending a value extends exactly the bucket of its own signature.
proof fn lemma_with_key_push(s: Seq<PathV>, key: PathKey, x: PathV)
    ensures
        key_of_v(x) == key ==> with_key_v(s.push(x), key) =~= with_key_v(s, key).push(x),
        key_of_v(x) != key ==> with_key_v(s.push(x), key) =~= with_key_v(s, key),
    decreases s.len(),
{
    if s.len() == 0 {
        assert(s.push(x).drop_first() =~= Seq::<PathV>::empty());
        assert(s.push(x)[0] == x);
        assert(with_key_v(Seq::<PathV>::empty(), key) =~= Seq::<PathV>::empty());
        assert(with_key_v(s, key) =~= Seq::<PathV>::empty());
        if key_of_v(x) == key {
            assert(with_key_v(s.push(x), key) =~= seq![x]);
            assert(with_key_v(s, key).push(x) =~= seq![x]);
        } else {
            assert(with_key_v(s.push(x), key) =~= Seq::<PathV>::empty());
        }
    } else {
        lemma_with_key_push(s.drop_first(), key, x);
        assert(s.push(x).drop_first() =~= s.drop_first().push(x));
        assert(s.push(x)[0] == s[0]);
        if key_of_v(s[0]) == key {
            assert(with_key_v(s.push(x), key) =~= seq![s[0]] + with_key_v(
                s.drop_first().push(x),
                key,
            ));
            if key_of_v(x) == key {
                assert(with_key_v(s.push(x), key) =~= seq![s[0]] + with_key_v(
                    s.drop_first(),
                    key,
                ).push(x));
                assert(seq![s[0]] + with_key_v(s.drop_first(), key).push(x) =~= (seq![s[0]]
                    + with_key_v(s.drop_first(), key)).push(x));
            } else {
                assert(with_key_v(s.push(x), key) =~= seq![s[0]] + with_key_v(
                    s.drop_first(),
                    key,
                ));
            }
        } else {
            assert(with_key_v(s.push(x), key) == with_key_v(s.drop_first().push(x), key));
            assert(with_key_v(s, key) == with_key_v(s.drop_first(), key));
        }
    }
}

/// A value found in one signature's bucket is found in the whole sequence.
proof fn lemma_with_key_member(s: Seq<PathV>, key: PathKey, pv: PathV)
    requires
        has_same_v(with_key_v(s, key), pv),
    ensures
        has_same_v(s, pv),
    decreases s.len(),
{
    if s.len() > 0 {
        if key_of_v(s[0]) == key {
            let t = with_key_v(s, key);
            let i = choose|i: int| 0 <= i < t.len() && t[i] == pv;
            if i == 0 {
                assert(s[0] == pv);
            } else {
                assert(t =~= seq![s[0]] + with_key_v(s.drop_first(), key));
                assert(with_key_v(s.drop_first(), key)[i - 1] == pv);
                assert(has_same_v(with_key_v(s.drop_first(), key), pv));
                lemma_with_key_member(s.drop_first(), key, pv);
                let j = choose|j: int|
                    0 <= j < s.drop_first().len() && (#[trigger] s.drop_first()[j]) == pv;
                assert(s[j + 1] == pv);
            }
        } else {
            assert(with_key_v(s, key) == with_key_v(s.drop_first(), key));
            lemma_with_key_member(s.drop_first(), key, pv);
            let j = choose|j: int|
                0 <= j < s.drop_first().len() && (#[trigger] s.drop_first()[j]) == pv;
            assert(s[j + 1] == pv);
        }
    }
}

/// Appending one value adds its indicator to the shorter-count.
proof fn lemma_count_v_push(t: Seq<PathV>, x: PathV, pv: PathV)
    ensures
        count_shorter_v(t.push(x), pv) == count_shorter_v(t, pv) + if shorter_v(x, pv) {
            1int
        } else {
            0int
        },
    decreases t.len(),
{
    if t.len() == 0 {
        assert(t.push(x).drop_first() =~= Seq::<PathV>::empty());
        assert(t.push(x)[0] == x);
        assert(count_shorter_v(Seq::<PathV>::empty(), pv) == 0);
        assert(count_shorter_v(t, pv) == 0);
    } else {
        lemma_count_v_push(t.drop_first(), x, pv);
        assert(t.push(x).drop_first() =~= t.drop_first().push(x));
        assert(t.push(x)[0] == t[0]);
        assert(count_shorter_v(t.drop_first().push(x), pv) == count_shorter_v(
            t.drop_first(),
            pv,
        ) + if shorter_v(x, pv) {
            1int
        } else {
            0int
        });
    }
}

/// Nothing is strictly shorter than an empty-edge value.
proof fn lemma_count_v_none(t: Seq<PathV>, pv: PathV)
    requires
        pv.edges.len() == 0,
    ensures
        count_shorter_v(t, pv) == 0,
    decreases t.len(),
{
    if t.len() > 0 {
        lemma_count_v_none(t.drop_first(), pv);
    }
}

/// The values of a sequence of paths, in order.
pub open spec fn views_of(s: Seq<Path>) -> Seq<PathV> {
    s.map_values(|p: Path| p.view_v())
}

/// The values of the paths a detector has admitted under `key`.
pub open spec fn stored_views(d: crate::cycles::CycleDetector<Path>, key: PathKey) -> Seq<PathV> {
    d.stored(key).map_values(|p: Path| p.view_v())
}

/// Every path this search hands back is well formed: its edges are a
/// connected walk from its start node, and its stacks are what replaying
/// the walk from empty stacks produces.
pub open spec fn results_ok(g: StackGraph, starts: Seq<usize>, rs: Seq<Path>) -> bool {
    forall|i: int|
        0 <= i < rs.len() ==> {
            &&& path_ok(g, #[trigger] rs[i])
            &&& rs[i].valid(g)
            &&& starts.contains(rs[i].start_node)
            &&& g.kind_at(rs[i].start_node as int) is Reference
        }
}

/// Finds paths from the given reference nodes: seeds one empty path per
/// reference and repeatedly extends, breadth first, every admitted path
/// along the out-edges of its end node (or the jump its scope stack names),
/// asking the cycle detector before processing each path. Every processed
/// path is returned, the complete ones among them being the resolutions.
/// `limit` bounds the number of paths processed; the second component of
/// the result says whether the search ran to exhaustion within it. The
/// contract pins the enumeration: every seed is emitted, each emission is
/// new and within the detector's similarity cap for its endpoint
/// signature, and, when the search completed, every legal extension of an
/// emitted path was itself emitted or refused by the cap.
#[verifier::loop_isolation(false)]
#[verifier::rlimit(100)]
pub fn find_all_paths(g: &StackGraph, starts: &Vec<usize>, limit: usize) -> (r: (Vec<Path>, bool))
    requires
        g.wf(),
        forall|i: int|
            0 <= i < starts@.len() ==> (#[trigger] starts@[i]) < g.nodes@.len() && g.kind_at(
                starts@[i] as int,
            ) is Reference,
    ensures
        results_ok(*g, starts@, r.0@),
        forall|j: int|
            0 <= j < r.0@.len() ==> !has_same_v(
                with_key_v(views_of(r.0@).take(j), key_of_v(views_of(r.0@)[j])),
                #[trigger] views_of(r.0@)[j],
            ),
        forall|j: int|
            0 <= j < r.0@.len() ==> count_shorter_v(
                with_key_v(views_of(r.0@).take(j), key_of_v(views_of(r.0@)[j])),
                #[trigger] views_of(r.0@)[j],
            ) <= crate::cycles::MAX_SIMILAR_PATH_COUNT,
        forall|i2: int|
            0 <= i2 < starts@.len() && i2 < limit ==> has_same_v(
                views_of(r.0@),
                seed_v(*g, #[trigger] starts@[i2]),
            ),
        r.1 ==> forall|i2: int|
            0 <= i2 < starts@.len() ==> has_same_v(
                views_of(r.0@),
                seed_v(*g, #[trigger] starts@[i2]),
            ),
        r.1 ==> forall|j: int|
            0 <= j < r.0@.len() ==> extensions_covered(*g, views_of(r.0@), #[trigger] r.0@[j]),
{
    let mut queue: Vec<Path> = Vec::new();
    let mut k: usize = 0;
    while k < starts.len()
        invariant
            0 <= k <= starts@.len(),
            queue@.len() == k,
            forall|i: int|
                0 <= i < queue@.len() ==> {
                    &&& path_ok(*g, #[trigger] queue@[i])
                    &&& queue@[i].valid(*g)
                    &&& starts@.contains(queue@[i].start_node)
                    &&& g.kind_at(queue@[i].start_node as int) is Reference
                },
            forall|i: int|
                0 <= i < k ==> (#[trigger] queue@[i]).view_v() == seed_v(*g, starts@[i]),
        decreases starts@.len() - k,
    {
        let node = starts[k];
        let p = Path::from_reference(g, node);
        proof {
            assert(starts@.contains(p.start_node));
        }
        queue.push(p);
        k = k + 1;
    }
    let mut detector: crate::cycles::CycleDetector<Path> = crate::cycles::CycleDetector::new();
    let mut results: Vec<Path> = Vec::new();
    let mut i: usize = 0;
    let mut fuel: usize = limit;
    proof {
        assert(views_of(results@) =~= Seq::<PathV>::empty());
        assert forall|key: PathKey| #[trigger] stored_views(detector, key) =~= with_key_v(
            views_of(results@),
            key,
        ) by {
            assert(detector.stored(key).len() == 0);
        }
    }
    while i < queue.len() && fuel > 0
        invariant
            0 <= i <= queue@.len(),
            starts@.len() <= queue@.len(),
            forall|j: int|
                0 <= j < queue@.len() ==> {
                    &&& path_ok(*g, #[trigger] queue@[j])
                    &&& queue@[j].valid(*g)
                    &&& starts@.contains(queue@[j].start_node)
                    &&& g.kind_at(queue@[j].start_node as int) is Reference
                },
            forall|j: int|
                0 <= j < starts@.len() ==> (#[trigger] queue@[j]).view_v() == seed_v(
                    *g,
                    starts@[j],
                ),
            results_ok(*g, starts@, results@),
            forall|key: PathKey| #[trigger] stored_views(detector, key) == with_key_v(
                views_of(results@),
                key,
            ),
            forall|j: int|
                0 <= j < results@.len() ==> !has_same_v(
                    with_key_v(views_of(results@).take(j), key_of_v(views_of(results@)[j])),
                    #[trigger] views_of(results@)[j],
                ),
            forall|j: int|
                0 <= j < results@.len() ==> count_shorter_v(
                    with_key_v(views_of(results@).take(j), key_of_v(views_of(results@)[j])),
                    #[trigger] views_of(results@)[j],
                ) <= crate::cycles::MAX_SIMILAR_PATH_COUNT,
            i + fuel == limit,
            forall|i2: int|
                0 <= i2 < i && i2 < starts@.len() ==> has_same_v(
                    views_of(results@),
                    seed_v(*g, #[trigger] starts@[i2]),
                ),
            forall|kk: int|
                0 <= kk < i ==> emitted_or_refused(
                    views_of(results@),
                    (#[trigger] queue@[kk]).view_v(),
                ),
            forall|j: int|
                0 <= j < results@.len() ==> extensions_queued(*g, queue@, #[trigger] results@[j]),
        decreases fuel,
    {
        fuel = fuel - 1;
        let ghost vs0 = views_of(results@);
        let p = queue[i].duplicate_path();
        proof {
            assert(p.state_v() == queue@[i as int].state_v());
            assert(path_ok(*g, p));
            assert(p.valid(*g));
            assert(p.view_v() == queue@[i as int].view_v());
        }
        i = i + 1;
        let key = p.path_key();
        proof {
            lemma_key_agrees(p);
        }
        let ghost det0 = detector;
        let ghost bucket = detector.stored(key);
        proof {
            assert(stored_views(detector, key) == with_key_v(vs0, key));
            assert forall|bi: int| 0 <= bi < bucket.len() implies (#[trigger] bucket[bi]).view_v()
                == with_key_v(vs0, key)[bi] by {
                assert(stored_views(detector, key)[bi] == bucket[bi].view_v());
            }
            lemma_views_agree(bucket, with_key_v(vs0, key), p);
        }
        if !detector.should_process_path(key, &p) {
            proof {
                // refused: an equal value was emitted, or the cap is hit
                if crate::cycles::has_same(bucket, p) {
                    lemma_with_key_member(vs0, key, p.view_v());
                }
                assert(emitted_or_refused(vs0, p.view_v()));
                if i - 1 < starts@.len() {
                    // a seed has no edges, so the similarity cap cannot have
                    // refused it: an equal value was already emitted
                    lemma_count_v_none(with_key_v(vs0, key_of_v(p.view_v())), p.view_v());
                    assert(has_same_v(vs0, seed_v(*g, starts@[i - 1])));
                }
                assert forall|k2: PathKey| #[trigger] stored_views(detector, k2) == with_key_v(
                    views_of(results@),
                    k2,
                ) by {
                    assert(detector.stored(k2) == det0.stored(k2));
                    assert(stored_views(det0, k2) == with_key_v(views_of(results@), k2));
                }
            }
            continue ;
        }
        let is_jump = match g.nodes[p.end_node].kind {
            NodeKind::JumpToScope => true,
            _ => false,
        };
        if is_jump {
            // the only way onward is the jump the scope stack names
            if p.scope_stack.len() > 0 {
                let target = p.scope_stack[0];
                proof {
                    assert(p.state_v().scopes[0] < g.nodes@.len());
                }
                let e = Edge { source: p.end_node, sink: target, precedence: 0 };
                proof {
                    assert(e == jump_edge(p));
                }
                match extend(g, &p, e) {
                    Some(q) => {
                        proof {
                            assert(q.edges@.drop_last() =~= p.edges@);
                            assert(path_ok(*g, q));
                        }
                        let ghost q0 = queue@;
                        queue.push(q);
                        proof {
                            assert(queue@ =~= q0.push(q));
                            assert(queue@[queue@.len() - 1] == q);
                            assert(q.view_v() == ext_view(*g, p, jump_edge(p)));
                            assert(queued_value(queue@, ext_view(*g, p, jump_edge(p))));
                            assert forall|jj: int|
                                0 <= jj < results@.len() implies extensions_queued(
                                *g,
                                queue@,
                                #[trigger] results@[jj],
                            ) by {
                                lemma_ext_queued_push(*g, q0, q, results@[jj]);
                            }
                        }
                    },
                    None => {},
                }
            }
            proof {
                assert(extensions_queued(*g, queue@, p));
            }
        } else {
            let m = g.edges[p.end_node].len();
            let mut j: usize = 0;
            while j < m
                invariant
                    0 <= j <= m,
                    0 < i <= queue@.len(),
                    starts@.len() <= queue@.len(),
                    queue@[i - 1].view_v() == p.view_v(),
                    forall|kk: int|
                        0 <= kk < i - 1 ==> emitted_or_refused(
                            views_of(results@),
                            (#[trigger] queue@[kk]).view_v(),
                        ),
                    m == g.out_edges(p.end_node as int).len(),
                    p.end_node < g.nodes@.len(),
                    !(g.kind_at(p.end_node as int) is JumpToScope),
                    path_ok(*g, p),
                    p.valid(*g),
                    starts@.contains(p.start_node),
                    g.kind_at(p.start_node as int) is Reference,
                    forall|jj: int|
                        0 <= jj < queue@.len() ==> {
                            &&& path_ok(*g, #[trigger] queue@[jj])
                            &&& queue@[jj].valid(*g)
                            &&& starts@.contains(queue@[jj].start_node)
                            &&& g.kind_at(queue@[jj].start_node as int) is Reference
                        },
                    forall|jj: int|
                        0 <= jj < starts@.len() ==> (#[trigger] queue@[jj]).view_v() == seed_v(
                            *g,
                            starts@[jj],
                        ),
                    forall|jj: int|
                        0 <= jj < results@.len() ==> extensions_queued(
                            *g,
                            queue@,
                            #[trigger] results@[jj],
                        ),
                    forall|ei: int|
                        0 <= ei < j && spec_step(
                            *g,
                            p.state_v(),
                            #[trigger] g.out_edges(p.end_node as int)[ei],
                        ) is Some ==> queued_value(
                            queue@,
                            ext_view(*g, p, g.out_edges(p.end_node as int)[ei]),
                        ),
                decreases m - j,
            {
                let e = g.edges[p.end_node][j];
                match extend(g, &p, e) {
                    Some(q) => {
                        proof {
                            assert(q.edges@.drop_last() =~= p.edges@);
                            assert(path_ok(*g, q));
                        }
                        let ghost q0 = queue@;
                        queue.push(q);
                        proof {
                            assert(queue@ =~= q0.push(q));
                            assert(queue@[queue@.len() - 1] == q);
                            assert(q.view_v() == ext_view(*g, p, e));
                            assert(queued_value(queue@, ext_view(*g, p, e)));
                            assert forall|jj: int|
                                0 <= jj < results@.len() implies extensions_queued(
                                *g,
                                queue@,
                                #[trigger] results@[jj],
                            ) by {
                                lemma_ext_queued_push(*g, q0, q, results@[jj]);
                            }
                            assert forall|ei: int|
                                0 <= ei < j && spec_step(
                                    *g,
                                    p.state_v(),
                                    #[trigger] g.out_edges(p.end_node as int)[ei],
                                ) is Some implies queued_value(
                                queue@,
                                ext_view(*g, p, g.out_edges(p.end_node as int)[ei]),
                            ) by {
                                let w = ext_view(*g, p, g.out_edges(p.end_node as int)[ei]);
                                assert(queued_value(q0, w));
                                let mm = choose|mm: int|
                                    0 <= mm < q0.len() && (#[trigger] q0[mm]).view_v() == w;
                                assert(queue@[mm] == q0[mm]);
                            }
                        }
                    },
                    None => {},
                }
                j = j + 1;
            }
            proof {
                assert(extensions_queued(*g, queue@, p));
            }
        }
        results.push(p);
        proof {
            let vs1 = views_of(results@);
            assert(vs1 =~= vs0.push(p.view_v()));
            assert(vs1.take(vs0.len() as int) =~= vs0);
            // the new emission is admitted against exactly its bucket
            assert(!has_same_v(with_key_v(vs0, key), p.view_v()));
            assert(count_shorter_v(with_key_v(vs0, key), p.view_v())
                <= crate::cycles::MAX_SIMILAR_PATH_COUNT);
            // the detector stores a copy of the same value
            assert forall|k2: PathKey| #[trigger] stored_views(detector, k2) == with_key_v(
                vs1,
                k2,
            ) by {
                lemma_with_key_push(vs0, k2, p.view_v());
                if k2 == key {
                    assert(detector.stored(key) =~= bucket.push(detector.stored(key).last()));
                    assert(detector.stored(key).last().v() == p.v());
                    assert(stored_views(detector, k2) =~= stored_views(det0, k2).push(
                        p.view_v(),
                    ));
                    assert(stored_views(det0, k2) == with_key_v(vs0, k2));
                    assert(stored_views(detector, k2) =~= with_key_v(vs1, k2));
                } else {
                    assert(detector.stored(k2) == det0.stored(k2));
                    assert(stored_views(det0, k2) == with_key_v(vs0, k2));
                    assert(stored_views(detector, k2) =~= with_key_v(vs1, k2));
                }
            }
            // earlier emissions keep their prefix facts
            assert forall|jj: int|
                0 <= jj < results@.len() implies !has_same_v(
                    with_key_v(vs1.take(jj), key_of_v(vs1[jj])),
                    #[trigger] vs1[jj],
                ) && count_shorter_v(with_key_v(vs1.take(jj), key_of_v(vs1[jj])), vs1[jj])
                <= crate::cycles::MAX_SIMILAR_PATH_COUNT by {
                if jj < vs0.len() {
                    assert(vs1.take(jj) =~= vs0.take(jj));
                    assert(vs1[jj] == vs0[jj]);
                } else {
                    assert(vs1[jj] == p.view_v());
                    assert(vs1.take(jj) =~= vs0);
                }
            }
            // processed seeds are among the emitted values
            assert forall|i2: int|
                0 <= i2 < i && i2 < starts@.len() implies has_same_v(
                    vs1,
                    seed_v(*g, #[trigger] starts@[i2]),
                ) by {
                if i2 == i - 1 {
                    assert(vs1[vs0.len() as int] == p.view_v());
                } else {
                    let w = seed_v(*g, starts@[i2]);
                    assert(has_same_v(vs0, w));
                    let wi = choose|wi: int| 0 <= wi < vs0.len() && vs0[wi] == w;
                    assert(vs1[wi] == w);
                }
            }
            // processed entries stay emitted or refused as results grow
            assert forall|kk: int|
                0 <= kk < i implies emitted_or_refused(vs1, (#[trigger] queue@[kk]).view_v()) by {
                if kk == i - 1 {
                    assert(vs1[vs0.len() as int] == p.view_v());
                    assert(has_same_v(vs1, queue@[kk].view_v()));
                } else {
                    let w = queue@[kk].view_v();
                    if has_same_v(vs0, w) {
                        let wi = choose|wi: int| 0 <= wi < vs0.len() && vs0[wi] == w;
                        assert(vs1[wi] == w);
                    } else {
                        lemma_with_key_push(vs0, key_of_v(w), p.view_v());
                        if key_of_v(p.view_v()) == key_of_v(w) {
                            lemma_count_v_push(with_key_v(vs0, key_of_v(w)), p.view_v(), w);
                        }
                    }
                }
            }
        }
    }
    let complete = i == queue.len();
    proof {
        assert forall|i2: int|
            0 <= i2 < starts@.len() && i2 < limit implies has_same_v(
            views_of(results@),
            seed_v(*g, #[trigger] starts@[i2]),
        ) by {
            assert(i2 < i);
        }
        if complete {
            let vs = views_of(results@);
            assert forall|i2: int|
                0 <= i2 < starts@.len() implies has_same_v(
                    vs,
                    seed_v(*g, #[trigger] starts@[i2]),
                ) by {
                assert(emitted_or_refused(vs, queue@[i2].view_v()));
                assert(queue@[i2].view_v() == seed_v(*g, starts@[i2]));
                lemma_count_v_none(
                    with_key_v(vs, key_of_v(seed_v(*g, starts@[i2]))),
                    seed_v(*g, starts@[i2]),
                );
            }
            assert forall|j: int|
                0 <= j < results@.len() implies extensions_covered(
                    *g,
                    vs,
                    #[trigger] results@[j],
                ) by {
                let p = results@[j];
                assert(extensions_queued(*g, queue@, p));
                if g.kind_at(p.end_node as int) is JumpToScope {
                    if p.scope_stack@.len() > 0 && spec_step(
                        *g,
                        p.state_v(),
                        jump_edge(p),
                    ) is Some {
                        let w = ext_view(*g, p, jump_edge(p));
                        assert(queued_value(queue@, w));
                        let mm = choose|mm: int|
                            0 <= mm < queue@.len() && (#[trigger] queue@[mm]).view_v() == w;
                        assert(emitted_or_refused(vs, queue@[mm].view_v()));
                    }
                } else {
                    assert forall|ei: int|
                        0 <= ei < g.out_edges(p.end_node as int).len() && spec_step(
                            *g,
                            p.state_v(),
                            #[trigger] g.out_edges(p.end_node as int)[ei],
                        ) is Some implies emitted_or_refused(
                        vs,
                        ext_view(*g, p, g.out_edges(p.end_node as int)[ei]),
                    ) by {
                        let w = ext_view(*g, p, g.out_edges(p.end_node as int)[ei]);
                        assert(queued_value(queue@, w));
                        let mm = choose|mm: int|
                            0 <= mm < queue@.len() && (#[trigger] queue@[mm]).view_v() == w;
                        assert(emitted_or_refused(vs, queue@[mm].view_v()));
                    }
                }
            }
        }
    }
    (results, complete)
}

/// Every complete path the search emits is a connected walk from a
/// reference to a definition: replaying its edges from empty stacks
/// reaches its end node with both stacks empty again.
pub proof fn lemma_complete_results(g: StackGraph, starts: Seq<usize>, rs: Seq<Path>, i: int)
    requires
        results_ok(g, starts, rs),
        0 <= i < rs.len(),
        spec_is_complete(g, rs[i]),
    ensures
        g.kind_at(rs[i].start_node as int) is Reference,
        g.kind_at(rs[i].end_node as int) is Definition,
        starts.contains(rs[i].start_node),
        spec_replay(g, rs[i].start_node, rs[i].edges@) == Some(
            PathStateV { end: rs[i].end_node, sym: Seq::empty(), scopes: Seq::empty() },
        ),
{
    assert(sym_view(rs[i].symbol_stack@) =~= Seq::<ElemV>::empty());
    assert(rs[i].scope_stack@ =~= Seq::<usize>::empty());
    assert(rs[i].state_v() =~~= PathStateV {
        end: rs[i].end_node,
        sym: Seq::empty(),
        scopes: Seq::empty(),
    });
}

/// One step of path extension is a pure function of the graph, the
/// stacks, and the edge: equal inputs give equal outcomes.
pub proof fn lemma_step_deterministic(
    g: StackGraph,
    st: PathStateV,
    e: Edge,
    r1: Option<PathStateV>,
    r2: Option<PathStateV>,
)
    requires
        r1 == spec_step(g, st, e),
        r2 == spec_step(g, st, e),
    ensures
        r1 == r2,
{
}

} // verus!

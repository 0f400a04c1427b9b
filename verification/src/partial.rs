//! Partial paths: file-local path templates with precondition and
//! postcondition stacks.
//!
//! A partial path describes how a traversal maps the stacks it is entered
//! with to the stacks it exits with. Stack variables stand for the unknown
//! context supplied by other files: a symbol-stack variable may appear only
//! as the tail of a stack, and popping past the known part of a
//! postcondition grows the precondition instead, recording what the context
//! must supply.

use vstd::prelude::*;

use crate::cycles::HasPathKey;
use crate::cycles::PathKey;
use crate::graph::Edge;
use crate::graph::NodeKind;
use crate::graph::StackGraph;
use crate::paths::copy_scopes_from;
use crate::paths::copy_edges;
use crate::paths::eq_scopes;
use crate::paths::eq_edges;

verus! {

/// A scope stack with an optional tail variable.
pub struct PartialScopeStack {
    pub scopes: Vec<usize>,
    pub variable: Option<usize>,
}

/// The value of a partial scope stack.
#[verifier::ext_equal]
pub struct PScopesV {
    pub scopes: Seq<usize>,
    pub variable: Option<usize>,
}

/// The value of `s`.
pub open spec fn pscopes_v(s: PartialScopeStack) -> PScopesV {
    PScopesV { scopes: s.scopes@, variable: s.variable }
}

/// One element of a partial symbol stack: a symbol with optionally
/// attached scopes.
pub struct PartialScopedSymbol {
    pub symbol: usize,
    pub scopes: Option<PartialScopeStack>,
}

/// The value of a partial symbol-stack element.
#[verifier::ext_equal]
pub struct PElemV {
    pub symbol: usize,
    pub scopes: Option<PScopesV>,
}

/// The value of `e`.
pub open spec fn pelem_v(e: PartialScopedSymbol) -> PElemV {
    PElemV {
        symbol: e.symbol,
        scopes: match e.scopes {
            Some(s) => Some(pscopes_v(s)),
            None => None,
        },
    }
}

/// The values of a list of partial symbol-stack elements, front first.
pub open spec fn psym_view(v: Seq<PartialScopedSymbol>) -> Seq<PElemV> {
    v.map_values(|e: PartialScopedSymbol| pelem_v(e))
}

/// A symbol stack with an optional tail variable.
pub struct PartialSymbolStack {
    pub symbols: Vec<PartialScopedSymbol>,
    pub variable: Option<usize>,
}

/// The value of a partial symbol stack.
#[verifier::ext_equal]
pub struct PSymV {
    pub symbols: Seq<PElemV>,
    pub variable: Option<usize>,
}

/// The value of `s`.
pub open spec fn psym_v(s: PartialSymbolStack) -> PSymV {
    PSymV { symbols: psym_view(s.symbols@), variable: s.variable }
}

/// A partial path: a walk `edges` from `start_node` to `end_node`, with
/// the stacks it requires on entry (preconditions) and produces on exit
/// (postconditions).
pub struct PartialPath {
    pub start_node: usize,
    pub end_node: usize,
    pub symbol_stack_precondition: PartialSymbolStack,
    pub symbol_stack_postcondition: PartialSymbolStack,
    pub scope_stack_precondition: PartialScopeStack,
    pub scope_stack_postcondition: PartialScopeStack,
    pub edges: Vec<Edge>,
}

/// The stacks of a partial path at its end.
#[verifier::ext_equal]
pub struct PPStateV {
    pub end: usize,
    pub sym_pre: PSymV,
    pub sym_post: PSymV,
    pub scope_pre: PScopesV,
    pub scope_post: PScopesV,
}

/// The value of a partial path.
#[verifier::ext_equal]
pub struct PartialPathV {
    pub start: usize,
    pub end: usize,
    pub sym_pre: PSymV,
    pub sym_post: PSymV,
    pub scope_pre: PScopesV,
    pub scope_post: PScopesV,
    pub edges: Seq<Edge>,
}

impl PartialPath {
    /// The stacks of this partial path.
    pub open spec fn pstate_v(self) -> PPStateV {
        PPStateV {
            end: self.end_node,
            sym_pre: psym_v(self.symbol_stack_precondition),
            sym_post: psym_v(self.symbol_stack_postcondition),
            scope_pre: pscopes_v(self.scope_stack_precondition),
            scope_post: pscopes_v(self.scope_stack_postcondition),
        }
    }

    /// The value of this partial path.
    pub open spec fn view_v(self) -> PartialPathV {
        PartialPathV {
            start: self.start_node,
            end: self.end_node,
            sym_pre: psym_v(self.symbol_stack_precondition),
            sym_post: psym_v(self.symbol_stack_postcondition),
            scope_pre: pscopes_v(self.scope_stack_precondition),
            scope_post: pscopes_v(self.scope_stack_postcondition),
            edges: self.edges@,
        }
    }

    /// All handles held by this partial path are valid in `g`.
    pub open spec fn valid(self, g: StackGraph) -> bool {
        pstate_valid(g, self.pstate_v()) && self.start_node < g.nodes@.len()
    }
}

/// A partial scope stack holds only valid handles.
pub open spec fn pscopes_ok(g: StackGraph, s: PScopesV) -> bool {
    forall|j: int| 0 <= j < s.scopes.len() ==> (#[trigger] s.scopes[j]) < g.nodes@.len()
}

/// A partial symbol-stack element holds only valid handles.
pub open spec fn pelem_ok(g: StackGraph, e: PElemV) -> bool {
    &&& e.symbol < g.symbols@.len()
    &&& match e.scopes {
        Some(s) => pscopes_ok(g, s),
        None => true,
    }
}

/// A partial symbol stack holds only valid handles.
pub open spec fn psym_ok(g: StackGraph, s: PSymV) -> bool {
    forall|i: int| 0 <= i < s.symbols.len() ==> pelem_ok(g, #[trigger] s.symbols[i])
}

/// The stacks of a state hold only valid handles.
pub open spec fn pstate_valid(g: StackGraph, st: PPStateV) -> bool {
    &&& st.end < g.nodes@.len()
    &&& psym_ok(g, st.sym_pre)
    &&& psym_ok(g, st.sym_post)
    &&& pscopes_ok(g, st.scope_pre)
    &&& pscopes_ok(g, st.scope_post)
}

/// The number of a variable, or 0 when there is none.
pub open spec fn var_num(v: Option<usize>) -> int {
    match v {
        Some(n) => n as int,
        None => 0,
    }
}

/// The largest scope variable among the attached scopes of `s`.
pub open spec fn psym_max_var(s: Seq<PElemV>) -> int
    decreases s.len(),
{
    if s.len() == 0 {
        0
    } else {
        let head = match s[0].scopes {
            Some(sc) => var_num(sc.variable),
            None => 0,
        };
        let rest = psym_max_var(s.drop_first());
        if head > rest {
            head
        } else {
            rest
        }
    }
}

/// The largest scope variable a state mentions; at least 1, so that fresh
/// variables never collide with the seed variable.
pub open spec fn state_max_var(st: PPStateV) -> int {
    let a = var_num(st.scope_pre.variable);
    let b = var_num(st.scope_post.variable);
    let c = psym_max_var(st.sym_pre.symbols);
    let d = psym_max_var(st.sym_post.symbols);
    let m1 = if a > b {
        a
    } else {
        b
    };
    let m2 = if c > d {
        c
    } else {
        d
    };
    let m3 = if m1 > m2 {
        m1
    } else {
        m2
    };
    if m3 > 1 {
        m3
    } else {
        1
    }
}

/// The transition applied on arrival at node `v`, on pre/post stacks:
/// pushes grow the postcondition; a pop past the known part of the
/// postcondition grows the precondition instead, the unknown context being
/// what must supply the popped symbol. `None` when the step is not legal.
pub open spec fn spec_parrive(g: StackGraph, st: PPStateV, v: usize) -> Option<PPStateV> {
    match g.kind_at(v as int) {
        NodeKind::Root => Some(PPStateV { end: v, ..st }),
        NodeKind::JumpToScope => Some(PPStateV { end: v, ..st }),
        NodeKind::InternalScope => Some(PPStateV { end: v, ..st }),
        NodeKind::ExportedScope => Some(PPStateV { end: v, ..st }),
        NodeKind::DropScopes => Some(
            PPStateV { end: v, scope_post: PScopesV { scopes: Seq::empty(), variable: None }, ..st },
        ),
        NodeKind::PushSymbol { symbol } => Some(
            PPStateV {
                end: v,
                sym_post: PSymV {
                    symbols: seq![PElemV { symbol, scopes: None }] + st.sym_post.symbols,
                    variable: st.sym_post.variable,
                },
                ..st
            },
        ),
        NodeKind::Reference { symbol } => Some(
            PPStateV {
                end: v,
                sym_post: PSymV {
                    symbols: seq![PElemV { symbol, scopes: None }] + st.sym_post.symbols,
                    variable: st.sym_post.variable,
                },
                ..st
            },
        ),
        NodeKind::PushScopedSymbol { symbol, attached_scope } => Some(
            PPStateV {
                end: v,
                sym_post: PSymV {
                    symbols: seq![
                        PElemV {
                            symbol,
                            scopes: Some(
                                PScopesV {
                                    scopes: seq![attached_scope] + st.scope_post.scopes,
                                    variable: st.scope_post.variable,
                                },
                            ),
                        },
                    ] + st.sym_post.symbols,
                    variable: st.sym_post.variable,
                },
                ..st
            },
        ),
        NodeKind::PopSymbol { symbol } => spec_pop_plain(st, v, symbol),
        NodeKind::Definition { symbol } => spec_pop_plain(st, v, symbol),
        NodeKind::PopScopedSymbol { symbol } => spec_pop_scoped(st, v, symbol),
    }
}

/// A plain pop on the pre/post stacks.
pub open spec fn spec_pop_plain(st: PPStateV, v: usize, symbol: usize) -> Option<PPStateV> {
    if st.sym_post.symbols.len() > 0 {
        if st.sym_post.symbols[0].symbol == symbol && st.sym_post.symbols[0].scopes is None {
            Some(
                PPStateV {
                    end: v,
                    sym_post: PSymV {
                        symbols: st.sym_post.symbols.drop_first(),
                        variable: st.sym_post.variable,
                    },
                    ..st
                },
            )
        } else {
            None
        }
    } else if st.sym_post.variable is Some {
        Some(
            PPStateV {
                end: v,
                sym_pre: PSymV {
                    symbols: st.sym_pre.symbols.push(PElemV { symbol, scopes: None }),
                    variable: st.sym_pre.variable,
                },
                ..st
            },
        )
    } else {
        None
    }
}

/// A scoped pop on the pre/post stacks; materializing past the
/// postcondition invents a fresh scope variable for the unknown attached
/// scopes.
pub open spec fn spec_pop_scoped(st: PPStateV, v: usize, symbol: usize) -> Option<PPStateV> {
    if st.sym_post.symbols.len() > 0 {
        if st.sym_post.symbols[0].symbol == symbol && st.sym_post.symbols[0].scopes is Some {
            Some(
                PPStateV {
                    end: v,
                    sym_post: PSymV {
                        symbols: st.sym_post.symbols.drop_first(),
                        variable: st.sym_post.variable,
                    },
                    scope_post: st.sym_post.symbols[0].scopes.unwrap(),
                    ..st
                },
            )
        } else {
            None
        }
    } else if st.sym_post.variable is Some {
        if state_max_var(st) + 1 < usize::MAX as int {
            let fresh = PScopesV {
                scopes: Seq::empty(),
                variable: Some((state_max_var(st) + 1) as usize),
            };
            Some(
                PPStateV {
                    end: v,
                    sym_pre: PSymV {
                        symbols: st.sym_pre.symbols.push(
                            PElemV { symbol, scopes: Some(fresh) },
                        ),
                        variable: st.sym_pre.variable,
                    },
                    scope_post: fresh,
                    ..st
                },
            )
        } else {
            None
        }
    } else {
        None
    }
}

/// One step along `e`: leaving a jump-to-scope node consumes the concrete
/// top of the postcondition scope stack, which must name `e.sink`; then the
/// arrival transition of `e.sink` applies.
pub open spec fn spec_pstep(g: StackGraph, st: PPStateV, e: Edge) -> Option<PPStateV> {
    if e.source != st.end {
        None
    } else if g.kind_at(st.end as int) is JumpToScope {
        if st.scope_post.scopes.len() > 0 && st.scope_post.scopes[0] == e.sink {
            spec_parrive(
                g,
                PPStateV {
                    scope_post: PScopesV {
                        scopes: st.scope_post.scopes.drop_first(),
                        variable: st.scope_post.variable,
                    },
                    ..st
                },
                e.sink,
            )
        } else {
            None
        }
    } else {
        spec_parrive(g, st, e.sink)
    }
}

/// The identity stacks a search seeds at `n`: everything is the initial
/// variable, except that a push or reference node contributes its own push
/// and starts with empty, variable-free scope stacks (a path that begins at
/// a push begins a resolution, whose scope context is empty).
pub open spec fn spec_pseed(g: StackGraph, n: usize) -> PPStateV {
    let var_sym = PSymV { symbols: Seq::empty(), variable: Some(1usize) };
    let var_scopes = PScopesV { scopes: Seq::empty(), variable: Some(1usize) };
    let no_scopes = PScopesV { scopes: Seq::empty(), variable: None };
    match g.kind_at(n as int) {
        NodeKind::PushSymbol { symbol } => PPStateV {
            end: n,
            sym_pre: var_sym,
            sym_post: PSymV {
                symbols: seq![PElemV { symbol, scopes: None }],
                variable: Some(1usize),
            },
            scope_pre: no_scopes,
            scope_post: no_scopes,
        },
        NodeKind::Reference { symbol } => PPStateV {
            end: n,
            sym_pre: var_sym,
            sym_post: PSymV {
                symbols: seq![PElemV { symbol, scopes: None }],
                variable: Some(1usize),
            },
            scope_pre: no_scopes,
            scope_post: no_scopes,
        },
        NodeKind::PushScopedSymbol { symbol, attached_scope } => PPStateV {
            end: n,
            sym_pre: var_sym,
            sym_post: PSymV {
                symbols: seq![
                    PElemV {
                        symbol,
                        scopes: Some(
                            PScopesV { scopes: seq![attached_scope], variable: None },
                        ),
                    },
                ],
                variable: Some(1usize),
            },
            scope_pre: no_scopes,
            scope_post: no_scopes,
        },
        _ => PPStateV {
            end: n,
            sym_pre: var_sym,
            sym_post: var_sym,
            scope_pre: var_scopes,
            scope_post: var_scopes,
        },
    }
}

/// The stacks that a walk from `n` along `edges` produces, starting from
/// the seed stacks of `n`; `None` when some step is not legal.
pub open spec fn spec_preplay(g: StackGraph, n: usize, edges: Seq<Edge>) -> Option<PPStateV>
    decreases edges.len(),
{
    if edges.len() == 0 {
        Some(spec_pseed(g, n))
    } else {
        match spec_preplay(g, n, edges.drop_last()) {
            Some(st) => spec_pstep(g, st, edges.last()),
            None => None,
        }
    }
}

/// A partial path is well formed when replaying its edge list from its
/// start node's seed stacks reproduces exactly its end node and its four
/// stacks: applying the transitions to the precondition yields the
/// postcondition.
pub open spec fn ppath_ok(g: StackGraph, q: PartialPath) -> bool {
    spec_preplay(g, q.start_node, q.edges@) == Some(q.pstate_v())
}

/// Whether a node may take part in the file-local search for `file`: it is
/// in the file, or it is the root or a jump-to-scope boundary.
pub open spec fn node_in_file(g: StackGraph, v: usize, file: usize) -> bool {
    ||| g.nodes@[v as int].file == Some(file)
    ||| g.kind_at(v as int) is Root
    ||| g.kind_at(v as int) is JumpToScope
}

/// Copies a partial scope stack.
pub fn copy_pscopes(s: &PartialScopeStack) -> (r: PartialScopeStack)
    ensures
        pscopes_v(r) == pscopes_v(*s),
{
    let r = PartialScopeStack { scopes: copy_scopes_from(&s.scopes, 0), variable: s.variable };
    proof {
        assert(s.scopes@.skip(0) =~= s.scopes@);
    }
    r
}

/// Copies one partial symbol-stack element.
pub fn copy_pelem(e: &PartialScopedSymbol) -> (r: PartialScopedSymbol)
    ensures
        pelem_v(r) == pelem_v(*e),
{
    let scopes = match &e.scopes {
        Some(s) => Some(copy_pscopes(s)),
        None => None,
    };
    PartialScopedSymbol { symbol: e.symbol, scopes }
}

/// Copies the elements of a partial symbol stack from index `from` on.
#[verifier::loop_isolation(false)]
pub fn copy_psym_from(v: &Vec<PartialScopedSymbol>, from: usize) -> (r: Vec<
    PartialScopedSymbol,
>)
    requires
        from <= v@.len(),
    ensures
        psym_view(r@) == psym_view(v@).skip(from as int),
{
    let mut r: Vec<PartialScopedSymbol> = Vec::new();
    let mut i: usize = from;
    while i < v.len()
        invariant
            from <= i <= v@.len(),
            psym_view(r@) =~= psym_view(v@).subrange(from as int, i as int),
        decreases v@.len() - i,
    {
        r.push(copy_pelem(&v[i]));
        proof {
            assert(psym_view(r@) =~= psym_view(v@).subrange(from as int, i + 1));
        }
        i = i + 1;
    }
    proof {
        assert(psym_view(r@) =~= psym_view(v@).skip(from as int));
    }
    r
}

/// Copies a partial symbol stack.
pub fn copy_psym(s: &PartialSymbolStack) -> (r: PartialSymbolStack)
    ensures
        psym_v(r) == psym_v(*s),
{
    let r = PartialSymbolStack {
        symbols: copy_psym_from(&s.symbols, 0),
        variable: s.variable,
    };
    proof {
        assert(psym_view(s.symbols@).skip(0) =~= psym_view(s.symbols@));
    }
    r
}

/// Mapping to values distributes over concatenation.
pub proof fn lemma_psym_view_concat(a: Seq<PartialScopedSymbol>, b: Seq<PartialScopedSymbol>)
    ensures
        psym_view(a + b) =~= psym_view(a) + psym_view(b),
{
    assert forall|i: int| 0 <= i < (a + b).len() implies psym_view(a + b)[i] == (psym_view(a)
        + psym_view(b))[i] by {
        if i < a.len() {
            assert((a + b)[i] == a[i]);
        } else {
            assert((a + b)[i] == b[i - a.len()]);
        }
    }
}

/// The largest variable among the attached scopes of `v`, from `from` on.
#[verifier::loop_isolation(false)]
fn psym_max_exec(v: &Vec<PartialScopedSymbol>) -> (r: usize)
    ensures
        r as int == psym_max_var(psym_view(v@)),
{
    let mut r: usize = 0;
    let mut i: usize = v.len();
    while i > 0
        invariant
            0 <= i <= v@.len(),
            r as int == psym_max_var(psym_view(v@).skip(i as int)),
        decreases i,
    {
        i = i - 1;
        let head: usize = match &v[i].scopes {
            Some(sc) => match sc.variable {
                Some(n) => n,
                None => 0,
            },
            None => 0,
        };
        proof {
            assert(psym_view(v@).skip(i as int).drop_first() =~= psym_view(v@).skip(i + 1));
            assert(psym_view(v@).skip(i as int)[0] == pelem_v(v@[i as int]));
        }
        if head > r {
            r = head;
        }
    }
    proof {
        assert(psym_view(v@).skip(0) =~= psym_view(v@));
    }
    r
}

impl PartialPath {
    /// Copies this partial path; the copy has the same value.
    pub fn duplicate_partial(&self) -> (r: PartialPath)
        ensures
            r.view_v() == self.view_v(),
            r.pstate_v() == self.pstate_v(),
            r.start_node == self.start_node,
            r.end_node == self.end_node,
            r.edges@ == self.edges@,
    {
        PartialPath {
            start_node: self.start_node,
            end_node: self.end_node,
            symbol_stack_precondition: copy_psym(&self.symbol_stack_precondition),
            symbol_stack_postcondition: copy_psym(&self.symbol_stack_postcondition),
            scope_stack_precondition: copy_pscopes(&self.scope_stack_precondition),
            scope_stack_postcondition: copy_pscopes(&self.scope_stack_postcondition),
            edges: copy_edges(&self.edges),
        }
    }

    /// The empty-edge partial path seeded at `node`, with the seed stacks
    /// of that node's variant.
    pub fn from_node(g: &StackGraph, node: usize) -> (q: PartialPath)
        requires
            g.wf(),
            node < g.nodes@.len(),
        ensures
            q.start_node == node,
            q.end_node == node,
            q.edges@.len() == 0,
            q.pstate_v() == spec_pseed(*g, node),
            q.view_v() == pseed_view(*g, node),
            ppath_ok(*g, q),
            q.valid(*g),
    {
        let (sym_post, scoped) = match g.nodes[node].kind {
            NodeKind::PushSymbol { symbol } | NodeKind::Reference { symbol } => {
                let mut symbols: Vec<PartialScopedSymbol> = Vec::new();
                symbols.push(PartialScopedSymbol { symbol, scopes: None });
                (PartialSymbolStack { symbols, variable: Some(1) }, true)
            },
            NodeKind::PushScopedSymbol { symbol, attached_scope } => {
                let mut att: Vec<usize> = Vec::new();
                att.push(attached_scope);
                let mut symbols: Vec<PartialScopedSymbol> = Vec::new();
                symbols.push(
                    PartialScopedSymbol {
                        symbol,
                        scopes: Some(PartialScopeStack { scopes: att, variable: None }),
                    },
                );
                (PartialSymbolStack { symbols, variable: Some(1) }, true)
            },
            _ => (PartialSymbolStack { symbols: Vec::new(), variable: Some(1) }, false),
        };
        let (scope_pre, scope_post) = if scoped {
            (
                PartialScopeStack { scopes: Vec::new(), variable: None },
                PartialScopeStack { scopes: Vec::new(), variable: None },
            )
        } else {
            (
                PartialScopeStack { scopes: Vec::new(), variable: Some(1) },
                PartialScopeStack { scopes: Vec::new(), variable: Some(1) },
            )
        };
        let q = PartialPath {
            start_node: node,
            end_node: node,
            symbol_stack_precondition: PartialSymbolStack {
                symbols: Vec::new(),
                variable: Some(1),
            },
            symbol_stack_postcondition: sym_post,
            scope_stack_precondition: scope_pre,
            scope_stack_postcondition: scope_post,
            edges: Vec::new(),
        };
        proof {
            assert(q.pstate_v() =~~= spec_pseed(*g, node));
            assert(q.view_v() =~~= pseed_view(*g, node));
            assert(ppath_ok(*g, q));
        }
        q
    }

    /// Whether this partial path can be emitted as a unit of reuse: it
    /// starts at the root, an exported scope, or a reference whose
    /// precondition asks nothing beyond its variable, and it ends at the
    /// root, a jump-to-scope node whose jump some context can still take,
    /// or a definition at which every pushed symbol has been consumed.
    pub fn is_complete_as_possible(&self, g: &StackGraph) -> (r: bool)
        requires
            g.wf(),
            self.valid(*g),
        ensures
            r == spec_is_complete_as_possible(*g, *self),
    {
        let start_ok = match g.nodes[self.start_node].kind {
            NodeKind::Root => true,
            NodeKind::ExportedScope => true,
            NodeKind::Reference { .. } => self.symbol_stack_precondition.symbols.len() == 0,
            _ => false,
        };
        let end_ok = match g.nodes[self.end_node].kind {
            NodeKind::Root => true,
            NodeKind::JumpToScope => self.scope_stack_postcondition.scopes.len() > 0
                || self.scope_stack_postcondition.variable.is_some(),
            NodeKind::Definition { .. } => self.symbol_stack_postcondition.symbols.len() == 0,
            _ => false,
        };
        start_ok && end_ok
    }

    /// Whether this partial path advances anything: it is not a
    /// symbol-neutral loop on one node.
    pub fn is_productive(&self) -> (r: bool)
        ensures
            r == spec_is_productive(*self),
    {
        !(self.start_node == self.end_node && self.symbol_stack_precondition.symbols.len() == 0
            && self.symbol_stack_postcondition.symbols.len() == 0)
    }

    /// The endpoint signature: start heads from the precondition, end
    /// heads from the postcondition, each the first concrete entry if any.
    pub open spec fn key_spec(self) -> PathKey {
        PathKey {
            start_node: self.start_node,
            start_symbol_stack_head: if self.symbol_stack_precondition.symbols@.len() > 0 {
                Some(self.symbol_stack_precondition.symbols@[0].symbol)
            } else {
                None
            },
            start_scope_stack_head: if self.scope_stack_precondition.scopes@.len() > 0 {
                Some(self.scope_stack_precondition.scopes@[0])
            } else {
                None
            },
            end_node: self.end_node,
            end_symbol_stack_head: if self.symbol_stack_postcondition.symbols@.len() > 0 {
                Some(self.symbol_stack_postcondition.symbols@[0].symbol)
            } else {
                None
            },
            end_scope_stack_head: if self.scope_stack_postcondition.scopes@.len() > 0 {
                Some(self.scope_stack_postcondition.scopes@[0])
            } else {
                None
            },
        }
    }

    /// Computes the endpoint signature of this partial path.
    pub fn path_key(&self) -> (r: PathKey)
        ensures
            r == self.key_spec(),
    {
        let start_symbol_stack_head = if self.symbol_stack_precondition.symbols.len() > 0 {
            Some(self.symbol_stack_precondition.symbols[0].symbol)
        } else {
            None
        };
        let start_scope_stack_head = if self.scope_stack_precondition.scopes.len() > 0 {
            Some(self.scope_stack_precondition.scopes[0])
        } else {
            None
        };
        let end_symbol_stack_head = if self.symbol_stack_postcondition.symbols.len() > 0 {
            Some(self.symbol_stack_postcondition.symbols[0].symbol)
        } else {
            None
        };
        let end_scope_stack_head = if self.scope_stack_postcondition.scopes.len() > 0 {
            Some(self.scope_stack_postcondition.scopes[0])
        } else {
            None
        };
        PathKey {
            start_node: self.start_node,
            start_symbol_stack_head,
            start_scope_stack_head,
            end_node: self.end_node,
            end_symbol_stack_head,
            end_scope_stack_head,
        }
    }
}

/// See [`PartialPath::is_complete_as_possible`].
pub open spec fn spec_is_complete_as_possible(g: StackGraph, q: PartialPath) -> bool {
    &&& match g.kind_at(q.start_node as int) {
        NodeKind::Root => true,
        NodeKind::ExportedScope => true,
        NodeKind::Reference { .. } => q.symbol_stack_precondition.symbols@.len() == 0,
        _ => false,
    }
    &&& match g.kind_at(q.end_node as int) {
        NodeKind::Root => true,
        NodeKind::JumpToScope => q.scope_stack_postcondition.scopes@.len() > 0
            || q.scope_stack_postcondition.variable is Some,
        NodeKind::Definition { .. } => q.symbol_stack_postcondition.symbols@.len() == 0,
        _ => false,
    }
}

/// See [`PartialPath::is_productive`].
pub open spec fn spec_is_productive(q: PartialPath) -> bool {
    !(q.start_node == q.end_node && q.symbol_stack_precondition.symbols@.len() == 0
        && q.symbol_stack_postcondition.symbols@.len() == 0)
}

/// Compares two partial scope stacks by value.
pub fn eq_pscopes(a: &PartialScopeStack, b: &PartialScopeStack) -> (r: bool)
    ensures
        r == (pscopes_v(*a) == pscopes_v(*b)),
{
    let vars_equal = match (a.variable, b.variable) {
        (None, None) => true,
        (Some(x), Some(y)) => x == y,
        _ => false,
    };
    vars_equal && eq_scopes(&a.scopes, &b.scopes)
}

/// Compares two partial symbol stacks by value.
#[verifier::loop_isolation(false)]
pub fn eq_psym(a: &PartialSymbolStack, b: &PartialSymbolStack) -> (r: bool)
    ensures
        r == (psym_v(*a) == psym_v(*b)),
{
    let vars_equal = match (a.variable, b.variable) {
        (None, None) => true,
        (Some(x), Some(y)) => x == y,
        _ => false,
    };
    if !vars_equal {
        return false;
    }
    if a.symbols.len() != b.symbols.len() {
        proof {
            assert(psym_view(a.symbols@).len() != psym_view(b.symbols@).len());
        }
        return false;
    }
    let mut i: usize = 0;
    while i < a.symbols.len()
        invariant
            a.symbols@.len() == b.symbols@.len(),
            0 <= i <= a.symbols@.len(),
            forall|j: int| 0 <= j < i ==> pelem_v(a.symbols@[j]) == pelem_v(b.symbols@[j]),
        decreases a.symbols@.len() - i,
    {
        let x = &a.symbols[i];
        let y = &b.symbols[i];
        let elems_equal = x.symbol == y.symbol && match (&x.scopes, &y.scopes) {
            (None, None) => true,
            (Some(xs), Some(ys)) => eq_pscopes(xs, ys),
            _ => false,
        };
        if !elems_equal {
            proof {
                assert(pelem_v(a.symbols@[i as int]) != pelem_v(b.symbols@[i as int]));
                assert(psym_view(a.symbols@)[i as int] != psym_view(b.symbols@)[i as int]);
            }
            return false;
        }
        i = i + 1;
    }
    proof {
        assert(psym_view(a.symbols@) =~= psym_view(b.symbols@));
    }
    true
}

impl HasPathKey for PartialPath {
    type V = PartialPathV;

    open spec fn v(&self) -> PartialPathV {
        self.view_v()
    }

    /// A partial path is strictly shorter when it has fewer edges and its
    /// combined precondition and postcondition symbol stacks are no longer.
    open spec fn shorter_spec(&self, other: &Self) -> bool {
        self.edges@.len() < other.edges@.len() && self.symbol_stack_precondition.symbols@.len()
            + self.symbol_stack_postcondition.symbols@.len()
            <= other.symbol_stack_precondition.symbols@.len()
            + other.symbol_stack_postcondition.symbols@.len()
    }

    fn is_shorter_than(&self, other: &Self) -> (r: bool) {
        self.edges.len() < other.edges.len() && (self.symbol_stack_precondition.symbols.len()
            as u128) + (self.symbol_stack_postcondition.symbols.len() as u128)
            <= (other.symbol_stack_precondition.symbols.len() as u128)
            + (other.symbol_stack_postcondition.symbols.len() as u128)
    }

    fn same_path(&self, other: &Self) -> (r: bool) {
        let r = self.start_node == other.start_node && self.end_node == other.end_node
            && eq_edges(&self.edges, &other.edges) && eq_psym(
            &self.symbol_stack_precondition,
            &other.symbol_stack_precondition,
        ) && eq_psym(&self.symbol_stack_postcondition, &other.symbol_stack_postcondition)
            && eq_pscopes(&self.scope_stack_precondition, &other.scope_stack_precondition)
            && eq_pscopes(&self.scope_stack_postcondition, &other.scope_stack_postcondition);
        proof {
            if r {
                assert(self.view_v() =~~= other.view_v());
            } else {
                assert(self.view_v() != other.view_v());
            }
        }
        r
    }

    fn duplicate(&self) -> (r: Self) {
        self.duplicate_partial()
    }
}

/// Extends `q` by one step along `e`, applying the transition of `e.sink`
/// to the pre/post stacks, or returns `None` when the step is not legal. A
/// pure function of its arguments: equal inputs give equal outputs.
#[verifier::loop_isolation(false)]
pub fn extend(g: &StackGraph, q: &PartialPath, e: Edge) -> (r: Option<PartialPath>)
    requires
        g.wf(),
        q.valid(*g),
        e.source == q.end_node,
        e.sink < g.nodes@.len(),
    ensures
        r is Some <==> spec_pstep(*g, q.pstate_v(), e) is Some,
        r is Some ==> {
            let p = r.unwrap();
            &&& p.start_node == q.start_node
            &&& p.edges@ == q.edges@.push(e)
            &&& Some(p.pstate_v()) == spec_pstep(*g, q.pstate_v(), e)
            &&& p.view_v() == pext_view(*g, *q, e)
            &&& p.valid(*g)
        },
{
    let from_jump = match g.nodes[q.end_node].kind {
        NodeKind::JumpToScope => true,
        _ => false,
    };
    let mut scope_post: PartialScopeStack;
    if from_jump {
        if q.scope_stack_postcondition.scopes.len() == 0 {
            return None;
        }
        if q.scope_stack_postcondition.scopes[0] != e.sink {
            return None;
        }
        scope_post = PartialScopeStack {
            scopes: copy_scopes_from(&q.scope_stack_postcondition.scopes, 1),
            variable: q.scope_stack_postcondition.variable,
        };
    } else {
        scope_post = copy_pscopes(&q.scope_stack_postcondition);
    }
    let mut sym_pre = copy_psym(&q.symbol_stack_precondition);
    let mut sym_post = copy_psym(&q.symbol_stack_postcondition);
    let ghost mid = PPStateV {
        end: q.end_node,
        sym_pre: psym_v(sym_pre),
        sym_post: psym_v(sym_post),
        scope_pre: pscopes_v(q.scope_stack_precondition),
        scope_post: pscopes_v(scope_post),
    };
    proof {
        assert(spec_pstep(*g, q.pstate_v(), e) == spec_parrive(*g, mid, e.sink));
    }
    match g.nodes[e.sink].kind {
        NodeKind::Root | NodeKind::JumpToScope | NodeKind::InternalScope
            | NodeKind::ExportedScope => {
        },
        NodeKind::DropScopes => {
            scope_post = PartialScopeStack { scopes: Vec::new(), variable: None };
        },
        NodeKind::PushSymbol { symbol } | NodeKind::Reference { symbol } => {
            let mut symbols: Vec<PartialScopedSymbol> = Vec::new();
            symbols.push(PartialScopedSymbol { symbol, scopes: None });
            let ghost head = symbols@;
            let mut rest = sym_post.symbols;
            let ghost rest0 = rest@;
            symbols.append(&mut rest);
            proof {
                assert(symbols@ =~= head + rest0);
                lemma_psym_view_concat(head, rest0);
                assert(psym_view(head) =~= seq![PElemV { symbol, scopes: None }]);
                assert(psym_view(symbols@) =~= seq![PElemV { symbol, scopes: None }]
                    + mid.sym_post.symbols);
            }
            sym_post = PartialSymbolStack { symbols, variable: sym_post.variable };
        },
        NodeKind::PushScopedSymbol { symbol, attached_scope } => {
            let mut att: Vec<usize> = Vec::new();
            att.push(attached_scope);
            let mut rest_scopes = copy_scopes_from(&scope_post.scopes, 0);
            let ghost rs0 = rest_scopes@;
            att.append(&mut rest_scopes);
            proof {
                assert(scope_post.scopes@.skip(0) =~= scope_post.scopes@);
                assert(att@ =~= seq![attached_scope] + mid.scope_post.scopes);
            }
            let attached = PartialScopeStack { scopes: att, variable: scope_post.variable };
            let ghost att_elem = PartialScopedSymbol { symbol, scopes: Some(attached) };
            let mut symbols: Vec<PartialScopedSymbol> = Vec::new();
            symbols.push(PartialScopedSymbol { symbol, scopes: Some(attached) });
            let ghost head = symbols@;
            let mut rest = sym_post.symbols;
            let ghost rest0 = rest@;
            symbols.append(&mut rest);
            proof {
                assert(symbols@ =~= head + rest0);
                lemma_psym_view_concat(head, rest0);
                assert(psym_view(head) =~= seq![pelem_v(att_elem)]);
                assert(pelem_v(att_elem) =~~= PElemV {
                    symbol,
                    scopes: Some(
                        PScopesV {
                            scopes: seq![attached_scope] + mid.scope_post.scopes,
                            variable: mid.scope_post.variable,
                        },
                    ),
                });
                assert(psym_view(symbols@) =~= seq![pelem_v(att_elem)] + mid.sym_post.symbols);
            }
            sym_post = PartialSymbolStack { symbols, variable: sym_post.variable };
        },
        NodeKind::PopSymbol { symbol } | NodeKind::Definition { symbol } => {
            if sym_post.symbols.len() > 0 {
                let matches_head = sym_post.symbols[0].symbol == symbol
                    && sym_post.symbols[0].scopes.is_none();
                if !matches_head {
                    return None;
                }
                let shorter = copy_psym_from(&sym_post.symbols, 1);
                proof {
                    assert(psym_view(sym_post.symbols@).skip(1) =~= mid.sym_post.symbols
                        .drop_first());
                }
                sym_post = PartialSymbolStack { symbols: shorter, variable: sym_post.variable };
            } else if sym_post.variable.is_some() {
                let ghost pre0 = sym_pre.symbols@;
                sym_pre.symbols.push(PartialScopedSymbol { symbol, scopes: None });
                proof {
                    assert(psym_view(sym_pre.symbols@) =~= psym_view(pre0).push(
                        PElemV { symbol, scopes: None },
                    ));
                }
            } else {
                return None;
            }
        },
        NodeKind::PopScopedSymbol { symbol } => {
            if sym_post.symbols.len() > 0 {
                let matches_head = sym_post.symbols[0].symbol == symbol
                    && sym_post.symbols[0].scopes.is_some();
                if !matches_head {
                    return None;
                }
                scope_post = match &sym_post.symbols[0].scopes {
                    Some(sc) => copy_pscopes(sc),
                    None => PartialScopeStack { scopes: Vec::new(), variable: None },
                };
                let shorter = copy_psym_from(&sym_post.symbols, 1);
                proof {
                    assert(psym_view(sym_post.symbols@).skip(1) =~= mid.sym_post.symbols
                        .drop_first());
                    assert(pscopes_v(scope_post) == mid.sym_post.symbols[0].scopes.unwrap());
                }
                sym_post = PartialSymbolStack { symbols: shorter, variable: sym_post.variable };
            } else if sym_post.variable.is_some() {
                // the unknown context supplies the attached scopes: invent a
                // fresh scope variable for them
                let a = match q.scope_stack_precondition.variable {
                    Some(n) => n,
                    None => 0,
                };
                let b = match scope_post.variable {
                    Some(n) => n,
                    None => 0,
                };
                let c = psym_max_exec(&sym_pre.symbols);
                let d = psym_max_exec(&sym_post.symbols);
                let m1 = if a > b {
                    a
                } else {
                    b
                };
                let m2 = if c > d {
                    c
                } else {
                    d
                };
                let m3 = if m1 > m2 {
                    m1
                } else {
                    m2
                };
                let top = if m3 > 1 {
                    m3
                } else {
                    1
                };
                proof {
                    assert(top as int == state_max_var(mid));
                }
                if top >= usize::MAX - 1 {
                    return None;
                }
                let fresh = top + 1;
                let ghost pre0 = sym_pre.symbols@;
                sym_pre.symbols.push(
                    PartialScopedSymbol {
                        symbol,
                        scopes: Some(
                            PartialScopeStack { scopes: Vec::new(), variable: Some(fresh) },
                        ),
                    },
                );
                scope_post = PartialScopeStack { scopes: Vec::new(), variable: Some(fresh) };
                proof {
                    assert(psym_view(sym_pre.symbols@) =~= psym_view(pre0).push(
                        PElemV {
                            symbol,
                            scopes: Some(
                                PScopesV { scopes: Seq::empty(), variable: Some(fresh) },
                            ),
                        },
                    ));
                    assert(pscopes_v(scope_post) =~~= PScopesV {
                        scopes: Seq::empty(),
                        variable: Some(fresh),
                    });
                }
            } else {
                return None;
            }
        },
    }
    let mut edges = copy_edges(&q.edges);
    edges.push(e);
    let p = PartialPath {
        start_node: q.start_node,
        end_node: e.sink,
        symbol_stack_precondition: sym_pre,
        symbol_stack_postcondition: sym_post,
        scope_stack_precondition: copy_pscopes(&q.scope_stack_precondition),
        scope_stack_postcondition: scope_post,
        edges,
    };
    proof {
        assert(Some(p.pstate_v()) =~~= spec_pstep(*g, q.pstate_v(), e));
        assert(p.view_v() =~~= pext_view(*g, *q, e));
    }
    Some(p)
}

/// The values of a sequence of partial paths, in order.
pub open spec fn pviews_of(s: Seq<PartialPath>) -> Seq<PartialPathV> {
    s.map_values(|q: PartialPath| q.view_v())
}

/// The values of the partial paths a detector has admitted under `key`.
pub open spec fn pstored_views(
    d: crate::cycles::CycleDetector<PartialPath>,
    key: PathKey,
) -> Seq<PartialPathV> {
    d.stored(key).map_values(|q: PartialPath| q.view_v())
}

/// The endpoint signature of a partial-path value.
pub open spec fn pkey_of_v(pv: PartialPathV) -> PathKey {
    PathKey {
        start_node: pv.start,
        start_symbol_stack_head: if pv.sym_pre.symbols.len() > 0 {
            Some(pv.sym_pre.symbols[0].symbol)
        } else {
            None
        },
        start_scope_stack_head: if pv.scope_pre.scopes.len() > 0 {
            Some(pv.scope_pre.scopes[0])
        } else {
            None
        },
        end_node: pv.end,
        end_symbol_stack_head: if pv.sym_post.symbols.len() > 0 {
            Some(pv.sym_post.symbols[0].symbol)
        } else {
            None
        },
        end_scope_stack_head: if pv.scope_post.scopes.len() > 0 {
            Some(pv.scope_post.scopes[0])
        } else {
            None
        },
    }
}

/// The "strictly shorter" relation of partial-path values: fewer edges and
/// combined precondition and postcondition symbol stacks no longer.
pub open spec fn pshorter_v(a: PartialPathV, b: PartialPathV) -> bool {
    a.edges.len() < b.edges.len() && a.sym_pre.symbols.len() + a.sym_post.symbols.len()
        <= b.sym_pre.symbols.len() + b.sym_post.symbols.len()
}

/// The values in `s` whose endpoint signature is `key`, in order.
pub open spec fn pwith_key_v(s: Seq<PartialPathV>, key: PathKey) -> Seq<PartialPathV>
    decreases s.len(),
{
    if s.len() == 0 {
        Seq::empty()
    } else if pkey_of_v(s[0]) == key {
        seq![s[0]] + pwith_key_v(s.drop_first(), key)
    } else {
        pwith_key_v(s.drop_first(), key)
    }
}

/// How many values in `s` are strictly shorter than `pv`.
pub open spec fn pcount_shorter_v(s: Seq<PartialPathV>, pv: PartialPathV) -> int
    decreases s.len(),
{
    if s.len() == 0 {
        0int
    } else {
        (if pshorter_v(s[0], pv) {
            1int
        } else {
            0int
        }) + pcount_shorter_v(s.drop_first(), pv)
    }
}

/// Whether `pv` occurs in `s`.
pub open spec fn phas_same_v(s: Seq<PartialPathV>, pv: PartialPathV) -> bool {
    exists|i: int| 0 <= i < s.len() && s[i] == pv
}

/// The value of the identity partial path seeded at `n`.
pub open spec fn pseed_view(g: StackGraph, n: usize) -> PartialPathV {
    let st = spec_pseed(g, n);
    PartialPathV {
        start: n,
        end: n,
        sym_pre: st.sym_pre,
        sym_post: st.sym_post,
        scope_pre: st.scope_pre,
        scope_post: st.scope_post,
        edges: Seq::empty(),
    }
}

/// The value of `q` extended along `e`, when the step is legal.
pub open spec fn pext_view(g: StackGraph, q: PartialPath, e: Edge) -> PartialPathV {
    let st = spec_pstep(g, q.pstate_v(), e).unwrap();
    PartialPathV {
        start: q.start_node,
        end: st.end,
        sym_pre: st.sym_pre,
        sym_post: st.sym_post,
        scope_pre: st.scope_pre,
        scope_post: st.scope_post,
        edges: q.edges@.push(e),
    }
}

/// The jump a partial path ending at a jump-to-scope node can take: to the
/// concrete top of its postcondition scope stack.
pub open spec fn pjump_edge(q: PartialPath) -> Edge {
    Edge { source: q.end_node, sink: q.scope_stack_postcondition.scopes@[0], precedence: 0 }
}

/// A candidate of this value was either emitted or refused by the cycle
/// detector: an equal value was emitted, or more than
/// [`MAX_SIMILAR_PATH_COUNT`](crate::cycles::MAX_SIMILAR_PATH_COUNT)
/// emitted values under its endpoint signature are strictly shorter.
pub open spec fn pemitted_or_refused(vs: Seq<PartialPathV>, pv: PartialPathV) -> bool {
    phas_same_v(vs, pv) || pcount_shorter_v(pwith_key_v(vs, pkey_of_v(pv)), pv)
        > crate::cycles::MAX_SIMILAR_PATH_COUNT
}

/// Every legal one-step in-file extension of `q` is accounted for against
/// the emitted values `vs`: it was emitted, or the detector refused it.
pub open spec fn pextensions_covered(
    g: StackGraph,
    file: usize,
    vs: Seq<PartialPathV>,
    q: PartialPath,
) -> bool {
    if g.kind_at(q.end_node as int) is JumpToScope {
        (q.scope_stack_postcondition.scopes@.len() > 0 && node_in_file(
            g,
            q.scope_stack_postcondition.scopes@[0],
            file,
        ) && spec_pstep(g, q.pstate_v(), pjump_edge(q)) is Some) ==> pemitted_or_refused(
            vs,
            pext_view(g, q, pjump_edge(q)),
        )
    } else {
        forall|ei: int|
            0 <= ei < g.out_edges(q.end_node as int).len() && node_in_file(
                g,
                (#[trigger] g.out_edges(q.end_node as int)[ei]).sink,
                file,
            ) && spec_pstep(g, q.pstate_v(), g.out_edges(q.end_node as int)[ei]) is Some
                ==> pemitted_or_refused(vs, pext_view(g, q, g.out_edges(q.end_node as int)[ei]))
    }
}

/// Every legal one-step in-file extension of `q` has a path of its value
/// in `qs`.
pub open spec fn pextensions_queued(
    g: StackGraph,
    file: usize,
    qs: Seq<PartialPath>,
    q: PartialPath,
) -> bool {
    if g.kind_at(q.end_node as int) is JumpToScope {
        (q.scope_stack_postcondition.scopes@.len() > 0 && node_in_file(
            g,
            q.scope_stack_postcondition.scopes@[0],
            file,
        ) && spec_pstep(g, q.pstate_v(), pjump_edge(q)) is Some) ==> pqueued_value(
            qs,
            pext_view(g, q, pjump_edge(q)),
        )
    } else {
        forall|ei: int|
            0 <= ei < g.out_edges(q.end_node as int).len() && node_in_file(
                g,
                (#[trigger] g.out_edges(q.end_node as int)[ei]).sink,
                file,
            ) && spec_pstep(g, q.pstate_v(), g.out_edges(q.end_node as int)[ei]) is Some
                ==> pqueued_value(qs, pext_view(g, q, g.out_edges(q.end_node as int)[ei]))
    }
}

/// Whether some partial path in `qs` has the value `pv`.
pub open spec fn pqueued_value(qs: Seq<PartialPath>, pv: PartialPathV) -> bool {
    exists|m: int| 0 <= m < qs.len() && (#[trigger] qs[m]).view_v() == pv
}

/// A partial path's endpoint signature is a function of its value.
proof fn lemma_pkey_agrees(q: PartialPath)
    ensures
        q.key_spec() == pkey_of_v(q.view_v()),
{
    if q.symbol_stack_precondition.symbols@.len() > 0 {
        assert(q.view_v().sym_pre.symbols[0] == pelem_v(q.symbol_stack_precondition.symbols@[0]));
    }
    if q.symbol_stack_postcondition.symbols@.len() > 0 {
        assert(q.view_v().sym_post.symbols[0] == pelem_v(
            q.symbol_stack_postcondition.symbols@[0],
        ));
    }
}

/// Over sequences that agree in values, the detector's equality and
/// shorter-count agree with their value-level forms.
proof fn lemma_pviews_agree(s: Seq<PartialPath>, t: Seq<PartialPathV>, q: PartialPath)
    requires
        s.len() == t.len(),
        forall|i: int| 0 <= i < s.len() ==> (#[trigger] s[i]).view_v() == t[i],
    ensures
        crate::cycles::has_same(s, q) == phas_same_v(t, q.view_v()),
        crate::cycles::count_shorter(s, q) == pcount_shorter_v(t, q.view_v()),
    decreases s.len(),
{
    if s.len() > 0 {
        lemma_pviews_agree(s.drop_first(), t.drop_first(), q);
        assert(s[0].view_v() == t[0]);
        assert(s[0].v() == s[0].view_v());
        assert(psym_view(s[0].symbol_stack_precondition.symbols@).len()
            == s[0].symbol_stack_precondition.symbols@.len());
        assert(psym_view(s[0].symbol_stack_postcondition.symbols@).len()
            == s[0].symbol_stack_postcondition.symbols@.len());
        assert(psym_view(q.symbol_stack_precondition.symbols@).len()
            == q.symbol_stack_precondition.symbols@.len());
        assert(psym_view(q.symbol_stack_postcondition.symbols@).len()
            == q.symbol_stack_postcondition.symbols@.len());
        assert(s[0].shorter_spec(&q) == pshorter_v(t[0], q.view_v()));
        if crate::cycles::has_same(s, q) {
            let i = choose|i: int| 0 <= i < s.len() && (#[trigger] s[i]).v() == q.v();
            assert(t[i] == q.view_v());
        }
        if phas_same_v(t, q.view_v()) {
            let i = choose|i: int| 0 <= i < t.len() && t[i] == q.view_v();
            assert(s[i].v() == q.v());
        }
    }
}

/// Appending a value extends exactly the bucket of its own signature.
proof fn lemma_pwith_key_push(s: Seq<PartialPathV>, key: PathKey, x: PartialPathV)
    ensures
        pkey_of_v(x) == key ==> pwith_key_v(s.push(x), key) =~= pwith_key_v(s, key).push(x),
        pkey_of_v(x) != key ==> pwith_key_v(s.push(x), key) =~= pwith_key_v(s, key),
    decreases s.len(),
{
    if s.len() == 0 {
        assert(s.push(x).drop_first() =~= Seq::<PartialPathV>::empty());
        assert(s.push(x)[0] == x);
        assert(pwith_key_v(Seq::<PartialPathV>::empty(), key) =~= Seq::<PartialPathV>::empty());
        assert(pwith_key_v(s, key) =~= Seq::<PartialPathV>::empty());
        if pkey_of_v(x) == key {
            assert(pwith_key_v(s.push(x), key) =~= seq![x]);
            assert(pwith_key_v(s, key).push(x) =~= seq![x]);
        } else {
            assert(pwith_key_v(s.push(x), key) =~= Seq::<PartialPathV>::empty());
        }
    } else {
        lemma_pwith_key_push(s.drop_first(), key, x);
        assert(s.push(x).drop_first() =~= s.drop_first().push(x));
        assert(s.push(x)[0] == s[0]);
        if pkey_of_v(s[0]) == key {
            assert(pwith_key_v(s.push(x), key) =~= seq![s[0]] + pwith_key_v(
                s.drop_first().push(x),
                key,
            ));
            if pkey_of_v(x) == key {
                assert(pwith_key_v(s.push(x), key) =~= seq![s[0]] + pwith_key_v(
                    s.drop_first(),
                    key,
                ).push(x));
                assert(seq![s[0]] + pwith_key_v(s.drop_first(), key).push(x) =~= (seq![s[0]]
                    + pwith_key_v(s.drop_first(), key)).push(x));
            } else {
                assert(pwith_key_v(s.push(x), key) =~= seq![s[0]] + pwith_key_v(
                    s.drop_first(),
                    key,
                ));
            }
        } else {
            assert(pwith_key_v(s.push(x), key) == pwith_key_v(s.drop_first().push(x), key));
            assert(pwith_key_v(s, key) == pwith_key_v(s.drop_first(), key));
        }
    }
}

/// A value found in one signature's bucket is found in the whole sequence.
proof fn lemma_pwith_key_member(s: Seq<PartialPathV>, key: PathKey, pv: PartialPathV)
    requires
        phas_same_v(pwith_key_v(s, key), pv),
    ensures
        phas_same_v(s, pv),
    decreases s.len(),
{
    if s.len() > 0 {
        if pkey_of_v(s[0]) == key {
            let t = pwith_key_v(s, key);
            let i = choose|i: int| 0 <= i < t.len() && t[i] == pv;
            if i == 0 {
                assert(s[0] == pv);
            } else {
                assert(t =~= seq![s[0]] + pwith_key_v(s.drop_first(), key));
                assert(pwith_key_v(s.drop_first(), key)[i - 1] == pv);
                assert(phas_same_v(pwith_key_v(s.drop_first(), key), pv));
                lemma_pwith_key_member(s.drop_first(), key, pv);
                let j = choose|j: int|
                    0 <= j < s.drop_first().len() && (#[trigger] s.drop_first()[j]) == pv;
                assert(s[j + 1] == pv);
            }
        } else {
            assert(pwith_key_v(s, key) == pwith_key_v(s.drop_first(), key));
            lemma_pwith_key_member(s.drop_first(), key, pv);
            let j = choose|j: int|
                0 <= j < s.drop_first().len() && (#[trigger] s.drop_first()[j]) == pv;
            assert(s[j + 1] == pv);
        }
    }
}

/// Appending one value adds its indicator to the shorter-count.
proof fn lemma_pcount_v_push(t: Seq<PartialPathV>, x: PartialPathV, pv: PartialPathV)
    ensures
        pcount_shorter_v(t.push(x), pv) == pcount_shorter_v(t, pv) + if pshorter_v(x, pv) {
            1int
        } else {
            0int
        },
    decreases t.len(),
{
    if t.len() == 0 {
        assert(t.push(x).drop_first() =~= Seq::<PartialPathV>::empty());
        assert(t.push(x)[0] == x);
        assert(pcount_shorter_v(Seq::<PartialPathV>::empty(), pv) == 0);
        assert(pcount_shorter_v(t, pv) == 0);
    } else {
        lemma_pcount_v_push(t.drop_first(), x, pv);
        assert(t.push(x).drop_first() =~= t.drop_first().push(x));
        assert(t.push(x)[0] == t[0]);
        assert(pcount_shorter_v(t.drop_first().push(x), pv) == pcount_shorter_v(
            t.drop_first(),
            pv,
        ) + if pshorter_v(x, pv) {
            1int
        } else {
            0int
        });
    }
}

/// Nothing is strictly shorter than an empty-edge value.
proof fn lemma_pcount_v_none(t: Seq<PartialPathV>, pv: PartialPathV)
    requires
        pv.edges.len() == 0,
    ensures
        pcount_shorter_v(t, pv) == 0,
    decreases t.len(),
{
    if t.len() > 0 {
        lemma_pcount_v_none(t.drop_first(), pv);
    }
}

/// A queued-value witness persists when the worklist grows.
proof fn lemma_pqueued_push(qs: Seq<PartialPath>, x: PartialPath, pv: PartialPathV)
    requires
        pqueued_value(qs, pv),
    ensures
        pqueued_value(qs.push(x), pv),
{
    let m = choose|m: int| 0 <= m < qs.len() && (#[trigger] qs[m]).view_v() == pv;
    assert(qs.push(x)[m] == qs[m]);
}

/// Growing the worklist keeps every queued-extension witness.
proof fn lemma_pext_queued_push(
    g: StackGraph,
    file: usize,
    qs: Seq<PartialPath>,
    x: PartialPath,
    q: PartialPath,
)
    requires
        pextensions_queued(g, file, qs, q),
    ensures
        pextensions_queued(g, file, qs.push(x), q),
{
    if g.kind_at(q.end_node as int) is JumpToScope {
        if q.scope_stack_postcondition.scopes@.len() > 0 && node_in_file(
            g,
            q.scope_stack_postcondition.scopes@[0],
            file,
        ) && spec_pstep(g, q.pstate_v(), pjump_edge(q)) is Some {
            lemma_pqueued_push(qs, x, pext_view(g, q, pjump_edge(q)));
        }
    } else {
        assert forall|ei: int|
            0 <= ei < g.out_edges(q.end_node as int).len() && node_in_file(
                g,
                (#[trigger] g.out_edges(q.end_node as int)[ei]).sink,
                file,
            ) && spec_pstep(g, q.pstate_v(), g.out_edges(q.end_node as int)[ei]) is Some implies pqueued_value(
            qs.push(x),
            pext_view(g, q, g.out_edges(q.end_node as int)[ei]),
        ) by {
            lemma_pqueued_push(qs, x, pext_view(g, q, g.out_edges(q.end_node as int)[ei]));
        }
    }
}

/// Every partial path this search hands back is well formed: its edges lie
/// in the file (or touch the root or a jump-to-scope boundary), and its
/// stacks are what replaying the walk from its start node's seed stacks
/// produces, the precondition recording exactly what the walk demanded of
/// its context.
pub open spec fn presults_ok(g: StackGraph, file: usize, rs: Seq<PartialPath>) -> bool {
    forall|i: int|
        0 <= i < rs.len() ==> {
            &&& ppath_ok(g, #[trigger] rs[i])
            &&& rs[i].valid(g)
            &&& node_in_file(g, rs[i].start_node, file)
            &&& node_in_file(g, rs[i].end_node, file)
            &&& forall|k: int|
                0 <= k < rs[i].edges@.len() ==> node_in_file(
                    g,
                    (#[trigger] rs[i].edges@[k]).source,
                    file,
                ) && node_in_file(g, rs[i].edges@[k].sink, file)
        }
}

/// Finds the partial paths of one file: seeds one identity partial path at
/// the root and at every node of the file, and repeatedly extends, breadth
/// first, every admitted path along the out-edges of its end node that stay
/// in the file or reach the root or a jump-to-scope node, asking the cycle
/// detector before processing each path. Every processed path is returned;
/// callers keep the complete-as-possible, productive ones. `limit` bounds
/// the number of paths processed; the second component of the result says
/// whether the search ran to exhaustion within it. The contract pins the
/// enumeration: every seed is emitted, each emission is new and within the
/// detector's similarity cap for its endpoint signature, and, when the
/// search completed, every legal in-file extension of an emitted path was
/// itself emitted or refused by the cap.
#[verifier::loop_isolation(false)]
#[verifier::rlimit(100)]
pub fn find_all_partial_paths_in_file(g: &StackGraph, file: usize, limit: usize) -> (r: (
    Vec<PartialPath>,
    bool,
))
    requires
        g.wf(),
        file < g.files@.len(),
    ensures
        presults_ok(*g, file, r.0@),
        forall|j: int|
            0 <= j < r.0@.len() ==> !phas_same_v(
                pwith_key_v(pviews_of(r.0@).take(j), pkey_of_v(pviews_of(r.0@)[j])),
                #[trigger] pviews_of(r.0@)[j],
            ),
        forall|j: int|
            0 <= j < r.0@.len() ==> pcount_shorter_v(
                pwith_key_v(pviews_of(r.0@).take(j), pkey_of_v(pviews_of(r.0@)[j])),
                #[trigger] pviews_of(r.0@)[j],
            ) <= crate::cycles::MAX_SIMILAR_PATH_COUNT,
        limit > 0 ==> phas_same_v(pviews_of(r.0@), pseed_view(*g, 0)),
        r.1 ==> phas_same_v(pviews_of(r.0@), pseed_view(*g, 0)),
        r.1 ==> forall|n: int|
            0 <= n < g.nodes@.len() && (#[trigger] g.nodes@[n]).file == Some(file)
                ==> phas_same_v(pviews_of(r.0@), pseed_view(*g, n as usize)),
        r.1 ==> forall|j: int|
            0 <= j < r.0@.len() ==> pextensions_covered(
                *g,
                file,
                pviews_of(r.0@),
                #[trigger] r.0@[j],
            ),
{
    let n = g.nodes.len();
    let mut queue: Vec<PartialPath> = Vec::new();
    let seed = PartialPath::from_node(g, 0);
    queue.push(seed);
    proof {
        assert(queue@[0].view_v() == pseed_view(*g, 0));
        assert(pqueued_value(queue@, pseed_view(*g, 0)));
    }
    let mut k: usize = 1;
    while k < n
        invariant
            1 <= k <= n,
            n == g.nodes@.len(),
            queue@.len() >= 1,
            queue@[0].view_v() == pseed_view(*g, 0),
            pqueued_value(queue@, pseed_view(*g, 0)),
            forall|m: int|
                1 <= m < k && (#[trigger] g.nodes@[m]).file == Some(file) ==> pqueued_value(
                    queue@,
                    pseed_view(*g, m as usize),
                ),
            forall|i: int|
                0 <= i < queue@.len() ==> {
                    &&& ppath_ok(*g, #[trigger] queue@[i])
                    &&& queue@[i].valid(*g)
                    &&& node_in_file(*g, queue@[i].start_node, file)
                    &&& node_in_file(*g, queue@[i].end_node, file)
                    &&& forall|kk: int|
                        0 <= kk < queue@[i].edges@.len() ==> node_in_file(
                            *g,
                            (#[trigger] queue@[i].edges@[kk]).source,
                            file,
                        ) && node_in_file(*g, queue@[i].edges@[kk].sink, file)
                },
        decreases n - k,
    {
        let in_file = match g.nodes[k].file {
            Some(f) => f == file,
            None => false,
        };
        if in_file {
            let ghost q0 = queue@;
            let seed = PartialPath::from_node(g, k);
            queue.push(seed);
            proof {
                assert(queue@ =~= q0.push(seed));
                assert(queue@[queue@.len() - 1].view_v() == pseed_view(*g, k));
                lemma_pqueued_push(q0, seed, pseed_view(*g, 0));
                assert forall|m: int|
                    1 <= m < k + 1 && (#[trigger] g.nodes@[m]).file == Some(file) implies pqueued_value(
                    queue@,
                    pseed_view(*g, m as usize),
                ) by {
                    if m < k {
                        lemma_pqueued_push(q0, seed, pseed_view(*g, m as usize));
                    }
                }
            }
        }
        k = k + 1;
    }
    let mut detector: crate::cycles::CycleDetector<PartialPath> =
        crate::cycles::CycleDetector::new();
    let mut results: Vec<PartialPath> = Vec::new();
    let mut i: usize = 0;
    let mut fuel: usize = limit;
    proof {
        assert(pviews_of(results@) =~= Seq::<PartialPathV>::empty());
        assert forall|key: PathKey| #[trigger] pstored_views(detector, key) =~= pwith_key_v(
            pviews_of(results@),
            key,
        ) by {
            assert(detector.stored(key).len() == 0);
        }
    }
    while i < queue.len() && fuel > 0
        invariant
            0 <= i <= queue@.len(),
            i + fuel == limit,
            n == g.nodes@.len(),
            queue@.len() >= 1,
            queue@[0].view_v() == pseed_view(*g, 0),
            i > 0 ==> phas_same_v(pviews_of(results@), pseed_view(*g, 0)),
            pqueued_value(queue@, pseed_view(*g, 0)),
            forall|m: int|
                1 <= m < n && (#[trigger] g.nodes@[m]).file == Some(file) ==> pqueued_value(
                    queue@,
                    pseed_view(*g, m as usize),
                ),
            forall|j: int|
                0 <= j < queue@.len() ==> {
                    &&& ppath_ok(*g, #[trigger] queue@[j])
                    &&& queue@[j].valid(*g)
                    &&& node_in_file(*g, queue@[j].start_node, file)
                    &&& node_in_file(*g, queue@[j].end_node, file)
                    &&& forall|kk: int|
                        0 <= kk < queue@[j].edges@.len() ==> node_in_file(
                            *g,
                            (#[trigger] queue@[j].edges@[kk]).source,
                            file,
                        ) && node_in_file(*g, queue@[j].edges@[kk].sink, file)
                },
            presults_ok(*g, file, results@),
            forall|key: PathKey| #[trigger] pstored_views(detector, key) == pwith_key_v(
                pviews_of(results@),
                key,
            ),
            forall|j: int|
                0 <= j < results@.len() ==> !phas_same_v(
                    pwith_key_v(pviews_of(results@).take(j), pkey_of_v(pviews_of(results@)[j])),
                    #[trigger] pviews_of(results@)[j],
                ),
            forall|j: int|
                0 <= j < results@.len() ==> pcount_shorter_v(
                    pwith_key_v(pviews_of(results@).take(j), pkey_of_v(pviews_of(results@)[j])),
                    #[trigger] pviews_of(results@)[j],
                ) <= crate::cycles::MAX_SIMILAR_PATH_COUNT,
            forall|kk: int|
                0 <= kk < i ==> pemitted_or_refused(
                    pviews_of(results@),
                    (#[trigger] queue@[kk]).view_v(),
                ),
            forall|j: int|
                0 <= j < results@.len() ==> pextensions_queued(
                    *g,
                    file,
                    queue@,
                    #[trigger] results@[j],
                ),
        decreases fuel,
    {
        fuel = fuel - 1;
        let ghost vs0 = pviews_of(results@);
        let p = queue[i].duplicate_partial();
        proof {
            assert(p.pstate_v() == queue@[i as int].pstate_v());
            assert(ppath_ok(*g, p));
            assert(p.valid(*g));
            assert(p.edges@ == queue@[i as int].edges@);
            assert(p.view_v() == queue@[i as int].view_v());
        }
        i = i + 1;
        let key = p.path_key();
        proof {
            lemma_pkey_agrees(p);
        }
        let ghost det0 = detector;
        let ghost bucket = detector.stored(key);
        proof {
            assert(pstored_views(detector, key) == pwith_key_v(vs0, key));
            assert forall|bi: int| 0 <= bi < bucket.len() implies (#[trigger] bucket[bi]).view_v()
                == pwith_key_v(vs0, key)[bi] by {
                assert(pstored_views(detector, key)[bi] == bucket[bi].view_v());
            }
            lemma_pviews_agree(bucket, pwith_key_v(vs0, key), p);
        }
        if !detector.should_process_path(key, &p) {
            proof {
                // refused: an equal value was emitted, or the cap is hit
                if crate::cycles::has_same(bucket, p) {
                    lemma_pwith_key_member(vs0, key, p.view_v());
                }
                assert(pemitted_or_refused(vs0, p.view_v()));
                if i - 1 == 0 {
                    // a seed has no edges, so the similarity cap cannot have
                    // refused it: an equal value was already emitted
                    lemma_pcount_v_none(pwith_key_v(vs0, pkey_of_v(p.view_v())), p.view_v());
                    assert(phas_same_v(vs0, pseed_view(*g, 0)));
                }
                assert forall|k2: PathKey| #[trigger] pstored_views(detector, k2) == pwith_key_v(
                    pviews_of(results@),
                    k2,
                ) by {
                    assert(detector.stored(k2) == det0.stored(k2));
                    assert(pstored_views(det0, k2) == pwith_key_v(pviews_of(results@), k2));
                }
            }
            continue ;
        }
        let is_jump = match g.nodes[p.end_node].kind {
            NodeKind::JumpToScope => true,
            _ => false,
        };
        if is_jump {
            // the only way onward is the jump the postcondition scope
            // stack names, when its top is concrete
            if p.scope_stack_postcondition.scopes.len() > 0 {
                let target = p.scope_stack_postcondition.scopes[0];
                proof {
                    assert(p.pstate_v().scope_post.scopes[0] < g.nodes@.len());
                }
                let target_ok = match g.nodes[target].kind {
                    NodeKind::Root => true,
                    NodeKind::JumpToScope => true,
                    _ => match g.nodes[target].file {
                        Some(f) => f == file,
                        None => false,
                    },
                };
                if target_ok {
                    let e = Edge { source: p.end_node, sink: target, precedence: 0 };
                    proof {
                        assert(e == pjump_edge(p));
                    }
                    match extend(g, &p, e) {
                        Some(q) => {
                            proof {
                                assert(q.edges@.drop_last() =~= p.edges@);
                                assert(ppath_ok(*g, q));
                            }
                            let ghost q0 = queue@;
                            queue.push(q);
                            proof {
                                assert(queue@ =~= q0.push(q));
                                assert(queue@[queue@.len() - 1] == q);
                                assert(q.view_v() == pext_view(*g, p, pjump_edge(p)));
                                assert(pqueued_value(queue@, pext_view(*g, p, pjump_edge(p))));
                                lemma_pqueued_push(q0, q, pseed_view(*g, 0));
                                assert forall|m: int|
                                    1 <= m < n && (#[trigger] g.nodes@[m]).file == Some(file)
                                        implies pqueued_value(
                                    queue@,
                                    pseed_view(*g, m as usize),
                                ) by {
                                    lemma_pqueued_push(q0, q, pseed_view(*g, m as usize));
                                }
                                assert forall|jj: int|
                                    0 <= jj < results@.len() implies pextensions_queued(
                                    *g,
                                    file,
                                    queue@,
                                    #[trigger] results@[jj],
                                ) by {
                                    lemma_pext_queued_push(*g, file, q0, q, results@[jj]);
                                }
                            }
                        },
                        None => {},
                    }
                }
            }
            proof {
                assert(pextensions_queued(*g, file, queue@, p));
            }
        } else {
            let m = g.edges[p.end_node].len();
            let mut j: usize = 0;
            while j < m
                invariant
                    0 <= j <= m,
                    0 < i <= queue@.len(),
                    n == g.nodes@.len(),
                    queue@.len() >= 1,
                    queue@[0].view_v() == pseed_view(*g, 0),
                    queue@[i - 1].view_v() == p.view_v(),
                    pqueued_value(queue@, pseed_view(*g, 0)),
                    forall|mm: int|
                        1 <= mm < n && (#[trigger] g.nodes@[mm]).file == Some(file)
                            ==> pqueued_value(queue@, pseed_view(*g, mm as usize)),
                    forall|kk: int|
                        0 <= kk < i - 1 ==> pemitted_or_refused(
                            pviews_of(results@),
                            (#[trigger] queue@[kk]).view_v(),
                        ),
                    m == g.out_edges(p.end_node as int).len(),
                    p.end_node < g.nodes@.len(),
                    !(g.kind_at(p.end_node as int) is JumpToScope),
                    ppath_ok(*g, p),
                    p.valid(*g),
                    node_in_file(*g, p.start_node, file),
                    node_in_file(*g, p.end_node, file),
                    forall|kk: int|
                        0 <= kk < p.edges@.len() ==> node_in_file(
                            *g,
                            (#[trigger] p.edges@[kk]).source,
                            file,
                        ) && node_in_file(*g, p.edges@[kk].sink, file),
                    forall|jj: int|
                        0 <= jj < queue@.len() ==> {
                            &&& ppath_ok(*g, #[trigger] queue@[jj])
                            &&& queue@[jj].valid(*g)
                            &&& node_in_file(*g, queue@[jj].start_node, file)
                            &&& node_in_file(*g, queue@[jj].end_node, file)
                            &&& forall|kk: int|
                                0 <= kk < queue@[jj].edges@.len() ==> node_in_file(
                                    *g,
                                    (#[trigger] queue@[jj].edges@[kk]).source,
                                    file,
                                ) && node_in_file(*g, queue@[jj].edges@[kk].sink, file)
                        },
                    forall|jj: int|
                        0 <= jj < results@.len() ==> pextensions_queued(
                            *g,
                            file,
                            queue@,
                            #[trigger] results@[jj],
                        ),
                    forall|ei: int|
                        0 <= ei < j && node_in_file(
                            *g,
                            (#[trigger] g.out_edges(p.end_node as int)[ei]).sink,
                            file,
                        ) && spec_pstep(
                            *g,
                            p.pstate_v(),
                            g.out_edges(p.end_node as int)[ei],
                        ) is Some ==> pqueued_value(
                            queue@,
                            pext_view(*g, p, g.out_edges(p.end_node as int)[ei]),
                        ),
                decreases m - j,
            {
                let e = g.edges[p.end_node][j];
                let sink_ok = match g.nodes[e.sink].kind {
                    NodeKind::Root => true,
                    NodeKind::JumpToScope => true,
                    _ => match g.nodes[e.sink].file {
                        Some(f) => f == file,
                        None => false,
                    },
                };
                if sink_ok {
                    match extend(g, &p, e) {
                        Some(q) => {
                            proof {
                                assert(q.edges@.drop_last() =~= p.edges@);
                                assert(ppath_ok(*g, q));
                            }
                            let ghost q0 = queue@;
                            queue.push(q);
                            proof {
                                assert(queue@ =~= q0.push(q));
                                assert(queue@[queue@.len() - 1] == q);
                                assert(q.view_v() == pext_view(*g, p, e));
                                assert(pqueued_value(queue@, pext_view(*g, p, e)));
                                lemma_pqueued_push(q0, q, pseed_view(*g, 0));
                                assert forall|mm: int|
                                    1 <= mm < n && (#[trigger] g.nodes@[mm]).file == Some(file)
                                        implies pqueued_value(
                                    queue@,
                                    pseed_view(*g, mm as usize),
                                ) by {
                                    lemma_pqueued_push(q0, q, pseed_view(*g, mm as usize));
                                }
                                assert forall|jj: int|
                                    0 <= jj < results@.len() implies pextensions_queued(
                                    *g,
                                    file,
                                    queue@,
                                    #[trigger] results@[jj],
                                ) by {
                                    lemma_pext_queued_push(*g, file, q0, q, results@[jj]);
                                }
                                assert forall|ei: int|
                                    0 <= ei < j && node_in_file(
                                        *g,
                                        (#[trigger] g.out_edges(p.end_node as int)[ei]).sink,
                                        file,
                                    ) && spec_pstep(
                                        *g,
                                        p.pstate_v(),
                                        g.out_edges(p.end_node as int)[ei],
                                    ) is Some implies pqueued_value(
                                    queue@,
                                    pext_view(*g, p, g.out_edges(p.end_node as int)[ei]),
                                ) by {
                                    lemma_pqueued_push(
                                        q0,
                                        q,
                                        pext_view(*g, p, g.out_edges(p.end_node as int)[ei]),
                                    );
                                }
                            }
                        },
                        None => {},
                    }
                }
                j = j + 1;
            }
            proof {
                assert(pextensions_queued(*g, file, queue@, p));
            }
        }
        results.push(p);
        proof {
            let vs1 = pviews_of(results@);
            assert(vs1 =~= vs0.push(p.view_v()));
            assert(vs1.take(vs0.len() as int) =~= vs0);
            // the new emission is admitted against exactly its bucket
            assert(!phas_same_v(pwith_key_v(vs0, key), p.view_v()));
            assert(pcount_shorter_v(pwith_key_v(vs0, key), p.view_v())
                <= crate::cycles::MAX_SIMILAR_PATH_COUNT);
            // the detector stores a copy of the same value
            assert forall|k2: PathKey| #[trigger] pstored_views(detector, k2) == pwith_key_v(
                vs1,
                k2,
            ) by {
                lemma_pwith_key_push(vs0, k2, p.view_v());
                if k2 == key {
                    assert(detector.stored(key) =~= bucket.push(detector.stored(key).last()));
                    assert(detector.stored(key).last().v() == p.v());
                    assert(pstored_views(detector, k2) =~= pstored_views(det0, k2).push(
                        p.view_v(),
                    ));
                    assert(pstored_views(det0, k2) == pwith_key_v(vs0, k2));
                    assert(pstored_views(detector, k2) =~= pwith_key_v(vs1, k2));
                } else {
                    assert(detector.stored(k2) == det0.stored(k2));
                    assert(pstored_views(det0, k2) == pwith_key_v(vs0, k2));
                    assert(pstored_views(detector, k2) =~= pwith_key_v(vs1, k2));
                }
            }
            // earlier emissions keep their prefix facts
            assert forall|jj: int|
                0 <= jj < results@.len() implies !phas_same_v(
                    pwith_key_v(vs1.take(jj), pkey_of_v(vs1[jj])),
                    #[trigger] vs1[jj],
                ) && pcount_shorter_v(pwith_key_v(vs1.take(jj), pkey_of_v(vs1[jj])), vs1[jj])
                <= crate::cycles::MAX_SIMILAR_PATH_COUNT by {
                if jj < vs0.len() {
                    assert(vs1.take(jj) =~= vs0.take(jj));
                    assert(vs1[jj] == vs0[jj]);
                } else {
                    assert(vs1[jj] == p.view_v());
                    assert(vs1.take(jj) =~= vs0);
                }
            }
            // the root seed is among the emitted values from the first
            // iteration on
            if i - 1 == 0 {
                assert(vs1[vs0.len() as int] == p.view_v());
                assert(phas_same_v(vs1, pseed_view(*g, 0)));
            } else {
                let w = pseed_view(*g, 0);
                assert(phas_same_v(vs0, w));
                let wi = choose|wi: int| 0 <= wi < vs0.len() && vs0[wi] == w;
                assert(vs1[wi] == w);
            }
            // processed entries stay emitted or refused as results grow
            assert forall|kk: int|
                0 <= kk < i implies pemitted_or_refused(vs1, (#[trigger] queue@[kk]).view_v()) by {
                if kk == i - 1 {
                    assert(vs1[vs0.len() as int] == p.view_v());
                    assert(phas_same_v(vs1, queue@[kk].view_v()));
                } else {
                    let w = queue@[kk].view_v();
                    if phas_same_v(vs0, w) {
                        let wi = choose|wi: int| 0 <= wi < vs0.len() && vs0[wi] == w;
                        assert(vs1[wi] == w);
                    } else {
                        lemma_pwith_key_push(vs0, pkey_of_v(w), p.view_v());
                        if pkey_of_v(p.view_v()) == pkey_of_v(w) {
                            lemma_pcount_v_push(pwith_key_v(vs0, pkey_of_v(w)), p.view_v(), w);
                        }
                    }
                }
            }
        }
    }
    let complete = i == queue.len();
    proof {
        if limit > 0 {
            assert(i > 0);
            assert(phas_same_v(pviews_of(results@), pseed_view(*g, 0)));
        }
        if complete {
            let vs = pviews_of(results@);
            assert forall|m: int|
                0 <= m < queue@.len() implies pemitted_or_refused(
                vs,
                (#[trigger] queue@[m]).view_v(),
            ) by {}
            let m0 = choose|m0: int|
                0 <= m0 < queue@.len() && (#[trigger] queue@[m0]).view_v() == pseed_view(*g, 0);
            lemma_pcount_v_none(
                pwith_key_v(vs, pkey_of_v(pseed_view(*g, 0))),
                pseed_view(*g, 0),
            );
            assert(phas_same_v(vs, pseed_view(*g, 0)));
            assert forall|nn: int|
                0 <= nn < g.nodes@.len() && (#[trigger] g.nodes@[nn]).file == Some(file)
                    implies phas_same_v(vs, pseed_view(*g, nn as usize)) by {
                let mm = choose|mm: int|
                    0 <= mm < queue@.len() && (#[trigger] queue@[mm]).view_v() == pseed_view(
                        *g,
                        nn as usize,
                    );
                lemma_pcount_v_none(
                    pwith_key_v(vs, pkey_of_v(pseed_view(*g, nn as usize))),
                    pseed_view(*g, nn as usize),
                );
            }
            assert forall|j: int|
                0 <= j < results@.len() implies pextensions_covered(
                    *g,
                    file,
                    vs,
                    #[trigger] results@[j],
                ) by {
                let p = results@[j];
                assert(pextensions_queued(*g, file, queue@, p));
                if g.kind_at(p.end_node as int) is JumpToScope {
                    if p.scope_stack_postcondition.scopes@.len() > 0 && node_in_file(
                        *g,
                        p.scope_stack_postcondition.scopes@[0],
                        file,
                    ) && spec_pstep(*g, p.pstate_v(), pjump_edge(p)) is Some {
                        let w = pext_view(*g, p, pjump_edge(p));
                        assert(pqueued_value(queue@, w));
                        let mm = choose|mm: int|
                            0 <= mm < queue@.len() && (#[trigger] queue@[mm]).view_v() == w;
                        assert(pemitted_or_refused(vs, queue@[mm].view_v()));
                    }
                } else {
                    assert forall|ei: int|
                        0 <= ei < g.out_edges(p.end_node as int).len() && node_in_file(
                            *g,
                            (#[trigger] g.out_edges(p.end_node as int)[ei]).sink,
                            file,
                        ) && spec_pstep(
                            *g,
                            p.pstate_v(),
                            g.out_edges(p.end_node as int)[ei],
                        ) is Some implies pemitted_or_refused(
                        vs,
                        pext_view(*g, p, g.out_edges(p.end_node as int)[ei]),
                    ) by {
                        let w = pext_view(*g, p, g.out_edges(p.end_node as int)[ei]);
                        assert(pqueued_value(queue@, w));
                        let mm = choose|mm: int|
                            0 <= mm < queue@.len() && (#[trigger] queue@[mm]).view_v() == w;
                        assert(pemitted_or_refused(vs, queue@[mm].view_v()));
                    }
                }
            }
        }
    }
    (results, complete)
}

/// An empty-edge identity template at one node: every stack is a bare
/// variable, so that joining it onto a partial path binds its variables to
/// that path's stacks and changes nothing.
pub open spec fn identity_shaped(q: PartialPath) -> bool {
    &&& q.edges@.len() == 0
    &&& q.start_node == q.end_node
    &&& q.symbol_stack_precondition.symbols@.len() == 0
    &&& q.symbol_stack_postcondition.symbols@.len() == 0
    &&& q.symbol_stack_precondition.variable is Some
    &&& q.symbol_stack_precondition.variable == q.symbol_stack_postcondition.variable
    &&& q.scope_stack_precondition.scopes@.len() == 0
    &&& q.scope_stack_postcondition.scopes@.len() == 0
    &&& q.scope_stack_precondition.variable is Some
    &&& q.scope_stack_precondition.variable == q.scope_stack_postcondition.variable
}

/// The postcondition stacks of `l` agree exactly with the precondition
/// stacks of `r`: the join then needs no substitution at all.
pub open spec fn stacks_match(l: PartialPath, r: PartialPath) -> bool {
    &&& psym_v(l.symbol_stack_postcondition) == psym_v(r.symbol_stack_precondition)
    &&& pscopes_v(l.scope_stack_postcondition) == pscopes_v(r.scope_stack_precondition)
}

/// What unifying two facing scope stacks binds: nothing, the left tail
/// variable, or the right tail variable, each to the other side's
/// remainder. Variables occur only as tails and attached stacks must agree
/// exactly, so unification is head-by-head with one binding per pair.
pub enum ScopeUni {
    NoBind,
    BindLeft(PScopesV),
    BindRight(PScopesV),
}

/// Unifies a left-side scope stack against a right-side one under a
/// most-general substitution: the concrete prefixes must agree, and the
/// shorter side's tail variable absorbs the remainder (two equal-length
/// stacks with two variables bind the right variable to the left one).
pub open spec fn spec_unify_scopes(l: PScopesV, r: PScopesV) -> Option<ScopeUni> {
    if l.scopes.len() < r.scopes.len() {
        if l.scopes =~= r.scopes.take(l.scopes.len() as int) && l.variable is Some {
            Some(
                ScopeUni::BindLeft(
                    PScopesV { scopes: r.scopes.skip(l.scopes.len() as int), variable: r.variable },
                ),
            )
        } else {
            None
        }
    } else if l.scopes.len() > r.scopes.len() {
        if r.scopes =~= l.scopes.take(r.scopes.len() as int) && r.variable is Some {
            Some(
                ScopeUni::BindRight(
                    PScopesV { scopes: l.scopes.skip(r.scopes.len() as int), variable: l.variable },
                ),
            )
        } else {
            None
        }
    } else if l.scopes =~= r.scopes {
        match (l.variable, r.variable) {
            (None, None) => Some(ScopeUni::NoBind),
            (Some(_), None) => Some(
                ScopeUni::BindLeft(PScopesV { scopes: Seq::empty(), variable: None }),
            ),
            (None, Some(_)) => Some(
                ScopeUni::BindRight(PScopesV { scopes: Seq::empty(), variable: None }),
            ),
            (Some(_), Some(_)) => Some(
                ScopeUni::BindRight(PScopesV { scopes: Seq::empty(), variable: l.variable }),
            ),
        }
    } else {
        None
    }
}

/// What unifying the facing symbol stacks binds, analogously.
pub enum SymUni {
    NoBind,
    BindLeft(PSymV),
    BindRight(PSymV),
}

/// Unifies the left postcondition symbol stack against the right
/// precondition symbol stack: elementwise equal prefixes (symbols and
/// attached scopes alike), the shorter side's tail variable absorbing the
/// remainder.
pub open spec fn spec_unify_syms(l: PSymV, r: PSymV) -> Option<SymUni> {
    if l.symbols.len() < r.symbols.len() {
        if l.symbols =~= r.symbols.take(l.symbols.len() as int) && l.variable is Some {
            Some(
                SymUni::BindLeft(
                    PSymV {
                        symbols: r.symbols.skip(l.symbols.len() as int),
                        variable: r.variable,
                    },
                ),
            )
        } else {
            None
        }
    } else if l.symbols.len() > r.symbols.len() {
        if r.symbols =~= l.symbols.take(r.symbols.len() as int) && r.variable is Some {
            Some(
                SymUni::BindRight(
                    PSymV {
                        symbols: l.symbols.skip(r.symbols.len() as int),
                        variable: l.variable,
                    },
                ),
            )
        } else {
            None
        }
    } else if l.symbols =~= r.symbols {
        match (l.variable, r.variable) {
            (None, None) => Some(SymUni::NoBind),
            (Some(_), None) => Some(
                SymUni::BindLeft(PSymV { symbols: Seq::empty(), variable: None }),
            ),
            (None, Some(_)) => Some(
                SymUni::BindRight(PSymV { symbols: Seq::empty(), variable: None }),
            ),
            (Some(_), Some(_)) => Some(
                SymUni::BindRight(PSymV { symbols: Seq::empty(), variable: l.variable }),
            ),
        }
    } else {
        None
    }
}

/// Applies a scope binding: a stack whose tail is the bound variable takes
/// the binding's remainder as its new tail.
pub open spec fn subst_scopes(s: PScopesV, var: Option<usize>, b: PScopesV) -> PScopesV {
    if s.variable == var && var is Some {
        PScopesV { scopes: s.scopes + b.scopes, variable: b.variable }
    } else {
        s
    }
}

/// Applies a scope binding under every attached scope stack of a symbol
/// stack, and to its elements one by one.
pub open spec fn subst_elem(e: PElemV, var: Option<usize>, b: PScopesV) -> PElemV {
    PElemV {
        symbol: e.symbol,
        scopes: match e.scopes {
            Some(sc) => Some(subst_scopes(sc, var, b)),
            None => None,
        },
    }
}

/// Applies a scope binding across a whole symbol stack's attached scopes.
pub open spec fn subst_sym_scopes(s: PSymV, var: Option<usize>, b: PScopesV) -> PSymV {
    PSymV { symbols: s.symbols.map_values(|e: PElemV| subst_elem(e, var, b)), variable: s.variable }
}

/// Applies a symbol-stack binding: a stack whose tail is the bound
/// variable takes the binding's symbols and tail.
pub open spec fn subst_sym_tail(s: PSymV, var: Option<usize>, b: PSymV) -> PSymV {
    if s.variable == var && var is Some {
        PSymV { symbols: s.symbols + b.symbols, variable: b.variable }
    } else {
        s
    }
}

/// The join of two partial paths: defined iff the paths meet at a node and
/// the left postcondition stacks unify with the right precondition stacks
/// under a most-general substitution (tail variables absorb the other
/// side's remainder; attached scope stacks must agree exactly, as nothing
/// ever pops into them). The joined precondition is the left precondition
/// under the substitution; the joined postcondition is the right
/// postcondition under it; the edges are concatenated. Joining is not
/// commutative.
pub open spec fn spec_join(l: PartialPath, r: PartialPath) -> Option<PartialPathV> {
    if l.end_node != r.start_node {
        None
    } else {
        let su = spec_unify_syms(psym_v(l.symbol_stack_postcondition), psym_v(r.symbol_stack_precondition));
        let cu = spec_unify_scopes(pscopes_v(l.scope_stack_postcondition), pscopes_v(r.scope_stack_precondition));
        if su is Some && cu is Some {
            Some(spec_join_result(l, r, su.unwrap(), cu.unwrap()))
        } else {
            None
        }
    }
}

/// The joined value, given what the unification bound. Bindings splice the
/// other side's material in; a left binding rewrites the left
/// precondition, a right binding the right postcondition, and spliced
/// material carries the other side's scope binding with it.
pub open spec fn spec_join_result(l: PartialPath, r: PartialPath, su: SymUni, cu: ScopeUni) -> PartialPathV {
    let lsv = l.symbol_stack_postcondition.variable;
    let rsv = r.symbol_stack_precondition.variable;
    let lcv = l.scope_stack_postcondition.variable;
    let rcv = r.scope_stack_precondition.variable;
    // scope substitutions for each side
    let scope_pre0 = pscopes_v(l.scope_stack_precondition);
    let scope_post0 = pscopes_v(r.scope_stack_postcondition);
    let sym_pre0 = psym_v(l.symbol_stack_precondition);
    let sym_post0 = psym_v(r.symbol_stack_postcondition);
    let scope_pre1 = match cu {
        ScopeUni::BindLeft(b) => subst_scopes(scope_pre0, lcv, b),
        _ => scope_pre0,
    };
    let scope_post1 = match cu {
        ScopeUni::BindRight(b) => subst_scopes(scope_post0, rcv, b),
        _ => scope_post0,
    };
    let sym_pre1 = match cu {
        ScopeUni::BindLeft(b) => subst_sym_scopes(sym_pre0, lcv, b),
        _ => sym_pre0,
    };
    let sym_post1 = match cu {
        ScopeUni::BindRight(b) => subst_sym_scopes(sym_post0, rcv, b),
        _ => sym_post0,
    };
    // symbol-tail substitutions; spliced material carries the other
    // side's scope binding
    let sym_pre2 = match su {
        SymUni::BindLeft(b) => subst_sym_tail(
            sym_pre1,
            lsv,
            match cu {
                ScopeUni::BindRight(cb) => subst_sym_scopes(b, rcv, cb),
                _ => b,
            },
        ),
        _ => sym_pre1,
    };
    let sym_post2 = match su {
        SymUni::BindRight(b) => subst_sym_tail(
            sym_post1,
            rsv,
            match cu {
                ScopeUni::BindLeft(cb) => subst_sym_scopes(b, lcv, cb),
                _ => b,
            },
        ),
        _ => sym_post1,
    };
    PartialPathV {
        start: l.start_node,
        end: r.end_node,
        sym_pre: sym_pre2,
        sym_post: sym_post2,
        scope_pre: scope_pre1,
        scope_post: scope_post1,
        edges: l.edges@ + r.edges@,
    }
}

/// The identity template at `node`, with the initial variables.
pub fn identity_at(node: usize) -> (q: PartialPath)
    ensures
        identity_shaped(q),
        q.start_node == node,
        q.end_node == node,
        q.symbol_stack_precondition.variable == Some(1usize),
        q.symbol_stack_postcondition.variable == Some(1usize),
        q.scope_stack_precondition.variable == Some(1usize),
        q.scope_stack_postcondition.variable == Some(1usize),
{
    PartialPath {
        start_node: node,
        end_node: node,
        symbol_stack_precondition: PartialSymbolStack { symbols: Vec::new(), variable: Some(1) },
        symbol_stack_postcondition: PartialSymbolStack { symbols: Vec::new(), variable: Some(1) },
        scope_stack_precondition: PartialScopeStack { scopes: Vec::new(), variable: Some(1) },
        scope_stack_postcondition: PartialScopeStack { scopes: Vec::new(), variable: Some(1) },
        edges: Vec::new(),
    }
}

/// Whether `q` is an identity template.
pub fn is_identity(q: &PartialPath) -> (r: bool)
    ensures
        r == identity_shaped(*q),
{
    q.edges.len() == 0 && q.start_node == q.end_node
        && q.symbol_stack_precondition.symbols.len() == 0
        && q.symbol_stack_postcondition.symbols.len() == 0
        && q.symbol_stack_precondition.variable.is_some()
        && q.symbol_stack_precondition.variable == q.symbol_stack_postcondition.variable
        && q.scope_stack_precondition.scopes.len() == 0
        && q.scope_stack_postcondition.scopes.len() == 0
        && q.scope_stack_precondition.variable.is_some()
        && q.scope_stack_precondition.variable == q.scope_stack_postcondition.variable
}

/// The decided form of a scope unification.
enum ScopeUniE {
    NoBind,
    BindLeft(PartialScopeStack),
    BindRight(PartialScopeStack),
}

/// Decides `spec_unify_scopes`, returning what it binds.
fn unify_scopes_exec(l: &PartialScopeStack, r: &PartialScopeStack) -> (res: Option<ScopeUniE>)
    ensures
        match spec_unify_scopes(pscopes_v(*l), pscopes_v(*r)) {
            Some(ScopeUni::NoBind) => res matches Some(ScopeUniE::NoBind),
            Some(ScopeUni::BindLeft(bv)) => res matches Some(ScopeUniE::BindLeft(b)) && pscopes_v(
                b,
            ) == bv,
            Some(ScopeUni::BindRight(bv)) => res matches Some(ScopeUniE::BindRight(b))
                && pscopes_v(b) == bv,
            None => res is None,
        },
{
    let ln = l.scopes.len();
    let rn = r.scopes.len();
    if ln < rn {
        if !prefix_matches(&l.scopes, &r.scopes, ln) || l.variable.is_none() {
            proof {
                assert(pscopes_v(*l).scopes.take(ln as int) =~= pscopes_v(*l).scopes);
            }
            return None;
        }
        let b = PartialScopeStack { scopes: copy_scopes_from(&r.scopes, ln), variable: r.variable };
        proof {
            assert(pscopes_v(*l).scopes.take(ln as int) =~= pscopes_v(*l).scopes);
        }
        Some(ScopeUniE::BindLeft(b))
    } else if ln > rn {
        if !prefix_matches(&r.scopes, &l.scopes, rn) || r.variable.is_none() {
            proof {
                assert(pscopes_v(*r).scopes.take(rn as int) =~= pscopes_v(*r).scopes);
            }
            return None;
        }
        let b = PartialScopeStack { scopes: copy_scopes_from(&l.scopes, rn), variable: l.variable };
        proof {
            assert(pscopes_v(*r).scopes.take(rn as int) =~= pscopes_v(*r).scopes);
        }
        Some(ScopeUniE::BindRight(b))
    } else {
        if !prefix_matches(&l.scopes, &r.scopes, ln) {
            proof {
                assert(pscopes_v(*l).scopes.take(ln as int) =~= pscopes_v(*l).scopes);
                assert(pscopes_v(*r).scopes.take(ln as int) =~= pscopes_v(*r).scopes);
            }
            return None;
        }
        proof {
            assert(pscopes_v(*l).scopes.take(ln as int) =~= pscopes_v(*l).scopes);
            assert(pscopes_v(*r).scopes.take(ln as int) =~= pscopes_v(*r).scopes);
            assert(pscopes_v(*l).scopes =~= pscopes_v(*r).scopes);
        }
        match (l.variable, r.variable) {
            (None, None) => Some(ScopeUniE::NoBind),
            (Some(_), None) => Some(
                ScopeUniE::BindLeft(PartialScopeStack { scopes: Vec::new(), variable: None }),
            ),
            (None, Some(_)) => Some(
                ScopeUniE::BindRight(PartialScopeStack { scopes: Vec::new(), variable: None }),
            ),
            (Some(_), Some(_)) => Some(
                ScopeUniE::BindRight(
                    PartialScopeStack { scopes: Vec::new(), variable: l.variable },
                ),
            ),
        }
    }
}

/// Whether the first `n` scopes of `a` equal the first `n` of `b`.
#[verifier::loop_isolation(false)]
fn prefix_matches(a: &Vec<usize>, b: &Vec<usize>, n: usize) -> (res: bool)
    requires
        n <= a@.len(),
        n <= b@.len(),
    ensures
        res == (a@.take(n as int) =~= b@.take(n as int)),
{
    let mut i: usize = 0;
    while i < n
        invariant
            0 <= i <= n,
            forall|j: int| 0 <= j < i ==> a@[j] == b@[j],
        decreases n - i,
    {
        if a[i] != b[i] {
            proof {
                assert(a@.take(n as int)[i as int] != b@.take(n as int)[i as int]);
            }
            return false;
        }
        i = i + 1;
    }
    proof {
        assert(a@.take(n as int) =~= b@.take(n as int));
    }
    true
}

/// Compares two partial symbol-stack elements by value.
fn eq_pelem(a: &PartialScopedSymbol, b: &PartialScopedSymbol) -> (res: bool)
    ensures
        res == (pelem_v(*a) == pelem_v(*b)),
{
    a.symbol == b.symbol && match (&a.scopes, &b.scopes) {
        (None, None) => true,
        (Some(xs), Some(ys)) => eq_pscopes(xs, ys),
        _ => false,
    }
}

/// Whether the first `n` elements of `a` equal the first `n` of `b`.
#[verifier::loop_isolation(false)]
fn sym_prefix_matches(a: &Vec<PartialScopedSymbol>, b: &Vec<PartialScopedSymbol>, n: usize) -> (res:
    bool)
    requires
        n <= a@.len(),
        n <= b@.len(),
    ensures
        res == (psym_view(a@).take(n as int) =~= psym_view(b@).take(n as int)),
{
    let mut i: usize = 0;
    while i < n
        invariant
            0 <= i <= n,
            forall|j: int| 0 <= j < i ==> pelem_v(a@[j]) == pelem_v(b@[j]),
        decreases n - i,
    {
        if !eq_pelem(&a[i], &b[i]) {
            proof {
                assert(psym_view(a@).take(n as int)[i as int] != psym_view(b@).take(
                    n as int,
                )[i as int]);
            }
            return false;
        }
        i = i + 1;
    }
    proof {
        assert(psym_view(a@).take(n as int) =~= psym_view(b@).take(n as int));
    }
    true
}

/// The decided form of a symbol-stack unification.
enum SymUniE {
    NoBind,
    BindLeft(PartialSymbolStack),
    BindRight(PartialSymbolStack),
}

/// Decides `spec_unify_syms`, returning what it binds.
fn unify_syms_exec(l: &PartialSymbolStack, r: &PartialSymbolStack) -> (res: Option<SymUniE>)
    ensures
        match spec_unify_syms(psym_v(*l), psym_v(*r)) {
            Some(SymUni::NoBind) => res matches Some(SymUniE::NoBind),
            Some(SymUni::BindLeft(bv)) => res matches Some(SymUniE::BindLeft(b)) && psym_v(b)
                == bv,
            Some(SymUni::BindRight(bv)) => res matches Some(SymUniE::BindRight(b)) && psym_v(b)
                == bv,
            None => res is None,
        },
{
    let ln = l.symbols.len();
    let rn = r.symbols.len();
    if ln < rn {
        if !sym_prefix_matches(&l.symbols, &r.symbols, ln) || l.variable.is_none() {
            proof {
                assert(psym_v(*l).symbols.take(ln as int) =~= psym_v(*l).symbols);
            }
            return None;
        }
        let b = PartialSymbolStack {
            symbols: copy_psym_from(&r.symbols, ln),
            variable: r.variable,
        };
        proof {
            assert(psym_v(*l).symbols.take(ln as int) =~= psym_v(*l).symbols);
        }
        Some(SymUniE::BindLeft(b))
    } else if ln > rn {
        if !sym_prefix_matches(&r.symbols, &l.symbols, rn) || r.variable.is_none() {
            proof {
                assert(psym_v(*r).symbols.take(rn as int) =~= psym_v(*r).symbols);
            }
            return None;
        }
        let b = PartialSymbolStack {
            symbols: copy_psym_from(&l.symbols, rn),
            variable: l.variable,
        };
        proof {
            assert(psym_v(*r).symbols.take(rn as int) =~= psym_v(*r).symbols);
        }
        Some(SymUniE::BindRight(b))
    } else {
        if !sym_prefix_matches(&l.symbols, &r.symbols, ln) {
            proof {
                assert(psym_v(*l).symbols.take(ln as int) =~= psym_v(*l).symbols);
                assert(psym_v(*r).symbols.take(ln as int) =~= psym_v(*r).symbols);
            }
            return None;
        }
        proof {
            assert(psym_v(*l).symbols.take(ln as int) =~= psym_v(*l).symbols);
            assert(psym_v(*r).symbols.take(ln as int) =~= psym_v(*r).symbols);
            assert(psym_v(*l).symbols =~= psym_v(*r).symbols);
        }
        match (l.variable, r.variable) {
            (None, None) => Some(SymUniE::NoBind),
            (Some(_), None) => Some(
                SymUniE::BindLeft(PartialSymbolStack { symbols: Vec::new(), variable: None }),
            ),
            (None, Some(_)) => Some(
                SymUniE::BindRight(PartialSymbolStack { symbols: Vec::new(), variable: None }),
            ),
            (Some(_), Some(_)) => Some(
                SymUniE::BindRight(
                    PartialSymbolStack { symbols: Vec::new(), variable: l.variable },
                ),
            ),
        }
    }
}

/// Applies a scope binding to one scope stack.
fn apply_scope_binding(s: &PartialScopeStack, var: Option<usize>, b: &PartialScopeStack) -> (res:
    PartialScopeStack)
    ensures
        pscopes_v(res) == subst_scopes(pscopes_v(*s), var, pscopes_v(*b)),
{
    let applies = match (s.variable, var) {
        (Some(x), Some(y)) => x == y,
        _ => false,
    };
    if applies {
        let mut scopes = copy_scopes_from(&s.scopes, 0);
        let mut tail = copy_scopes_from(&b.scopes, 0);
        let ghost t0 = tail@;
        scopes.append(&mut tail);
        proof {
            assert(s.scopes@.skip(0) =~= s.scopes@);
            assert(b.scopes@.skip(0) =~= b.scopes@);
            assert(scopes@ =~= s.scopes@ + b.scopes@);
        }
        PartialScopeStack { scopes, variable: b.variable }
    } else {
        copy_pscopes(s)
    }
}

/// Applies a scope binding across every attached scope stack of a symbol
/// stack.
#[verifier::loop_isolation(false)]
fn apply_scope_binding_sym(s: &PartialSymbolStack, var: Option<usize>, b: &PartialScopeStack) -> (res:
    PartialSymbolStack)
    ensures
        psym_v(res) == subst_sym_scopes(psym_v(*s), var, pscopes_v(*b)),
{
    let mut symbols: Vec<PartialScopedSymbol> = Vec::new();
    let mut i: usize = 0;
    while i < s.symbols.len()
        invariant
            0 <= i <= s.symbols@.len(),
            psym_view(symbols@) =~= psym_view(s.symbols@).take(i as int).map_values(
                |e: PElemV| subst_elem(e, var, pscopes_v(*b)),
            ),
        decreases s.symbols@.len() - i,
    {
        let e = &s.symbols[i];
        let scopes = match &e.scopes {
            Some(sc) => Some(apply_scope_binding(sc, var, b)),
            None => None,
        };
        let ghost before = symbols@;
        symbols.push(PartialScopedSymbol { symbol: e.symbol, scopes });
        proof {
            assert(symbols@ =~= before.push(symbols@[symbols@.len() - 1]));
            assert(psym_view(s.symbols@)[i as int] == pelem_v(s.symbols@[i as int]));
            assert(pelem_v(symbols@[symbols@.len() - 1]) =~~= subst_elem(
                psym_view(s.symbols@)[i as int],
                var,
                pscopes_v(*b),
            ));
            assert forall|idx: int| 0 <= idx < i + 1 implies psym_view(symbols@)[idx]
                == psym_view(s.symbols@).take(i + 1).map_values(
                |e0: PElemV| subst_elem(e0, var, pscopes_v(*b)),
            )[idx] by {
                assert(psym_view(s.symbols@).take(i + 1).map_values(
                    |e0: PElemV| subst_elem(e0, var, pscopes_v(*b)),
                )[idx] == subst_elem(
                    psym_view(s.symbols@).take(i + 1)[idx],
                    var,
                    pscopes_v(*b),
                ));
                if idx < i {
                    assert(psym_view(symbols@)[idx] == pelem_v(before[idx]));
                    assert(psym_view(before)[idx] == pelem_v(before[idx]));
                    assert(psym_view(before)[idx] == psym_view(s.symbols@).take(
                        i as int,
                    ).map_values(|e0: PElemV| subst_elem(e0, var, pscopes_v(*b)))[idx]);
                    assert(psym_view(s.symbols@).take(i as int).map_values(
                        |e0: PElemV| subst_elem(e0, var, pscopes_v(*b)),
                    )[idx] == subst_elem(
                        psym_view(s.symbols@).take(i as int)[idx],
                        var,
                        pscopes_v(*b),
                    ));
                    assert(psym_view(s.symbols@).take(i as int)[idx] == psym_view(
                        s.symbols@,
                    ).take(i + 1)[idx]);
                } else {
                    assert(psym_view(symbols@)[idx] == pelem_v(symbols@[symbols@.len() - 1]));
                    assert(psym_view(s.symbols@).take(i + 1)[idx] == psym_view(
                        s.symbols@,
                    )[i as int]);
                }
            }
            assert(psym_view(symbols@) =~= psym_view(s.symbols@).take(i + 1).map_values(
                |e0: PElemV| subst_elem(e0, var, pscopes_v(*b)),
            ));
        }
        i = i + 1;
    }
    proof {
        assert(psym_view(s.symbols@).take(s.symbols@.len() as int) =~= psym_view(s.symbols@));
        assert(psym_view(symbols@) =~= psym_v(*s).symbols.map_values(
            |e: PElemV| subst_elem(e, var, pscopes_v(*b)),
        ));
    }
    PartialSymbolStack { symbols, variable: s.variable }
}

/// Applies a symbol-tail binding to one symbol stack.
fn apply_sym_binding(s: &PartialSymbolStack, var: Option<usize>, b: &PartialSymbolStack) -> (res:
    PartialSymbolStack)
    ensures
        psym_v(res) == subst_sym_tail(psym_v(*s), var, psym_v(*b)),
{
    let applies = match (s.variable, var) {
        (Some(x), Some(y)) => x == y,
        _ => false,
    };
    if applies {
        let mut symbols = copy_psym_from(&s.symbols, 0);
        let mut tail = copy_psym_from(&b.symbols, 0);
        let ghost s0 = symbols@;
        let ghost t0 = tail@;
        symbols.append(&mut tail);
        proof {
            assert(psym_view(s.symbols@).skip(0) =~= psym_view(s.symbols@));
            assert(psym_view(b.symbols@).skip(0) =~= psym_view(b.symbols@));
            assert(symbols@ =~= s0 + t0);
            lemma_psym_view_concat(s0, t0);
            assert(psym_view(symbols@) =~= psym_view(s.symbols@) + psym_view(b.symbols@));
        }
        PartialSymbolStack { symbols, variable: b.variable }
    } else {
        copy_psym(s)
    }
}

/// Joins `left` with `right`, or returns `None` where the join is not
/// defined; see [`spec_join`] for exactly when that is and what results.
pub fn join(left: &PartialPath, right: &PartialPath) -> (r: Option<PartialPath>)
    ensures
        match spec_join(*left, *right) {
            Some(v) => r is Some && r.unwrap().view_v() == v,
            None => r is None,
        },
{
    if left.end_node != right.start_node {
        return None;
    }
    let su = match unify_syms_exec(
        &left.symbol_stack_postcondition,
        &right.symbol_stack_precondition,
    ) {
        Some(u) => u,
        None => {
            return None;
        },
    };
    let cu = match unify_scopes_exec(
        &left.scope_stack_postcondition,
        &right.scope_stack_precondition,
    ) {
        Some(u) => u,
        None => {
            return None;
        },
    };
    let lsv = left.symbol_stack_postcondition.variable;
    let rsv = right.symbol_stack_precondition.variable;
    let lcv = left.scope_stack_postcondition.variable;
    let rcv = right.scope_stack_precondition.variable;
    let ghost scu = spec_unify_scopes(
        pscopes_v(left.scope_stack_postcondition),
        pscopes_v(right.scope_stack_precondition),
    ).unwrap();
    let ghost ssu = spec_unify_syms(
        psym_v(left.symbol_stack_postcondition),
        psym_v(right.symbol_stack_precondition),
    ).unwrap();

    // left side under the substitution
    let mut scope_pre = copy_pscopes(&left.scope_stack_precondition);
    let mut sym_pre = copy_psym(&left.symbol_stack_precondition);
    let mut scope_post = copy_pscopes(&right.scope_stack_postcondition);
    let mut sym_post = copy_psym(&right.symbol_stack_postcondition);
    match &cu {
        ScopeUniE::NoBind => {},
        ScopeUniE::BindLeft(b) => {
            scope_pre = apply_scope_binding(&scope_pre, lcv, b);
            sym_pre = apply_scope_binding_sym(&sym_pre, lcv, b);
        },
        ScopeUniE::BindRight(b) => {
            scope_post = apply_scope_binding(&scope_post, rcv, b);
            sym_post = apply_scope_binding_sym(&sym_post, rcv, b);
        },
    }
    // symbol tails, splicing the other side's scope binding into the
    // spliced material
    match &su {
        SymUniE::NoBind => {},
        SymUniE::BindLeft(b) => {
            let spliced = match &cu {
                ScopeUniE::BindRight(cb) => apply_scope_binding_sym(b, rcv, cb),
                _ => copy_psym(b),
            };
            sym_pre = apply_sym_binding(&sym_pre, lsv, &spliced);
        },
        SymUniE::BindRight(b) => {
            let spliced = match &cu {
                ScopeUniE::BindLeft(cb) => apply_scope_binding_sym(b, lcv, cb),
                _ => copy_psym(b),
            };
            sym_post = apply_sym_binding(&sym_post, rsv, &spliced);
        },
    }
    let mut edges = copy_edges(&left.edges);
    let mut tail = copy_edges(&right.edges);
    let ghost t0 = tail@;
    edges.append(&mut tail);
    let q = PartialPath {
        start_node: left.start_node,
        end_node: right.end_node,
        symbol_stack_precondition: sym_pre,
        symbol_stack_postcondition: sym_post,
        scope_stack_precondition: scope_pre,
        scope_stack_postcondition: scope_post,
        edges,
    };
    proof {
        assert(q.view_v() =~~= spec_join_result(*left, *right, ssu, scu));
    }
    Some(q)
}

/// Substituting a variable by itself with nothing spliced changes no scope
/// stack.
proof fn lemma_subst_scopes_trivial(sc: PScopesV, v: Option<usize>)
    ensures
        subst_scopes(sc, v, PScopesV { scopes: Seq::empty(), variable: v }) =~~= sc,
{
    if sc.variable == v && v is Some {
        assert(sc.scopes + Seq::<usize>::empty() =~= sc.scopes);
    }
}

/// Substituting a variable by itself with nothing spliced changes no
/// symbol stack.
proof fn lemma_subst_sym_trivial(s: PSymV, v: Option<usize>)
    ensures
        subst_sym_scopes(s, v, PScopesV { scopes: Seq::empty(), variable: v }) =~~= s,
{
    let b = PScopesV { scopes: Seq::empty(), variable: v };
    assert forall|i: int| 0 <= i < s.symbols.len() implies s.symbols.map_values(
        |e: PElemV| subst_elem(e, v, b),
    )[i] == s.symbols[i] by {
        let e = s.symbols[i];
        match e.scopes {
            Some(sc) => {
                lemma_subst_scopes_trivial(sc, v);
                assert(subst_elem(e, v, b) =~~= e);
            },
            None => {
                assert(subst_elem(e, v, b) =~~= e);
            },
        }
    }
    assert(s.symbols.map_values(|e: PElemV| subst_elem(e, v, b)) =~= s.symbols);
}

/// Joining the identity template at a path's start node onto the path
/// gives the path back, whenever the identity's variables can match: the
/// path's precondition tails are concrete, absent, or the same variables.
pub proof fn lemma_join_identity_left(l: PartialPath, r: PartialPath)
    requires
        identity_shaped(l),
        l.end_node == r.start_node,
        r.symbol_stack_precondition.symbols@.len() > 0 || r.symbol_stack_precondition.variable
            is None || r.symbol_stack_precondition.variable
            == l.symbol_stack_postcondition.variable,
        r.scope_stack_precondition.scopes@.len() > 0 || r.scope_stack_precondition.variable
            is None || r.scope_stack_precondition.variable
            == l.scope_stack_postcondition.variable,
    ensures
        spec_join(l, r) == Some(r.view_v()),
{
    let ls = psym_v(l.symbol_stack_postcondition);
    let rs = psym_v(r.symbol_stack_precondition);
    let lc = pscopes_v(l.scope_stack_postcondition);
    let rc = pscopes_v(r.scope_stack_precondition);
    let su = spec_unify_syms(ls, rs);
    let cu = spec_unify_scopes(lc, rc);
    if rs.symbols.len() > 0 {
        assert(ls.symbols =~= rs.symbols.take(0));
        assert(rs.symbols.skip(0) =~= rs.symbols);
        assert(su == Some(SymUni::BindLeft(PSymV { symbols: rs.symbols, variable: rs.variable })));
    } else {
        assert(ls.symbols =~= rs.symbols);
    }
    if rc.scopes.len() > 0 {
        assert(lc.scopes =~= rc.scopes.take(0));
        assert(rc.scopes.skip(0) =~= rc.scopes);
        assert(cu == Some(ScopeUni::BindLeft(PScopesV { scopes: rc.scopes, variable: rc.variable })));
    } else {
        assert(lc.scopes =~= rc.scopes);
    }
    let res = spec_join_result(l, r, su.unwrap(), cu.unwrap());
    match cu.unwrap() {
        ScopeUni::BindRight(cb) => {
            // only when the scope tails are the same variable
            lemma_subst_scopes_trivial(pscopes_v(r.scope_stack_postcondition), rc.variable);
            lemma_subst_sym_trivial(psym_v(r.symbol_stack_postcondition), rc.variable);
        },
        _ => {},
    }
    match su.unwrap() {
        SymUni::BindRight(sb) => {
            lemma_subst_sym_trivial(sb, rc.variable);
        },
        _ => {},
    }
    assert(res.sym_pre =~~= psym_v(r.symbol_stack_precondition));
    assert(res.scope_pre =~~= pscopes_v(r.scope_stack_precondition));
    assert(res.sym_post =~~= psym_v(r.symbol_stack_postcondition));
    assert(res.scope_post =~~= pscopes_v(r.scope_stack_postcondition));
    assert(res.edges =~= r.edges@);
    assert(res =~~= r.view_v());
}

/// Joining the identity template at a path's end node after the path
/// gives the path back.
pub proof fn lemma_join_identity_right(l: PartialPath, r: PartialPath)
    requires
        identity_shaped(r),
        l.end_node == r.start_node,
    ensures
        spec_join(l, r) == Some(l.view_v()),
{
    let ls = psym_v(l.symbol_stack_postcondition);
    let rs = psym_v(r.symbol_stack_precondition);
    let lc = pscopes_v(l.scope_stack_postcondition);
    let rc = pscopes_v(r.scope_stack_precondition);
    let su = spec_unify_syms(ls, rs);
    let cu = spec_unify_scopes(lc, rc);
    if ls.symbols.len() > 0 {
        assert(rs.symbols =~= ls.symbols.take(0));
        assert(ls.symbols.skip(0) =~= ls.symbols);
        assert(su == Some(SymUni::BindRight(PSymV { symbols: ls.symbols, variable: ls.variable })));
    } else {
        assert(ls.symbols =~= rs.symbols);
    }
    if lc.scopes.len() > 0 {
        assert(rc.scopes =~= lc.scopes.take(0));
        assert(lc.scopes.skip(0) =~= lc.scopes);
        assert(cu == Some(ScopeUni::BindRight(PScopesV { scopes: lc.scopes, variable: lc.variable })));
    } else {
        assert(lc.scopes =~= rc.scopes);
    }
    let res = spec_join_result(l, r, su.unwrap(), cu.unwrap());
    match su.unwrap() {
        SymUni::BindRight(sb) => {
            match cu.unwrap() {
                ScopeUni::BindLeft(cb) => {},
                _ => {},
            }
        },
        _ => {},
    }
    // the right postcondition is the identity's bare variable, so the
    // substitution rebuilds the left postcondition
    assert(res.sym_post.symbols =~= ls.symbols);
    assert(res.sym_post =~~= ls);
    assert(res.scope_post.scopes =~= lc.scopes);
    assert(res.scope_post =~~= lc);
    assert(res.sym_pre =~~= psym_v(l.symbol_stack_precondition));
    assert(res.scope_pre =~~= pscopes_v(l.scope_stack_precondition));
    assert(res.edges =~= l.edges@);
    assert(res =~~= l.view_v());
}

/// Where the facing stacks agree exactly, the join needs no substitution:
/// the result walks the left path's edges and then the right path's, and
/// maps the left precondition to the right postcondition.
pub proof fn lemma_join_concatenates(l: PartialPath, r: PartialPath)
    requires
        l.end_node == r.start_node,
        stacks_match(l, r),
    ensures
        spec_join(l, r) is Some,
        spec_join(l, r).unwrap().edges == l.edges@ + r.edges@,
        spec_join(l, r).unwrap().start == l.start_node,
        spec_join(l, r).unwrap().end == r.end_node,
        spec_join(l, r).unwrap().sym_pre == psym_v(l.symbol_stack_precondition),
        spec_join(l, r).unwrap().sym_post =~~= psym_v(r.symbol_stack_postcondition),
        spec_join(l, r).unwrap().scope_pre == pscopes_v(l.scope_stack_precondition),
        spec_join(l, r).unwrap().scope_post =~~= pscopes_v(r.scope_stack_postcondition),
{
    let ls = psym_v(l.symbol_stack_postcondition);
    let rs = psym_v(r.symbol_stack_precondition);
    let lc = pscopes_v(l.scope_stack_postcondition);
    let rc = pscopes_v(r.scope_stack_precondition);
    assert(ls.symbols =~= rs.symbols);
    assert(lc.scopes =~= rc.scopes);
    let su = spec_unify_syms(ls, rs);
    let cu = spec_unify_scopes(lc, rc);
    let res = spec_join_result(l, r, su.unwrap(), cu.unwrap());
    match cu.unwrap() {
        ScopeUni::BindRight(cb) => {
            lemma_subst_scopes_trivial(pscopes_v(r.scope_stack_postcondition), rc.variable);
            lemma_subst_sym_trivial(psym_v(r.symbol_stack_postcondition), rc.variable);
        },
        _ => {},
    }
    match su.unwrap() {
        SymUni::BindRight(sb) => {
            lemma_subst_sym_trivial(sb, rc.variable);
        },
        _ => {},
    }
}

/// One run of partial-path extension is a pure function of the graph, the
/// stacks, and the edge: equal inputs give equal outcomes.
pub proof fn lemma_pstep_deterministic(
    g: StackGraph,
    st: PPStateV,
    e: Edge,
    r1: Option<PPStateV>,
    r2: Option<PPStateV>,
)
    requires
        r1 == spec_pstep(g, st, e),
        r2 == spec_pstep(g, st, e),
    ensures
        r1 == r2,
{
}

/// Every partial path the file-local search emits keeps its edges inside
/// the file (or on the root and jump-to-scope boundaries), and replaying
/// them from its start node's seed stacks maps its precondition to its
/// postcondition.
pub proof fn lemma_partial_results_in_file(
    g: StackGraph,
    file: usize,
    rs: Seq<PartialPath>,
    i: int,
)
    requires
        presults_ok(g, file, rs),
        0 <= i < rs.len(),
    ensures
        spec_preplay(g, rs[i].start_node, rs[i].edges@) == Some(rs[i].pstate_v()),
        forall|k: int|
            0 <= k < rs[i].edges@.len() ==> node_in_file(g, (#[trigger] rs[i].edges@[k]).source, file)
                && node_in_file(g, rs[i].edges@[k].sink, file),
{
}

} // verus!

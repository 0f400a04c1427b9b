//! The graph store: interned symbols, files, nodes tagged by variant, and
//! forward-adjacency edge lists kept in a deterministic order.

use vstd::prelude::*;

verus! {

/// The variant of a node fully determines its transition behaviour on the
/// symbol stack and the scope stack.
#[derive(Clone, Copy, PartialEq, Eq, Structural, Debug)]
pub enum NodeKind {
    /// The shared root scope; neutral on both stacks.
    Root,
    /// Pops one scope from the scope stack; the path continues at that scope.
    JumpToScope,
    /// A scope local to a file; neutral on both stacks.
    InternalScope,
    /// A scope that other nodes may push onto scope stacks; neutral itself.
    ExportedScope,
    /// Prepends `symbol` (with no attached scopes) to the symbol stack.
    PushSymbol { symbol: usize },
    /// Prepends `symbol`, attaching the current scope stack with
    /// `attached_scope` pushed on top of it.
    PushScopedSymbol { symbol: usize, attached_scope: usize },
    /// Requires the top of the symbol stack to be `symbol` without attached
    /// scopes, and pops it.
    PopSymbol { symbol: usize },
    /// Requires the top of the symbol stack to be `symbol` with attached
    /// scopes, pops it, and replaces the scope stack by those scopes.
    PopScopedSymbol { symbol: usize },
    /// Replaces the scope stack with the empty stack.
    DropScopes,
    /// A terminal for complete paths; otherwise behaves as `PopSymbol`.
    Definition { symbol: usize },
    /// A starting point for complete paths; otherwise behaves as `PushSymbol`.
    Reference { symbol: usize },
}

/// A node: the file it belongs to (`None` only for the root), a stable
/// integer chosen by the frontend that appears in display output, and the
/// variant.
#[derive(Clone, Copy, Debug)]
pub struct Node {
    pub file: Option<usize>,
    pub local_id: u64,
    pub kind: NodeKind,
}

/// A directed edge, stored under its source's adjacency list. `precedence`
/// orders successors during search.
#[derive(Clone, Copy, PartialEq, Eq, Structural, Debug)]
pub struct Edge {
    pub source: usize,
    pub sink: usize,
    pub precedence: i64,
}

/// Strict deterministic order on the out-edges of one node: by precedence,
/// then by destination handle.
pub open spec fn edge_lt(a: Edge, b: Edge) -> bool {
    a.precedence < b.precedence || (a.precedence == b.precedence && a.sink < b.sink)
}

/// The symbol a node pushes or pops, if its variant has one.
pub open spec fn kind_symbol(k: NodeKind) -> Option<usize> {
    match k {
        NodeKind::PushSymbol { symbol } => Some(symbol),
        NodeKind::PushScopedSymbol { symbol, .. } => Some(symbol),
        NodeKind::PopSymbol { symbol } => Some(symbol),
        NodeKind::PopScopedSymbol { symbol } => Some(symbol),
        NodeKind::Definition { symbol } => Some(symbol),
        NodeKind::Reference { symbol } => Some(symbol),
        _ => None,
    }
}

/// The graph store. Monotonically grown by a frontend through the builder
/// methods; read-only during searches.
pub struct StackGraph {
    pub symbols: Vec<String>,
    pub files: Vec<String>,
    pub nodes: Vec<Node>,
    pub edges: Vec<Vec<Edge>>,
}

impl StackGraph {
    /// The text of symbol `i`.
    pub open spec fn sym_text(self, i: int) -> Seq<char> {
        self.symbols@[i]@
    }

    /// The name of file `f`.
    pub open spec fn file_text(self, f: int) -> Seq<char> {
        self.files@[f]@
    }

    pub open spec fn node_count(self) -> int {
        self.nodes@.len() as int
    }

    pub open spec fn node_at(self, i: int) -> Node {
        self.nodes@[i]
    }

    pub open spec fn kind_at(self, i: int) -> NodeKind {
        self.nodes@[i].kind
    }

    /// The out-edges of node `u`, in their deterministic order.
    pub open spec fn out_edges(self, u: int) -> Seq<Edge> {
        self.edges@[u]@
    }

    /// One node is internally consistent with the pools it refers to.
    pub open spec fn node_wf(self, n: Node) -> bool {
        &&& match n.file {
            Some(f) => 0 <= f < self.files@.len(),
            None => n.kind == NodeKind::Root,
        }
        &&& match kind_symbol(n.kind) {
            Some(s) => 0 <= s < self.symbols@.len(),
            None => true,
        }
        &&& match n.kind {
            NodeKind::PushScopedSymbol { attached_scope, .. } => 0 <= attached_scope
                < self.nodes@.len(),
            _ => true,
        }
    }

    /// Well-formedness of the whole store: the root is node 0 and unique,
    /// every node's indices are valid, and each adjacency list holds edges of
    /// its own source, with valid sinks, strictly sorted by precedence and
    /// destination handle.
    pub open spec fn wf(self) -> bool {
        &&& self.nodes@.len() >= 1
        &&& self.nodes@[0].kind == NodeKind::Root
        &&& forall|i: int|
            1 <= i < self.nodes@.len() ==> (#[trigger] self.nodes@[i]).kind != NodeKind::Root
        &&& forall|i: int| 0 <= i < self.nodes@.len() ==> self.node_wf(#[trigger] self.nodes@[i])
        &&& self.edges@.len() == self.nodes@.len()
        &&& forall|u: int, j: int|
            0 <= u < self.edges@.len() && 0 <= j < self.edges@[u]@.len() ==> {
                &&& (#[trigger] self.edges@[u]@[j]).source == u
                &&& 0 <= self.edges@[u]@[j].sink < self.nodes@.len()
            }
        &&& forall|u: int, j: int|
            0 <= u < self.edges@.len() && 0 < j < self.edges@[u]@.len() ==> edge_lt(
                self.edges@[u]@[j - 1],
                #[trigger] self.edges@[u]@[j],
            )
    }

    /// A fresh graph holding only the root node.
    pub fn new() -> (g: StackGraph)
        ensures
            g.wf(),
            g.nodes@.len() == 1,
            g.symbols@.len() == 0,
            g.files@.len() == 0,
            g.kind_at(0) == NodeKind::Root,
            g.out_edges(0).len() == 0,
    {
        let mut nodes: Vec<Node> = Vec::new();
        nodes.push(Node { file: None, local_id: 0, kind: NodeKind::Root });
        let mut edges: Vec<Vec<Edge>> = Vec::new();
        edges.push(Vec::new());
        StackGraph { symbols: Vec::new(), files: Vec::new(), nodes, edges }
    }

    /// The handle of the root node.
    pub fn root_node(&self) -> (r: usize)
        ensures
            r == 0,
    {
        0
    }

    /// Interns `text`: returns the handle of the symbol with this text,
    /// adding it to the pool only when it is new. Equality of symbols is
    /// equality of handles.
    #[verifier::loop_isolation(false)]
    pub fn symbol(&mut self, text: &str) -> (r: usize)
        requires
            old(self).wf(),
        ensures
            final(self).wf(),
            final(self).nodes@ == old(self).nodes@,
            final(self).edges@ == old(self).edges@,
            final(self).files@ == old(self).files@,
            0 <= r < final(self).symbols@.len(),
            final(self).sym_text(r as int) == text@,
            forall|j: int| 0 <= j < r ==> old(self).sym_text(j) != text@,
            if exists|j: int| 0 <= j < old(self).symbols@.len() && old(self).sym_text(j) == text@ {
                final(self).symbols@ == old(self).symbols@ && r < old(self).symbols@.len()
            } else {
                final(self).symbols@ == old(self).symbols@.push(final(self).symbols@[r as int])
                    && r == old(self).symbols@.len()
            },
    {
        let owned: String = text.to_owned();
        let n = self.symbols.len();
        let mut i: usize = 0;
        while i < n
            invariant
                *self == *old(self),
                n == self.symbols@.len(),
                0 <= i <= n,
                owned@ == text@,
                forall|j: int| 0 <= j < i ==> self.sym_text(j) != text@,
            decreases n - i,
        {
            if self.symbols[i] == owned {
                return i;
            }
            i = i + 1;
        }
        self.symbols.push(owned);
        n
    }

    /// Interns a file name, exactly as `symbol` interns symbol text.
    #[verifier::loop_isolation(false)]
    pub fn file(&mut self, name: &str) -> (r: usize)
        requires
            old(self).wf(),
        ensures
            final(self).wf(),
            final(self).nodes@ == old(self).nodes@,
            final(self).edges@ == old(self).edges@,
            final(self).symbols@ == old(self).symbols@,
            0 <= r < final(self).files@.len(),
            final(self).file_text(r as int) == name@,
            forall|j: int| 0 <= j < r ==> old(self).file_text(j) != name@,
            if exists|j: int| 0 <= j < old(self).files@.len() && old(self).file_text(j) == name@ {
                final(self).files@ == old(self).files@ && r < old(self).files@.len()
            } else {
                final(self).files@ == old(self).files@.push(final(self).files@[r as int]) && r
                    == old(self).files@.len()
            },
    {
        let owned: String = name.to_owned();
        let n = self.files.len();
        let mut i: usize = 0;
        while i < n
            invariant
                *self == *old(self),
                n == self.files@.len(),
                0 <= i <= n,
                owned@ == name@,
                forall|j: int| 0 <= j < i ==> self.file_text(j) != name@,
            decreases n - i,
        {
            if self.files[i] == owned {
                return i;
            }
            i = i + 1;
        }
        self.files.push(owned);
        n
    }

    /// The handle of the file interned under `name`. The name must already
    /// be known; fixtures look files up after building.
    #[verifier::loop_isolation(false)]
    pub fn get_file_unchecked(&self, name: &str) -> (r: usize)
        requires
            exists|j: int| 0 <= j < self.files@.len() && self.file_text(j) == name@,
        ensures
            0 <= r < self.files@.len(),
            self.file_text(r as int) == name@,
    {
        let owned: String = name.to_owned();
        let n = self.files.len();
        let mut i: usize = 0;
        while i < n
            invariant
                n == self.files@.len(),
                0 <= i <= n,
                owned@ == name@,
                exists|j: int| 0 <= j < self.files@.len() && self.file_text(j) == name@,
                forall|j: int| 0 <= j < i ==> self.file_text(j) != name@,
            decreases n - i,
        {
            if self.files[i] == owned {
                return i;
            }
            i = i + 1;
        }
        // unreachable under the precondition; keep the contract total
        proof {
            assert(false);
        }
        0
    }

    /// Appends one node with the given fields and an empty adjacency list.
    fn add_node(&mut self, file: usize, local_id: u64, kind: NodeKind) -> (r: usize)
        requires
            old(self).wf(),
            file < old(self).files@.len(),
            kind != NodeKind::Root,
            match kind_symbol(kind) {
                Some(s) => s < old(self).symbols@.len(),
                None => true,
            },
            match kind {
                NodeKind::PushScopedSymbol { attached_scope, .. } => attached_scope < old(
                    self,
                ).nodes@.len(),
                _ => true,
            },
        ensures
            final(self).wf(),
            final(self).symbols@ == old(self).symbols@,
            final(self).files@ == old(self).files@,
            r == old(self).nodes@.len(),
            final(self).nodes@ == old(self).nodes@.push(
                Node { file: Some(file), local_id, kind },
            ),
            final(self).edges@.len() == old(self).edges@.len() + 1,
            forall|u: int|
                0 <= u < old(self).edges@.len() ==> final(self).out_edges(u) == old(
                    self,
                ).out_edges(u),
            final(self).out_edges(r as int).len() == 0,
    {
        let r = self.nodes.len();
        self.nodes.push(Node { file: Some(file), local_id, kind });
        self.edges.push(Vec::new());
        r
    }

    /// Adds a definition node: pops its symbol and terminates complete paths.
    pub fn definition(&mut self, file: usize, local_id: u64, symbol: usize) -> (r: usize)
        requires
            old(self).wf(),
            file < old(self).files@.len(),
            symbol < old(self).symbols@.len(),
        ensures
            final(self).wf(),
            final(self).symbols@ == old(self).symbols@,
            final(self).files@ == old(self).files@,
            r == old(self).nodes@.len(),
            final(self).nodes@ == old(self).nodes@.push(
                Node { file: Some(file), local_id, kind: NodeKind::Definition { symbol } },
            ),
            forall|u: int|
                0 <= u < old(self).edges@.len() ==> final(self).out_edges(u) == old(
                    self,
                ).out_edges(u),
            final(self).out_edges(r as int).len() == 0,
    {
        self.add_node(file, local_id, NodeKind::Definition { symbol })
    }

    /// Adds a reference node: pushes its symbol and starts complete paths.
    pub fn reference(&mut self, file: usize, local_id: u64, symbol: usize) -> (r: usize)
        requires
            old(self).wf(),
            file < old(self).files@.len(),
            symbol < old(self).symbols@.len(),
        ensures
            final(self).wf(),
            final(self).symbols@ == old(self).symbols@,
            final(self).files@ == old(self).files@,
            r == old(self).nodes@.len(),
            final(self).nodes@ == old(self).nodes@.push(
                Node { file: Some(file), local_id, kind: NodeKind::Reference { symbol } },
            ),
            forall|u: int|
                0 <= u < old(self).edges@.len() ==> final(self).out_edges(u) == old(
                    self,
                ).out_edges(u),
            final(self).out_edges(r as int).len() == 0,
    {
        self.add_node(file, local_id, NodeKind::Reference { symbol })
    }

    /// Adds an internal scope node.
    pub fn internal_scope(&mut self, file: usize, local_id: u64) -> (r: usize)
        requires
            old(self).wf(),
            file < old(self).files@.len(),
        ensures
            final(self).wf(),
            final(self).symbols@ == old(self).symbols@,
            final(self).files@ == old(self).files@,
            r == old(self).nodes@.len(),
            final(self).nodes@ == old(self).nodes@.push(
                Node { file: Some(file), local_id, kind: NodeKind::InternalScope },
            ),
            forall|u: int|
                0 <= u < old(self).edges@.len() ==> final(self).out_edges(u) == old(
                    self,
                ).out_edges(u),
            final(self).out_edges(r as int).len() == 0,
    {
        self.add_node(file, local_id, NodeKind::InternalScope)
    }

    /// Adds an exported scope node, which other files may save and jump to.
    pub fn exported_scope(&mut self, file: usize, local_id: u64) -> (r: usize)
        requires
            old(self).wf(),
            file < old(self).files@.len(),
        ensures
            final(self).wf(),
            final(self).symbols@ == old(self).symbols@,
            final(self).files@ == old(self).files@,
            r == old(self).nodes@.len(),
            final(self).nodes@ == old(self).nodes@.push(
                Node { file: Some(file), local_id, kind: NodeKind::ExportedScope },
            ),
            forall|u: int|
                0 <= u < old(self).edges@.len() ==> final(self).out_edges(u) == old(
                    self,
                ).out_edges(u),
            final(self).out_edges(r as int).len() == 0,
    {
        self.add_node(file, local_id, NodeKind::ExportedScope)
    }

    /// Adds a plain pop-symbol node.
    pub fn pop_symbol(&mut self, file: usize, local_id: u64, symbol: usize) -> (r: usize)
        requires
            old(self).wf(),
            file < old(self).files@.len(),
            symbol < old(self).symbols@.len(),
        ensures
            final(self).wf(),
            final(self).symbols@ == old(self).symbols@,
            final(self).files@ == old(self).files@,
            r == old(self).nodes@.len(),
            final(self).nodes@ == old(self).nodes@.push(
                Node { file: Some(file), local_id, kind: NodeKind::PopSymbol { symbol } },
            ),
            forall|u: int|
                0 <= u < old(self).edges@.len() ==> final(self).out_edges(u) == old(
                    self,
                ).out_edges(u),
            final(self).out_edges(r as int).len() == 0,
    {
        self.add_node(file, local_id, NodeKind::PopSymbol { symbol })
    }

    /// Adds a plain push-symbol node.
    pub fn push_symbol(&mut self, file: usize, local_id: u64, symbol: usize) -> (r: usize)
        requires
            old(self).wf(),
            file < old(self).files@.len(),
            symbol < old(self).symbols@.len(),
        ensures
            final(self).wf(),
            final(self).symbols@ == old(self).symbols@,
            final(self).files@ == old(self).files@,
            r == old(self).nodes@.len(),
            final(self).nodes@ == old(self).nodes@.push(
                Node { file: Some(file), local_id, kind: NodeKind::PushSymbol { symbol } },
            ),
            forall|u: int|
                0 <= u < old(self).edges@.len() ==> final(self).out_edges(u) == old(
                    self,
                ).out_edges(u),
            final(self).out_edges(r as int).len() == 0,
    {
        self.add_node(file, local_id, NodeKind::PushSymbol { symbol })
    }

    /// Adds a scoped pop-symbol node.
    pub fn pop_scoped_symbol(&mut self, file: usize, local_id: u64, symbol: usize) -> (r: usize)
        requires
            old(self).wf(),
            file < old(self).files@.len(),
            symbol < old(self).symbols@.len(),
        ensures
            final(self).wf(),
            final(self).symbols@ == old(self).symbols@,
            final(self).files@ == old(self).files@,
            r == old(self).nodes@.len(),
            final(self).nodes@ == old(self).nodes@.push(
                Node { file: Some(file), local_id, kind: NodeKind::PopScopedSymbol { symbol } },
            ),
            forall|u: int|
                0 <= u < old(self).edges@.len() ==> final(self).out_edges(u) == old(
                    self,
                ).out_edges(u),
            final(self).out_edges(r as int).len() == 0,
    {
        self.add_node(file, local_id, NodeKind::PopScopedSymbol { symbol })
    }

    /// Adds a scoped push-symbol node whose attached scope is the exported
    /// scope created under `(attached_file, attached_local_id)`.
    #[verifier::loop_isolation(false)]
    pub fn push_scoped_symbol(
        &mut self,
        file: usize,
        local_id: u64,
        symbol: usize,
        attached_file: usize,
        attached_local_id: u64,
    ) -> (r: usize)
        requires
            old(self).wf(),
            file < old(self).files@.len(),
            symbol < old(self).symbols@.len(),
            exists|i: int|
                0 <= i < old(self).nodes@.len() && (#[trigger] old(self).nodes@[i]).file == Some(
                    attached_file,
                ) && old(self).nodes@[i].local_id == attached_local_id && old(self).nodes@[i].kind
                    == NodeKind::ExportedScope,
        ensures
            final(self).wf(),
            final(self).symbols@ == old(self).symbols@,
            final(self).files@ == old(self).files@,
            r == old(self).nodes@.len(),
            exists|a: int|
                {
                    &&& 0 <= a < old(self).nodes@.len()
                    &&& (#[trigger] old(self).nodes@[a]).file == Some(attached_file)
                    &&& old(self).nodes@[a].local_id == attached_local_id
                    &&& old(self).nodes@[a].kind == NodeKind::ExportedScope
                    &&& final(self).nodes@ == old(self).nodes@.push(
                        Node {
                            file: Some(file),
                            local_id,
                            kind: NodeKind::PushScopedSymbol {
                                symbol,
                                attached_scope: a as usize,
                            },
                        },
                    )
                },
            forall|u: int|
                0 <= u < old(self).edges@.len() ==> final(self).out_edges(u) == old(
                    self,
                ).out_edges(u),
            final(self).out_edges(r as int).len() == 0,
    {
        let n = self.nodes.len();
        let mut i: usize = 0;
        let mut found: usize = 0;
        let mut have: bool = false;
        while i < n
            invariant
                n == self.nodes@.len(),
                0 <= i <= n,
                have ==> 0 <= found < n && self.nodes@[found as int].file == Some(attached_file)
                    && self.nodes@[found as int].local_id == attached_local_id
                    && self.nodes@[found as int].kind == NodeKind::ExportedScope,
                !have ==> forall|j: int|
                    0 <= j < i ==> !((#[trigger] self.nodes@[j]).file == Some(attached_file)
                        && self.nodes@[j].local_id == attached_local_id && self.nodes@[j].kind
                        == NodeKind::ExportedScope),
            decreases n - i,
        {
            if !have {
                let nd = self.nodes[i];
                let file_matches = match nd.file {
                    Some(f) => f == attached_file,
                    None => false,
                };
                if file_matches && nd.local_id == attached_local_id && nd.kind
                    == NodeKind::ExportedScope {
                    found = i;
                    have = true;
                }
            }
            i = i + 1;
        }
        if !have {
            // unreachable under the precondition; keep the contract total
            proof {
                assert(false);
            }
        }
        self.add_node(
            file,
            local_id,
            NodeKind::PushScopedSymbol { symbol, attached_scope: found },
        )
    }

    /// Adds a drop-scopes node.
    pub fn drop_scopes(&mut self, file: usize, local_id: u64) -> (r: usize)
        requires
            old(self).wf(),
            file < old(self).files@.len(),
        ensures
            final(self).wf(),
            final(self).symbols@ == old(self).symbols@,
            final(self).files@ == old(self).files@,
            r == old(self).nodes@.len(),
            final(self).nodes@ == old(self).nodes@.push(
                Node { file: Some(file), local_id, kind: NodeKind::DropScopes },
            ),
            forall|u: int|
                0 <= u < old(self).edges@.len() ==> final(self).out_edges(u) == old(
                    self,
                ).out_edges(u),
            final(self).out_edges(r as int).len() == 0,
    {
        self.add_node(file, local_id, NodeKind::DropScopes)
    }

    /// Adds a jump-to-scope node.
    pub fn jump_to_scope(&mut self, file: usize, local_id: u64) -> (r: usize)
        requires
            old(self).wf(),
            file < old(self).files@.len(),
        ensures
            final(self).wf(),
            final(self).symbols@ == old(self).symbols@,
            final(self).files@ == old(self).files@,
            r == old(self).nodes@.len(),
            final(self).nodes@ == old(self).nodes@.push(
                Node { file: Some(file), local_id, kind: NodeKind::JumpToScope },
            ),
            forall|u: int|
                0 <= u < old(self).edges@.len() ==> final(self).out_edges(u) == old(
                    self,
                ).out_edges(u),
            final(self).out_edges(r as int).len() == 0,
    {
        self.add_node(file, local_id, NodeKind::JumpToScope)
    }

    /// The sorted adjacency list of `u` after inserting `e`, unchanged when
    /// an equal edge is already present.
    pub open spec fn spec_insert_edge(s: Seq<Edge>, e: Edge) -> Seq<Edge>
        decreases s.len(),
    {
        if s.len() == 0 {
            seq![e]
        } else if edge_lt(e, s[0]) {
            seq![e] + s
        } else if e == s[0] {
            s
        } else {
            seq![s[0]] + Self::spec_insert_edge(s.drop_first(), e)
        }
    }

    /// Adds a directed edge with an explicit precedence. Duplicate edges are
    /// idempotent; the adjacency list stays strictly sorted.
    #[verifier::loop_isolation(false)]
    pub fn edge_with_precedence(&mut self, source: usize, sink: usize, precedence: i64)
        requires
            old(self).wf(),
            source < old(self).nodes@.len(),
            sink < old(self).nodes@.len(),
        ensures
            final(self).wf(),
            final(self).symbols@ == old(self).symbols@,
            final(self).files@ == old(self).files@,
            final(self).nodes@ == old(self).nodes@,
            forall|u: int|
                0 <= u < old(self).edges@.len() && u != source ==> final(self).out_edges(u) == old(
                    self,
                ).out_edges(u),
            final(self).out_edges(source as int) == Self::spec_insert_edge(
                old(self).out_edges(source as int),
                Edge { source, sink, precedence },
            ),
    {
        let e = Edge { source, sink, precedence };
        let n = self.edges[source].len();
        let mut i: usize = 0;
        while i < n && edge_below(&self.edges[source], i, e)
            invariant
                self.wf(),
                source < self.edges@.len(),
                n == self.out_edges(source as int).len(),
                0 <= i <= n,
                forall|j: int|
                    0 <= j < i ==> edge_lt(#[trigger] self.out_edges(source as int)[j], e),
            decreases n - i,
        {
            i = i + 1;
        }
        if i < n && self.edges[source][i] == e {
            // already present: idempotent
            proof {
                lemma_insert_edge_present(self.out_edges(source as int), e, i as int);
            }
            return ;
        }
        proof {
            let s = self.out_edges(source as int);
            lemma_insert_edge_at(s, e, i as int);
            let t = s.take(i as int).push(e) + s.skip(i as int);
            assert forall|j: int| 0 < j < t.len() implies edge_lt(t[j - 1], #[trigger] t[j]) by {
                if j < i {
                    assert(t[j - 1] == s[j - 1] && t[j] == s[j]);
                } else if j == i {
                    assert(t[j - 1] == s[j - 1] && t[j] == e);
                } else if j == i + 1 {
                    assert(t[j - 1] == e && t[j] == s[i as int]);
                } else {
                    assert(t[j - 1] == s[j - 2] && t[j] == s[j - 1]);
                }
            }
        }
        self.edges[source].insert(i, e);
        proof {
            assert(self.out_edges(source as int) =~= old(self).out_edges(source as int).take(
                i as int,
            ).push(e) + old(self).out_edges(source as int).skip(i as int));
        }
    }

    /// Adds a directed edge with the default precedence 0.
    pub fn edge(&mut self, source: usize, sink: usize)
        requires
            old(self).wf(),
            source < old(self).nodes@.len(),
            sink < old(self).nodes@.len(),
        ensures
            final(self).wf(),
            final(self).symbols@ == old(self).symbols@,
            final(self).files@ == old(self).files@,
            final(self).nodes@ == old(self).nodes@,
            forall|u: int|
                0 <= u < old(self).edges@.len() && u != source ==> final(self).out_edges(u) == old(
                    self,
                ).out_edges(u),
            final(self).out_edges(source as int) == Self::spec_insert_edge(
                old(self).out_edges(source as int),
                Edge { source, sink, precedence: 0 },
            ),
    {
        self.edge_with_precedence(source, sink, 0)
    }

    /// The number of nodes; handles are `0 .. node_count`.
    pub fn num_nodes(&self) -> (r: usize)
        ensures
            r == self.nodes@.len(),
    {
        self.nodes.len()
    }

    /// Whether `h` is a reference node.
    pub fn is_reference(&self, h: usize) -> (r: bool)
        requires
            h < self.nodes@.len(),
        ensures
            r == (self.kind_at(h as int) matches NodeKind::Reference { .. }),
    {
        match self.nodes[h].kind {
            NodeKind::Reference { .. } => true,
            _ => false,
        }
    }

    /// Whether `h` is a definition node.
    pub fn is_definition(&self, h: usize) -> (r: bool)
        requires
            h < self.nodes@.len(),
        ensures
            r == (self.kind_at(h as int) matches NodeKind::Definition { .. }),
    {
        match self.nodes[h].kind {
            NodeKind::Definition { .. } => true,
            _ => false,
        }
    }
}

/// Whether the edge at `i` comes strictly before `e` in the deterministic
/// successor order.
fn edge_below(list: &Vec<Edge>, i: usize, e: Edge) -> (r: bool)
    requires
        i < list@.len(),
    ensures
        r == edge_lt(list@[i as int], e),
{
    let c = list[i];
    c.precedence < e.precedence || (c.precedence == e.precedence && c.sink < e.sink)
}

/// Inserting an edge equal to `s[i]` leaves a sorted list unchanged.
proof fn lemma_insert_edge_present(s: Seq<Edge>, e: Edge, i: int)
    requires
        0 <= i < s.len(),
        s[i] == e,
        forall|j: int| 0 < j < s.len() ==> edge_lt(s[j - 1], #[trigger] s[j]),
        forall|j: int| 0 <= j < i ==> edge_lt(#[trigger] s[j], e),
    ensures
        StackGraph::spec_insert_edge(s, e) == s,
    decreases i,
{
    if i == 0 {
        assert(!edge_lt(e, s[0]));
        assert(StackGraph::spec_insert_edge(s, e) == s);
    } else {
        assert(edge_lt(s[0], e));
        assert(!edge_lt(e, s[0]) && e != s[0]);
        lemma_insert_edge_present(s.drop_first(), e, i - 1);
        assert(StackGraph::spec_insert_edge(s, e) == seq![s[0]] + s.drop_first());
        assert(seq![s[0]] + s.drop_first() =~= s);
    }
}

/// Inserting `e` at the first position `i` whose element is not below `e`
/// yields the same list with `e` spliced in at `i`.
proof fn lemma_insert_edge_at(s: Seq<Edge>, e: Edge, i: int)
    requires
        0 <= i <= s.len(),
        forall|j: int| 0 < j < s.len() ==> edge_lt(s[j - 1], #[trigger] s[j]),
        forall|j: int| 0 <= j < i ==> edge_lt(#[trigger] s[j], e),
        i < s.len() ==> edge_lt(e, s[i]),
    ensures
        StackGraph::spec_insert_edge(s, e) == s.take(i).push(e) + s.skip(i),
    decreases i,
{
    if s.len() == 0 {
        assert(StackGraph::spec_insert_edge(s, e) =~= s.take(i).push(e) + s.skip(i));
    } else if i == 0 {
        assert(edge_lt(e, s[0]));
        assert(StackGraph::spec_insert_edge(s, e) =~= s.take(0).push(e) + s.skip(0));
    } else {
        assert(edge_lt(s[0], e));
        assert(!edge_lt(e, s[0]) && e != s[0]);
        lemma_insert_edge_at(s.drop_first(), e, i - 1);
        assert(s.drop_first().take(i - 1) =~= s.take(i).drop_first());
        assert(StackGraph::spec_insert_edge(s, e) == seq![s[0]] + (s.drop_first().take(i - 1).push(
            e,
        ) + s.drop_first().skip(i - 1)));
        assert(seq![s[0]] + (s.drop_first().take(i - 1).push(e) + s.drop_first().skip(i - 1)) =~= s
            .take(i).push(e) + s.skip(i));
    }
}

} // verus!

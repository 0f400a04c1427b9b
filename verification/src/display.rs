//! Deterministic textual display of paths and partial paths, used by tests
//! to compare search results against expected resolutions.
//!
//! A node shows as `root`, `jump to scope`, or `file(local_id) kind
//! [symbol]`. A symbol stack shows its elements front first with no
//! separator (an element with attached scopes appends `/(scopes)`),
//! followed by `,%N` for its tail variable; a scope stack shows its scopes
//! as bracketed node tags joined by commas, followed by `$N` for its tail
//! variable. A complete path shows only its endpoints; a partial path shows
//! its precondition, endpoints, and postcondition.

use vstd::prelude::*;

use crate::graph::NodeKind;
use crate::graph::StackGraph;
use crate::partial::PartialPath;
use crate::partial::PartialScopedSymbol;
use crate::partial::pelem_v;
use crate::partial::pscopes_ok;
use crate::partial::pscopes_v;
use crate::paths::Path;

verus! {

/// The digit character of `d`.
pub open spec fn digit_seq(d: int) -> Seq<char> {
    if d == 0 {
        "0"@
    } else if d == 1 {
        "1"@
    } else if d == 2 {
        "2"@
    } else if d == 3 {
        "3"@
    } else if d == 4 {
        "4"@
    } else if d == 5 {
        "5"@
    } else if d == 6 {
        "6"@
    } else if d == 7 {
        "7"@
    } else if d == 8 {
        "8"@
    } else {
        "9"@
    }
}

/// The decimal digits of `n`, most significant first.
pub open spec fn dec_digits(n: int) -> Seq<char>
    decreases n,
{
    if n < 10 {
        digit_seq(n)
    } else {
        dec_digits(n / 10) + digit_seq(n % 10)
    }
}

/// Appends the decimal digits of `n`.
pub fn append_u64(out: &mut String, n: u64)
    ensures
        final(out)@ == old(out)@ + dec_digits(n as int),
    decreases n,
{
    if n >= 10 {
        append_u64(out, n / 10);
    }
    let d = n % 10;
    match d {
        0 => out.append("0"),
        1 => out.append("1"),
        2 => out.append("2"),
        3 => out.append("3"),
        4 => out.append("4"),
        5 => out.append("5"),
        6 => out.append("6"),
        7 => out.append("7"),
        8 => out.append("8"),
        _ => out.append("9"),
    }
    proof {
        assert(out@ =~= old(out)@ + dec_digits(n as int));
    }
}

/// The tag of node `v`.
pub open spec fn spec_node_tag(g: StackGraph, v: usize) -> Seq<char> {
    match g.kind_at(v as int) {
        NodeKind::Root => "root"@,
        NodeKind::JumpToScope => "jump to scope"@,
        _ => {
            let file = match g.nodes@[v as int].file {
                Some(f) => g.file_text(f as int),
                None => Seq::<char>::empty(),
            };
            file + "("@ + dec_digits(g.nodes@[v as int].local_id as int) + ") "@ + spec_kind_tag(
                g,
                v,
            )
        },
    }
}

/// The kind word of node `v`, with its symbol where the variant has one.
pub open spec fn spec_kind_tag(g: StackGraph, v: usize) -> Seq<char> {
    match g.kind_at(v as int) {
        NodeKind::Root => "root"@,
        NodeKind::JumpToScope => "jump to scope"@,
        NodeKind::InternalScope => "scope"@,
        NodeKind::ExportedScope => "exported scope"@,
        NodeKind::DropScopes => "drop scopes"@,
        NodeKind::PushSymbol { symbol } => "push "@ + g.sym_text(symbol as int),
        NodeKind::PushScopedSymbol { symbol, .. } => "push scoped "@ + g.sym_text(symbol as int),
        NodeKind::PopSymbol { symbol } => "pop "@ + g.sym_text(symbol as int),
        NodeKind::PopScopedSymbol { symbol } => "pop scoped "@ + g.sym_text(symbol as int),
        NodeKind::Definition { symbol } => "definition "@ + g.sym_text(symbol as int),
        NodeKind::Reference { symbol } => "reference "@ + g.sym_text(symbol as int),
    }
}

/// Appends the tag of node `v`.
pub fn append_node_tag(g: &StackGraph, out: &mut String, v: usize)
    requires
        g.wf(),
        v < g.nodes@.len(),
    ensures
        final(out)@ == old(out)@ + spec_node_tag(*g, v),
{
    match g.nodes[v].kind {
        NodeKind::Root => {
            out.append("root");
        },
        NodeKind::JumpToScope => {
            out.append("jump to scope");
        },
        _ => {
            match g.nodes[v].file {
                Some(f) => {
                    out.append(g.files[f].as_str());
                },
                None => {},
            }
            out.append("(");
            append_u64(out, g.nodes[v].local_id);
            out.append(") ");
            match g.nodes[v].kind {
                NodeKind::Root => {
                    out.append("root");
                },
                NodeKind::JumpToScope => {
                    out.append("jump to scope");
                },
                NodeKind::InternalScope => {
                    out.append("scope");
                },
                NodeKind::ExportedScope => {
                    out.append("exported scope");
                },
                NodeKind::DropScopes => {
                    out.append("drop scopes");
                },
                NodeKind::PushSymbol { symbol } => {
                    out.append("push ");
                    out.append(g.symbols[symbol].as_str());
                },
                NodeKind::PushScopedSymbol { symbol, .. } => {
                    out.append("push scoped ");
                    out.append(g.symbols[symbol].as_str());
                },
                NodeKind::PopSymbol { symbol } => {
                    out.append("pop ");
                    out.append(g.symbols[symbol].as_str());
                },
                NodeKind::PopScopedSymbol { symbol } => {
                    out.append("pop scoped ");
                    out.append(g.symbols[symbol].as_str());
                },
                NodeKind::Definition { symbol } => {
                    out.append("definition ");
                    out.append(g.symbols[symbol].as_str());
                },
                NodeKind::Reference { symbol } => {
                    out.append("reference ");
                    out.append(g.symbols[symbol].as_str());
                },
            }
            proof {
                assert(out@ =~= old(out)@ + spec_node_tag(*g, v));
            }
        },
    }
}

/// The short tag of node `v` inside a scope stack: its file and stable
/// integer, without the kind word.
pub open spec fn spec_scope_tag(g: StackGraph, v: usize) -> Seq<char> {
    match g.kind_at(v as int) {
        NodeKind::Root => "root"@,
        NodeKind::JumpToScope => "jump to scope"@,
        _ => {
            let file = match g.nodes@[v as int].file {
                Some(f) => g.file_text(f as int),
                None => Seq::<char>::empty(),
            };
            file + "("@ + dec_digits(g.nodes@[v as int].local_id as int) + ")"@
        },
    }
}

/// Appends the short tag of node `v`.
pub fn append_scope_tag(g: &StackGraph, out: &mut String, v: usize)
    requires
        g.wf(),
        v < g.nodes@.len(),
    ensures
        final(out)@ == old(out)@ + spec_scope_tag(*g, v),
{
    match g.nodes[v].kind {
        NodeKind::Root => {
            out.append("root");
        },
        NodeKind::JumpToScope => {
            out.append("jump to scope");
        },
        _ => {
            match g.nodes[v].file {
                Some(f) => {
                    out.append(g.files[f].as_str());
                },
                None => {},
            }
            out.append("(");
            append_u64(out, g.nodes[v].local_id);
            out.append(")");
            proof {
                assert(out@ =~= old(out)@ + spec_scope_tag(*g, v));
            }
        },
    }
}

/// The display of a scope stack from index `i` on: bracketed node tags
/// joined by commas, then the tail variable as `$N`.
pub open spec fn spec_scopes_disp(
    g: StackGraph,
    s: Seq<usize>,
    variable: Option<usize>,
) -> Seq<char>
    decreases s.len(),
{
    if s.len() == 0 {
        match variable {
            Some(n) => "$"@ + dec_digits(n as int),
            None => Seq::<char>::empty(),
        }
    } else {
        let sep: Seq<char> = if s.len() == 1 && variable is None {
            Seq::<char>::empty()
        } else {
            ","@
        };
        "["@ + spec_scope_tag(g, s[0]) + "]"@ + sep + spec_scopes_disp(
            g,
            s.drop_first(),
            variable,
        )
    }
}

/// Appends the display of the scope stack `s` with tail `variable`, from
/// index `i` on.
#[verifier::loop_isolation(false)]
pub fn append_scopes_from(
    g: &StackGraph,
    out: &mut String,
    s: &Vec<usize>,
    i: usize,
    variable: Option<usize>,
)
    requires
        g.wf(),
        i <= s@.len(),
        forall|j: int| 0 <= j < s@.len() ==> (#[trigger] s@[j]) < g.nodes@.len(),
    ensures
        final(out)@ == old(out)@ + spec_scopes_disp(*g, s@.skip(i as int), variable),
    decreases s@.len() - i,
{
    if i == s.len() {
        match variable {
            Some(n) => {
                out.append("$");
                append_u64(out, n as u64);
            },
            None => {},
        }
        proof {
            assert(out@ =~= old(out)@ + spec_scopes_disp(
                *g,
                s@.skip(i as int),
                variable,
            ));
        }
        return ;
    }
    out.append("[");
    append_scope_tag(g, out, s[i]);
    out.append("]");
    if !(i + 1 == s.len() && variable.is_none()) {
        out.append(",");
    }
    append_scopes_from(g, out, s, i + 1, variable);
    proof {
        assert(s@.skip(i as int).drop_first() =~= s@.skip(i + 1));
        assert(s@.skip(i as int)[0] == s@[i as int]);
        assert(out@ =~= old(out)@ + spec_scopes_disp(*g, s@.skip(i as int), variable));
    }
}

/// The display of one partial symbol-stack element: its symbol's text,
/// with `/(scopes)` when scopes are attached.
pub open spec fn spec_pelem_disp(g: StackGraph, e: PartialScopedSymbol) -> Seq<char> {
    match pelem_v(e).scopes {
        Some(sc) => g.sym_text(e.symbol as int) + "/("@ + spec_scopes_disp(
            g,
            sc.scopes,
            sc.variable,
        ) + ")"@,
        None => g.sym_text(e.symbol as int),
    }
}

/// The display of the elements of a partial symbol stack from index `i`
/// on, concatenated without separators, then the tail variable as `,%N`
/// (the comma only after at least one element).
pub open spec fn spec_psym_disp(
    g: StackGraph,
    s: Seq<PartialScopedSymbol>,
    variable: Option<usize>,
    lead: bool,
) -> Seq<char>
    decreases s.len(),
{
    if s.len() == 0 {
        match variable {
            Some(n) => if lead {
                "%"@ + dec_digits(n as int)
            } else {
                ",%"@ + dec_digits(n as int)
            },
            None => Seq::<char>::empty(),
        }
    } else {
        spec_pelem_disp(g, s[0]) + spec_psym_disp(g, s.drop_first(), variable, false)
    }
}

/// Appends the display of the symbol stack `s` with tail `variable`, from
/// index `i` on; `lead` records whether nothing was written yet.
#[verifier::loop_isolation(false)]
pub fn append_psym_from(
    g: &StackGraph,
    out: &mut String,
    s: &Vec<PartialScopedSymbol>,
    i: usize,
    variable: Option<usize>,
    lead: bool,
)
    requires
        g.wf(),
        i <= s@.len(),
        forall|j: int| 0 <= j < s@.len() ==> crate::partial::pelem_ok(*g, pelem_v(#[trigger] s@[j])),
    ensures
        final(out)@ == old(out)@ + spec_psym_disp(*g, s@.skip(i as int), variable, lead),
    decreases s@.len() - i,
{
    if i == s.len() {
        match variable {
            Some(n) => {
                if lead {
                    out.append("%");
                } else {
                    out.append(",%");
                }
                append_u64(out, n as u64);
            },
            None => {},
        }
        proof {
            assert(out@ =~= old(out)@ + spec_psym_disp(
                *g,
                s@.skip(i as int),
                variable,
                lead,
            ));
        }
        return ;
    }
    proof {
        assert(crate::partial::pelem_ok(*g, pelem_v(s@[i as int])));
    }
    let e = &s[i];
    out.append(g.symbols[e.symbol].as_str());
    match &e.scopes {
        Some(sc) => {
            proof {
                assert(pelem_v(s@[i as int]).scopes == Some(pscopes_v(*sc)));
                assert forall|j: int|
                    0 <= j < sc.scopes@.len() implies (sc.scopes@[j]) < g.nodes@.len() by {
                    assert(pscopes_ok(*g, pscopes_v(*sc)));
                    assert(pscopes_v(*sc).scopes[j] < g.nodes@.len());
                }
            }
            out.append("/(");
            append_scopes_from(g, out, &sc.scopes, 0, sc.variable);
            out.append(")");
            proof {
                assert(sc.scopes@.skip(0) =~= sc.scopes@);
            }
        },
        None => {},
    }
    append_psym_from(g, out, s, i + 1, variable, false);
    proof {
        assert(s@.skip(i as int).drop_first() =~= s@.skip(i + 1));
        assert(s@.skip(i as int)[0] == s@[i as int]);
        assert(out@ =~= old(out)@ + spec_psym_disp(
            *g,
            s@.skip(i as int),
            variable,
            lead,
        ));
    }
}

/// The display of a complete path: its endpoints.
pub open spec fn spec_path_disp(g: StackGraph, p: Path) -> Seq<char> {
    "["@ + spec_node_tag(g, p.start_node) + "] -> ["@ + spec_node_tag(g, p.end_node) + "]"@
}

/// The display of a partial path: precondition, endpoints, postcondition.
pub open spec fn spec_partial_disp(g: StackGraph, q: PartialPath) -> Seq<char> {
    "<"@ + spec_psym_disp(
        g,
        q.symbol_stack_precondition.symbols@,
        q.symbol_stack_precondition.variable,
        true,
    ) + "> ("@ + spec_scopes_disp(
        g,
        q.scope_stack_precondition.scopes@,
        q.scope_stack_precondition.variable,
    ) + ") ["@ + spec_node_tag(g, q.start_node) + "] -> ["@ + spec_node_tag(g, q.end_node)
        + "] <"@ + spec_psym_disp(
        g,
        q.symbol_stack_postcondition.symbols@,
        q.symbol_stack_postcondition.variable,
        true,
    ) + "> ("@ + spec_scopes_disp(
        g,
        q.scope_stack_postcondition.scopes@,
        q.scope_stack_postcondition.variable,
    ) + ")"@
}

impl Path {
    /// The canonical textual form of this path.
    pub fn display(&self, g: &StackGraph) -> (r: String)
        requires
            g.wf(),
            self.valid(*g),
        ensures
            r@ == spec_path_disp(*g, *self),
    {
        let mut out = String::new();
        out.append("[");
        append_node_tag(g, &mut out, self.start_node);
        out.append("] -> [");
        append_node_tag(g, &mut out, self.end_node);
        out.append("]");
        proof {
            assert(out@ =~= spec_path_disp(*g, *self));
        }
        out
    }
}

impl PartialPath {
    /// The canonical textual form of this partial path.
    pub fn display(&self, g: &StackGraph) -> (r: String)
        requires
            g.wf(),
            self.valid(*g),
        ensures
            r@ == spec_partial_disp(*g, *self),
    {
        proof {
            assert(crate::partial::pstate_valid(*g, self.pstate_v()));
            assert forall|j: int|
                0 <= j < self.symbol_stack_precondition.symbols@.len() implies crate::partial::pelem_ok(
                *g,
                pelem_v(self.symbol_stack_precondition.symbols@[j]),
            ) by {
                assert(crate::partial::pelem_ok(*g, self.pstate_v().sym_pre.symbols[j]));
                assert(self.pstate_v().sym_pre.symbols[j] == pelem_v(
                    self.symbol_stack_precondition.symbols@[j],
                ));
            }
            assert forall|j: int|
                0 <= j < self.symbol_stack_postcondition.symbols@.len() implies crate::partial::pelem_ok(
                *g,
                pelem_v(self.symbol_stack_postcondition.symbols@[j]),
            ) by {
                assert(crate::partial::pelem_ok(*g, self.pstate_v().sym_post.symbols[j]));
                assert(self.pstate_v().sym_post.symbols[j] == pelem_v(
                    self.symbol_stack_postcondition.symbols@[j],
                ));
            }
            assert forall|j: int|
                0 <= j < self.scope_stack_precondition.scopes@.len() implies (
            self.scope_stack_precondition.scopes@[j]) < g.nodes@.len() by {
                assert(self.pstate_v().scope_pre.scopes[j] < g.nodes@.len());
            }
            assert forall|j: int|
                0 <= j < self.scope_stack_postcondition.scopes@.len() implies (
            self.scope_stack_postcondition.scopes@[j]) < g.nodes@.len() by {
                assert(self.pstate_v().scope_post.scopes[j] < g.nodes@.len());
            }
        }
        let mut out = String::new();
        out.append("<");
        append_psym_from(
            g,
            &mut out,
            &self.symbol_stack_precondition.symbols,
            0,
            self.symbol_stack_precondition.variable,
            true,
        );
        out.append("> (");
        append_scopes_from(
            g,
            &mut out,
            &self.scope_stack_precondition.scopes,
            0,
            self.scope_stack_precondition.variable,
        );
        out.append(") [");
        append_node_tag(g, &mut out, self.start_node);
        out.append("] -> [");
        append_node_tag(g, &mut out, self.end_node);
        out.append("] <");
        append_psym_from(
            g,
            &mut out,
            &self.symbol_stack_postcondition.symbols,
            0,
            self.symbol_stack_postcondition.variable,
            true,
        );
        out.append("> (");
        append_scopes_from(
            g,
            &mut out,
            &self.scope_stack_postcondition.scopes,
            0,
            self.scope_stack_postcondition.variable,
        );
        out.append(")");
        proof {
            assert(self.symbol_stack_precondition.symbols@.skip(0)
                =~= self.symbol_stack_precondition.symbols@);
            assert(self.symbol_stack_postcondition.symbols@.skip(0)
                =~= self.symbol_stack_postcondition.symbols@);
            assert(self.scope_stack_precondition.scopes@.skip(0)
                =~= self.scope_stack_precondition.scopes@);
            assert(self.scope_stack_postcondition.scopes@.skip(0)
                =~= self.scope_stack_postcondition.scopes@);
            assert(out@ =~= spec_partial_disp(*g, *self));
        }
        out
    }
}

} // verus!

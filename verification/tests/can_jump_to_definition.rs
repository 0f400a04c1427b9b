// Jump-to-definition: complete-path search from every reference.

use std::collections::BTreeSet;

use stack_graphs::graph::StackGraph;
use stack_graphs::paths::find_all_paths;

const LIMIT: usize = 1_000_000;

fn check_jump_to_definition(g: &StackGraph, expected_paths: &[&str]) {
    let mut references: Vec<usize> = Vec::new();
    let mut h: usize = 0;
    while h < g.num_nodes() {
        if g.is_reference(h) {
            references.push(h);
        }
        h += 1;
    }
    let (paths, complete) = find_all_paths(g, &references, LIMIT);
    assert!(complete);
    let mut results = BTreeSet::new();
    for path in paths {
        if path.is_complete(g) {
            results.insert(path.display(g));
        }
    }
    let expected_paths = expected_paths
        .iter()
        .map(|s| s.to_string())
        .collect::<BTreeSet<_>>();
    assert_eq!(expected_paths, results);
}

#[allow(non_snake_case)]
fn build_chained_methods_python() -> StackGraph {
    let mut g = StackGraph::new();

    let root = g.root_node();
    let sym_call = g.symbol("()");
    let sym_dot = g.symbol(".");
    let sym_main = g.symbol("__main__");
    let sym_self = g.symbol("self");
    let sym_Builder = g.symbol("Builder");
    let sym_set_a = g.symbol("set_a");
    let sym_set_b = g.symbol("set_b");
    let sym_set_c = g.symbol("set_c");
    let sym_set_d = g.symbol("set_d");
    let sym_set_e = g.symbol("set_e");

    let main_file = g.file("main.py");
    let main = g.definition(main_file, 0, sym_main);
    let main_dot_1 = g.pop_symbol(main_file, 1, sym_dot);
    let main_bottom_2 = g.internal_scope(main_file, 2);
    let main_3 = g.internal_scope(main_file, 3);
    let main_4 = g.internal_scope(main_file, 4);
    let main_top_5 = g.internal_scope(main_file, 5);
    g.edge(root, main);
    g.edge(main, main_dot_1);
    g.edge(main_dot_1, main_bottom_2);
    g.edge(main_bottom_2, main_3);
    g.edge(main_3, main_4);
    g.edge(main_4, main_top_5);

    let main_Builder = g.definition(main_file, 100, sym_Builder);
    let Builder_dot_101 = g.pop_symbol(main_file, 101, sym_dot);
    let Builder_class_members_bottom_102 = g.internal_scope(main_file, 102);
    let Builder_class_members_103 = g.internal_scope(main_file, 103);
    let Builder_class_members_104 = g.internal_scope(main_file, 104);
    let Builder_class_members_105 = g.internal_scope(main_file, 105);
    let Builder_class_members_106 = g.internal_scope(main_file, 106);
    let Builder_class_members_107 = g.internal_scope(main_file, 107);
    let Builder_class_members_top_108 = g.internal_scope(main_file, 108);
    g.edge(main_4, main_Builder);
    g.edge(main_Builder, Builder_dot_101);
    g.edge(Builder_dot_101, Builder_class_members_bottom_102);
    g.edge(Builder_class_members_bottom_102, Builder_class_members_103);
    g.edge(Builder_class_members_103, Builder_class_members_104);
    g.edge(Builder_class_members_104, Builder_class_members_105);
    g.edge(Builder_class_members_105, Builder_class_members_106);
    g.edge(Builder_class_members_106, Builder_class_members_107);
    g.edge(Builder_class_members_107, Builder_class_members_top_108);

    let Builder_constructor = g.pop_scoped_symbol(main_file, 109, sym_call);
    let Builder_instance_drop = g.drop_scopes(main_file, 110);
    let Builder_dot_111 = g.pop_symbol(main_file, 111, sym_dot);
    let Builder_instance_members = g.exported_scope(main_file, 112);
    g.edge(main_Builder, Builder_constructor);
    g.edge(Builder_constructor, Builder_instance_drop);
    g.edge(Builder_instance_drop, Builder_dot_111);
    g.edge(Builder_dot_111, Builder_instance_members);
    g.edge(Builder_instance_members, Builder_class_members_bottom_102);

    let Builder_instance_dot = g.push_symbol(main_file, 113, sym_dot);
    let Builder_instance_members = g.push_symbol(main_file, 114, sym_self);
    g.edge(Builder_dot_111, Builder_instance_dot);
    g.edge(Builder_instance_dot, Builder_instance_members);

    let Builder_set_a = g.definition(main_file, 120, sym_set_a);
    let function_set_a = g.pop_scoped_symbol(main_file, 121, sym_call);
    let return_value_set_a = g.exported_scope(main_file, 122);
    let return_self_set_a = g.reference(main_file, 123, sym_self);
    let formals_set_a = g.internal_scope(main_file, 124);
    let self_param_set_a = g.definition(main_file, 125, sym_self);
    let self_link_set_a = g.pop_symbol(main_file, 126, sym_self);
    g.edge(Builder_class_members_107, Builder_set_a);
    g.edge(Builder_set_a, function_set_a);
    g.edge(function_set_a, return_value_set_a);
    g.edge(return_value_set_a, return_self_set_a);
    g.edge(return_self_set_a, formals_set_a);
    g.edge(formals_set_a, self_param_set_a);
    g.edge(formals_set_a, self_link_set_a);
    g.edge(self_link_set_a, Builder_instance_drop);
    g.edge(Builder_instance_members, formals_set_a);

    let Builder_set_b = g.definition(main_file, 130, sym_set_b);
    let function_set_b = g.pop_scoped_symbol(main_file, 131, sym_call);
    let return_value_set_b = g.exported_scope(main_file, 132);
    let return_self_set_b = g.reference(main_file, 133, sym_self);
    let formals_set_b = g.internal_scope(main_file, 134);
    let self_param_set_b = g.definition(main_file, 135, sym_self);
    let self_link_set_b = g.pop_symbol(main_file, 136, sym_self);
    g.edge(Builder_class_members_106, Builder_set_b);
    g.edge(Builder_set_b, function_set_b);
    g.edge(function_set_b, return_value_set_b);
    g.edge(return_value_set_b, return_self_set_b);
    g.edge(return_self_set_b, formals_set_b);
    g.edge(formals_set_b, self_param_set_b);
    g.edge(formals_set_b, self_link_set_b);
    g.edge(self_link_set_b, Builder_instance_drop);
    g.edge(Builder_instance_members, formals_set_b);

    let Builder_set_c = g.definition(main_file, 140, sym_set_c);
    let function_set_c = g.pop_scoped_symbol(main_file, 141, sym_call);
    let return_value_set_c = g.exported_scope(main_file, 142);
    let return_self_set_c = g.reference(main_file, 143, sym_self);
    let formals_set_c = g.internal_scope(main_file, 144);
    let self_param_set_c = g.definition(main_file, 145, sym_self);
    let self_link_set_c = g.pop_symbol(main_file, 146, sym_self);
    g.edge(Builder_class_members_105, Builder_set_c);
    g.edge(Builder_set_c, function_set_c);
    g.edge(function_set_c, return_value_set_c);
    g.edge(return_value_set_c, return_self_set_c);
    g.edge(return_self_set_c, formals_set_c);
    g.edge(formals_set_c, self_param_set_c);
    g.edge(formals_set_c, self_link_set_c);
    g.edge(self_link_set_c, Builder_instance_drop);
    g.edge(Builder_instance_members, formals_set_c);

    let Builder_set_d = g.definition(main_file, 150, sym_set_d);
    let function_set_d = g.pop_scoped_symbol(main_file, 151, sym_call);
    let return_value_set_d = g.exported_scope(main_file, 152);
    let return_self_set_d = g.reference(main_file, 153, sym_self);
    let formals_set_d = g.internal_scope(main_file, 154);
    let self_param_set_d = g.definition(main_file, 155, sym_self);
    let self_link_set_d = g.pop_symbol(main_file, 156, sym_self);
    g.edge(Builder_class_members_104, Builder_set_d);
    g.edge(Builder_set_d, function_set_d);
    g.edge(function_set_d, return_value_set_d);
    g.edge(return_value_set_d, return_self_set_d);
    g.edge(return_self_set_d, formals_set_d);
    g.edge(formals_set_d, self_param_set_d);
    g.edge(formals_set_d, self_link_set_d);
    g.edge(self_link_set_d, Builder_instance_drop);
    g.edge(Builder_instance_members, formals_set_d);

    let Builder_set_e = g.definition(main_file, 160, sym_set_e);
    let function_set_e = g.pop_scoped_symbol(main_file, 161, sym_call);
    let return_value_set_e = g.exported_scope(main_file, 162);
    let return_self_set_e = g.reference(main_file, 163, sym_self);
    let formals_set_e = g.internal_scope(main_file, 164);
    let self_param_set_e = g.definition(main_file, 165, sym_self);
    let self_link_set_e = g.pop_symbol(main_file, 166, sym_self);
    g.edge(Builder_class_members_103, Builder_set_e);
    g.edge(Builder_set_e, function_set_e);
    g.edge(function_set_e, return_value_set_e);
    g.edge(return_value_set_e, return_self_set_e);
    g.edge(return_self_set_e, formals_set_e);
    g.edge(formals_set_e, self_param_set_e);
    g.edge(formals_set_e, self_link_set_e);
    g.edge(self_param_set_e, Builder_instance_drop);
    g.edge(self_link_set_e, Builder_instance_drop);
    g.edge(Builder_instance_members, formals_set_e);

    let _empty_params = g.exported_scope(main_file, 200);
    let call_set_e = g.push_scoped_symbol(main_file, 210, sym_call, main_file, 200);
    let ref_set_e = g.reference(main_file, 211, sym_set_e);
    let dot_set_e = g.push_symbol(main_file, 212, sym_dot);
    let call_set_d = g.push_scoped_symbol(main_file, 220, sym_call, main_file, 200);
    let ref_set_d = g.reference(main_file, 221, sym_set_d);
    let dot_set_d = g.push_symbol(main_file, 222, sym_dot);
    let call_set_c = g.push_scoped_symbol(main_file, 230, sym_call, main_file, 200);
    let ref_set_c = g.reference(main_file, 231, sym_set_c);
    let dot_set_c = g.push_symbol(main_file, 232, sym_dot);
    let call_set_b = g.push_scoped_symbol(main_file, 240, sym_call, main_file, 200);
    let ref_set_b = g.reference(main_file, 241, sym_set_b);
    let dot_set_b = g.push_symbol(main_file, 242, sym_dot);
    let call_set_a = g.push_scoped_symbol(main_file, 250, sym_call, main_file, 200);
    let ref_set_a = g.reference(main_file, 251, sym_set_a);
    let dot_set_a = g.push_symbol(main_file, 252, sym_dot);
    let call_Builder = g.push_scoped_symbol(main_file, 260, sym_call, main_file, 200);
    let ref_Builder = g.reference(main_file, 261, sym_Builder);
    g.edge(call_set_e, ref_set_e);
    g.edge(ref_set_e, dot_set_e);
    g.edge(dot_set_e, call_set_d);
    g.edge(call_set_d, ref_set_d);
    g.edge(ref_set_d, dot_set_d);
    g.edge(dot_set_d, call_set_c);
    g.edge(call_set_c, ref_set_c);
    g.edge(ref_set_c, dot_set_c);
    g.edge(dot_set_c, call_set_b);
    g.edge(call_set_b, ref_set_b);
    g.edge(ref_set_b, dot_set_b);
    g.edge(dot_set_b, call_set_a);
    g.edge(call_set_a, ref_set_a);
    g.edge(ref_set_a, dot_set_a);
    g.edge(dot_set_a, call_Builder);
    g.edge(call_Builder, ref_Builder);
    g.edge(ref_Builder, main_3);
    g
}


#[test]
fn can_jump_to_definition_chained_methods_python() {
    let graph = build_chained_methods_python();
    check_jump_to_definition(
        &graph,
        &[
            "[main.py(123) reference self] -> [main.py(125) definition self]",
            "[main.py(133) reference self] -> [main.py(135) definition self]",
            "[main.py(143) reference self] -> [main.py(145) definition self]",
            "[main.py(153) reference self] -> [main.py(155) definition self]",
            "[main.py(163) reference self] -> [main.py(165) definition self]",
            "[main.py(261) reference Builder] -> [main.py(100) definition Builder]",
            "[main.py(251) reference set_a] -> [main.py(120) definition set_a]",
            "[main.py(241) reference set_b] -> [main.py(130) definition set_b]",
            "[main.py(231) reference set_c] -> [main.py(140) definition set_c]",
            "[main.py(221) reference set_d] -> [main.py(150) definition set_d]",
            "[main.py(211) reference set_e] -> [main.py(160) definition set_e]",
        ],
    );
}

// A three-file import cycle: main.py does `from a import *` and calls
// `foo`; a.py does `from b import *`; b.py does `from a import *` and
// defines `foo`.
fn build_cyclic_imports_python() -> StackGraph {
    let mut g = StackGraph::new();
    let root = g.root_node();
    let sym_dot = g.symbol(".");
    let sym_main = g.symbol("__main__");
    let sym_a = g.symbol("a");
    let sym_b = g.symbol("b");
    let sym_foo = g.symbol("foo");

    let main_file = g.file("main.py");
    let main = g.definition(main_file, 0, sym_main);
    let main_dot = g.pop_symbol(main_file, 1, sym_dot);
    let main_scope = g.internal_scope(main_file, 2);
    let main_push_dot = g.push_symbol(main_file, 3, sym_dot);
    let main_push_a = g.push_symbol(main_file, 4, sym_a);
    let main_foo = g.reference(main_file, 6, sym_foo);
    let main_a = g.reference(main_file, 8, sym_a);
    g.edge(root, main);
    g.edge(main, main_dot);
    g.edge(main_dot, main_scope);
    g.edge(main_scope, main_push_dot);
    g.edge(main_push_dot, main_push_a);
    g.edge(main_push_a, root);
    g.edge(main_foo, main_scope);
    g.edge(main_a, root);

    let a_file = g.file("a.py");
    let a_def = g.definition(a_file, 0, sym_a);
    let a_dot = g.pop_symbol(a_file, 1, sym_dot);
    let a_scope = g.internal_scope(a_file, 2);
    let a_push_dot = g.push_symbol(a_file, 3, sym_dot);
    let a_push_b = g.push_symbol(a_file, 4, sym_b);
    let a_b = g.reference(a_file, 6, sym_b);
    g.edge(root, a_def);
    g.edge(a_def, a_dot);
    g.edge(a_dot, a_scope);
    g.edge(a_scope, a_push_dot);
    g.edge(a_push_dot, a_push_b);
    g.edge(a_push_b, root);
    g.edge(a_b, root);

    let b_file = g.file("b.py");
    let b_def = g.definition(b_file, 0, sym_b);
    let b_dot = g.pop_symbol(b_file, 1, sym_dot);
    let b_scope = g.internal_scope(b_file, 2);
    let b_push_dot = g.push_symbol(b_file, 3, sym_dot);
    let b_push_a = g.push_symbol(b_file, 4, sym_a);
    let b_foo = g.definition(b_file, 6, sym_foo);
    let b_a = g.reference(b_file, 8, sym_a);
    g.edge(root, b_def);
    g.edge(b_def, b_dot);
    g.edge(b_dot, b_scope);
    g.edge(b_scope, b_foo);
    g.edge(b_scope, b_push_dot);
    g.edge(b_push_dot, b_push_a);
    g.edge(b_push_a, root);
    g.edge(b_a, root);

    g
}

// A three-file import chain without the cycle: main.py does `from a
// import *` and calls `foo`; a.py does `from b import *`; b.py defines
// `foo`.
fn build_sequenced_import_star() -> StackGraph {
    let mut g = StackGraph::new();
    let root = g.root_node();
    let sym_dot = g.symbol(".");
    let sym_main = g.symbol("__main__");
    let sym_a = g.symbol("a");
    let sym_b = g.symbol("b");
    let sym_foo = g.symbol("foo");

    let main_file = g.file("main.py");
    let main = g.definition(main_file, 0, sym_main);
    let main_dot = g.pop_symbol(main_file, 1, sym_dot);
    let main_scope = g.internal_scope(main_file, 2);
    let main_push_dot = g.push_symbol(main_file, 3, sym_dot);
    let main_push_a = g.push_symbol(main_file, 4, sym_a);
    let main_foo = g.reference(main_file, 6, sym_foo);
    let main_a = g.reference(main_file, 8, sym_a);
    g.edge(root, main);
    g.edge(main, main_dot);
    g.edge(main_dot, main_scope);
    g.edge(main_scope, main_push_dot);
    g.edge(main_push_dot, main_push_a);
    g.edge(main_push_a, root);
    g.edge(main_foo, main_scope);
    g.edge(main_a, root);

    let a_file = g.file("a.py");
    let a_def = g.definition(a_file, 0, sym_a);
    let a_dot = g.pop_symbol(a_file, 1, sym_dot);
    let a_scope = g.internal_scope(a_file, 2);
    let a_push_dot = g.push_symbol(a_file, 3, sym_dot);
    let a_push_b = g.push_symbol(a_file, 4, sym_b);
    let a_b = g.reference(a_file, 6, sym_b);
    g.edge(root, a_def);
    g.edge(a_def, a_dot);
    g.edge(a_dot, a_scope);
    g.edge(a_scope, a_push_dot);
    g.edge(a_push_dot, a_push_b);
    g.edge(a_push_b, root);
    g.edge(a_b, root);

    let b_file = g.file("b.py");
    let b_def = g.definition(b_file, 0, sym_b);
    let b_dot = g.pop_symbol(b_file, 1, sym_dot);
    let b_scope = g.internal_scope(b_file, 2);
    let b_foo = g.definition(b_file, 5, sym_foo);
    g.edge(root, b_def);
    g.edge(b_def, b_dot);
    g.edge(b_dot, b_scope);
    g.edge(b_scope, b_foo);

    g
}

// One Rust file with mutually importing modules `a` and `b`: `a` exports
// `BAR` also under the name `FOO` and re-exports `b`; `b` defines `FOO`
// and re-exports `a`; `main` looks up `a::FOO`.
fn build_cyclic_imports_rust() -> StackGraph {
    let mut g = StackGraph::new();
    let sym_dot = g.symbol(".");
    let sym_a = g.symbol("a");
    let sym_b = g.symbol("b");
    let sym_foo = g.symbol("FOO");
    let sym_bar = g.symbol("BAR");

    let file = g.file("test.rs");
    let file_top = g.internal_scope(file, 1);

    let ref_foo = g.reference(file, 101, sym_foo);
    let main_push_dot = g.push_symbol(file, 102, sym_dot);
    let ref_a = g.reference(file, 103, sym_a);
    g.edge(ref_foo, main_push_dot);
    g.edge(main_push_dot, ref_a);
    g.edge(ref_a, file_top);

    let a_def = g.definition(file, 201, sym_a);
    let a_dot = g.pop_symbol(file, 200, sym_dot);
    let a_scope = g.internal_scope(file, 202);
    let a_bar = g.definition(file, 204, sym_bar);
    let a_ref_b = g.reference(file, 206, sym_b);
    let a_push_dot = g.push_symbol(file, 207, sym_dot);
    let a_push_b = g.push_symbol(file, 208, sym_b);
    let a_pop_foo = g.pop_symbol(file, 210, sym_foo);
    let a_push_bar = g.push_symbol(file, 211, sym_bar);
    g.edge(file_top, a_def);
    g.edge(a_def, a_dot);
    g.edge(a_dot, a_scope);
    g.edge(a_scope, a_bar);
    g.edge(a_scope, a_pop_foo);
    g.edge(a_pop_foo, a_push_bar);
    g.edge(a_push_bar, a_scope);
    g.edge(a_scope, a_push_dot);
    g.edge(a_push_dot, a_push_b);
    g.edge(a_push_b, file_top);
    g.edge(a_ref_b, file_top);

    let b_def = g.definition(file, 301, sym_b);
    let b_dot = g.pop_symbol(file, 300, sym_dot);
    let b_scope = g.internal_scope(file, 302);
    let b_foo = g.definition(file, 304, sym_foo);
    let b_ref_bar = g.reference(file, 305, sym_bar);
    let b_ref_a = g.reference(file, 307, sym_a);
    let b_push_dot = g.push_symbol(file, 308, sym_dot);
    let b_push_a = g.push_symbol(file, 309, sym_a);
    g.edge(file_top, b_def);
    g.edge(b_def, b_dot);
    g.edge(b_dot, b_scope);
    g.edge(b_scope, b_foo);
    g.edge(b_scope, b_push_dot);
    g.edge(b_push_dot, b_push_a);
    g.edge(b_push_a, file_top);
    g.edge(b_ref_bar, b_scope);
    g.edge(b_ref_a, file_top);

    g
}

#[test]
fn can_jump_to_definition_cyclic_imports_python() {
    let graph = build_cyclic_imports_python();
    check_jump_to_definition(
        &graph,
        &[
            "[main.py(8) reference a] -> [a.py(0) definition a]",
            "[main.py(6) reference foo] -> [b.py(6) definition foo]",
            "[a.py(6) reference b] -> [b.py(0) definition b]",
            "[b.py(8) reference a] -> [a.py(0) definition a]",
        ],
    );
}

#[test]
fn can_jump_to_definition_sequenced_import_star() {
    let graph = build_sequenced_import_star();
    check_jump_to_definition(
        &graph,
        &[
            "[main.py(8) reference a] -> [a.py(0) definition a]",
            "[main.py(6) reference foo] -> [b.py(5) definition foo]",
            "[a.py(6) reference b] -> [b.py(0) definition b]",
        ],
    );
}

#[test]
fn can_jump_to_definition_cyclic_imports_rust() {
    let graph = build_cyclic_imports_rust();
    check_jump_to_definition(
        &graph,
        &[
            "[test.rs(103) reference a] -> [test.rs(201) definition a]",
            "[test.rs(101) reference FOO] -> [test.rs(304) definition FOO]",
            "[test.rs(101) reference FOO] -> [test.rs(204) definition BAR]",
            "[test.rs(206) reference b] -> [test.rs(301) definition b]",
            "[test.rs(307) reference a] -> [test.rs(201) definition a]",
            "[test.rs(305) reference BAR] -> [test.rs(204) definition BAR]",
        ],
    );
}

// Three files: main.py does `from a import *` and `from b import *`, then
// calls `foo(A)` and looks up `.bar` on the result; a.py defines
// `foo(x): return x`; b.py defines class `A` with member `bar`. The actual
// arguments of the call live in the exported scope main.py(7), which the
// scoped call symbol carries and the function's parameter lookup jumps
// back to.
fn build_class_field_through_function_parameter() -> StackGraph {
    let mut g = StackGraph::new();
    let root = g.root_node();
    let sym_dot = g.symbol(".");
    let sym_call = g.symbol("()");
    let sym_zero = g.symbol("0");
    let sym_main = g.symbol("__main__");
    let sym_a = g.symbol("a");
    let sym_b = g.symbol("b");
    let sym_foo = g.symbol("foo");
    let sym_x = g.symbol("x");
    let sym_cls = g.symbol("A");
    let sym_bar = g.symbol("bar");

    let main_file = g.file("main.py");
    let main = g.definition(main_file, 0, sym_main);
    let main_dot = g.pop_symbol(main_file, 1, sym_dot);
    let main_scope = g.internal_scope(main_file, 2);
    let main_push_dot_a = g.push_symbol(main_file, 3, sym_dot);
    let main_push_a = g.push_symbol(main_file, 4, sym_a);
    let main_push_dot_b = g.push_symbol(main_file, 5, sym_dot);
    let main_push_b = g.push_symbol(main_file, 6, sym_b);
    let actuals = g.exported_scope(main_file, 7);
    let actuals_pop_zero = g.pop_symbol(main_file, 8, sym_zero);
    let ref_cls = g.reference(main_file, 9, sym_cls);
    let ref_bar = g.reference(main_file, 10, sym_bar);
    let bar_push_dot = g.push_symbol(main_file, 11, sym_dot);
    let bar_push_call = g.push_scoped_symbol(main_file, 12, sym_call, main_file, 7);
    let ref_foo = g.reference(main_file, 13, sym_foo);
    let ref_b = g.reference(main_file, 15, sym_b);
    let ref_a = g.reference(main_file, 17, sym_a);
    g.edge(root, main);
    g.edge(main, main_dot);
    g.edge(main_dot, main_scope);
    g.edge(main_scope, main_push_dot_a);
    g.edge(main_push_dot_a, main_push_a);
    g.edge(main_push_a, root);
    g.edge(main_scope, main_push_dot_b);
    g.edge(main_push_dot_b, main_push_b);
    g.edge(main_push_b, root);
    g.edge(ref_a, root);
    g.edge(ref_b, root);
    g.edge(ref_foo, main_scope);
    g.edge(ref_cls, main_scope);
    g.edge(ref_bar, bar_push_dot);
    g.edge(bar_push_dot, bar_push_call);
    g.edge(bar_push_call, ref_foo);
    g.edge(actuals, actuals_pop_zero);
    g.edge(actuals_pop_zero, ref_cls);

    let a_file = g.file("a.py");
    let a_def = g.definition(a_file, 0, sym_a);
    let a_dot = g.pop_symbol(a_file, 1, sym_dot);
    let a_scope = g.internal_scope(a_file, 2);
    let def_foo = g.definition(a_file, 5, sym_foo);
    let foo_call = g.pop_scoped_symbol(a_file, 6, sym_call);
    let foo_return = g.internal_scope(a_file, 7);
    let ref_x = g.reference(a_file, 8, sym_x);
    let formals = g.internal_scope(a_file, 9);
    let formals_drop = g.drop_scopes(a_file, 10);
    let x_link = g.pop_symbol(a_file, 11, sym_x);
    let push_zero = g.push_symbol(a_file, 12, sym_zero);
    let jump = g.jump_to_scope(a_file, 13);
    let def_x = g.definition(a_file, 14, sym_x);
    let push_x = g.push_symbol(a_file, 15, sym_x);
    g.edge(root, a_def);
    g.edge(a_def, a_dot);
    g.edge(a_dot, a_scope);
    g.edge(a_scope, def_foo);
    g.edge(def_foo, foo_call);
    g.edge(foo_call, foo_return);
    g.edge(foo_return, ref_x);
    g.edge(ref_x, formals);
    g.edge(formals, formals_drop);
    g.edge(formals_drop, def_x);
    g.edge(formals, x_link);
    g.edge(x_link, push_zero);
    g.edge(push_zero, jump);
    g.edge(x_link, push_x);
    g.edge(push_x, jump);

    let b_file = g.file("b.py");
    let b_def = g.definition(b_file, 0, sym_b);
    let b_dot = g.pop_symbol(b_file, 1, sym_dot);
    let b_scope = g.internal_scope(b_file, 2);
    let def_cls = g.definition(b_file, 5, sym_cls);
    let cls_dot = g.pop_symbol(b_file, 3, sym_dot);
    let cls_members = g.internal_scope(b_file, 4);
    let cls_call = g.pop_scoped_symbol(b_file, 6, sym_call);
    let cls_inst_dot = g.pop_symbol(b_file, 7, sym_dot);
    let def_bar = g.definition(b_file, 8, sym_bar);
    g.edge(root, b_def);
    g.edge(b_def, b_dot);
    g.edge(b_dot, b_scope);
    g.edge(b_scope, def_cls);
    g.edge(def_cls, cls_dot);
    g.edge(cls_dot, cls_members);
    g.edge(cls_members, def_bar);
    g.edge(def_cls, cls_call);
    g.edge(cls_call, cls_inst_dot);
    g.edge(cls_inst_dot, cls_members);

    g
}

#[test]
fn can_jump_to_definition_class_field_through_function_parameter() {
    let graph = build_class_field_through_function_parameter();
    check_jump_to_definition(
        &graph,
        &[
            "[main.py(17) reference a] -> [a.py(0) definition a]",
            "[main.py(15) reference b] -> [b.py(0) definition b]",
            "[main.py(13) reference foo] -> [a.py(5) definition foo]",
            "[main.py(9) reference A] -> [b.py(5) definition A]",
            "[main.py(10) reference bar] -> [b.py(8) definition bar]",
            "[a.py(8) reference x] -> [a.py(14) definition x]",
        ],
    );
}

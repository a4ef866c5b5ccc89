use codepilot_complete::complete::{complete_from_table, suggest_completions};
use codepilot_complete::symbols::symbols_of;
use codepilot_complete::syntax::{Member, Signature, Statement, Value};

const FOO: &str = "class Foo:\n    def bar(self, x):\n        pass\n";

fn sig(name: &str, params: &[&str]) -> Signature {
    Signature { name: name.to_string(), params: params.iter().map(|p| p.to_string()).collect() }
}

fn class(name: &str, methods: Vec<Signature>) -> Statement {
    Statement::Class { name: name.to_string(), body: methods.into_iter().map(Member::Method).collect() }
}

fn assign_call(target: &str, callee: &str) -> Statement {
    Statement::Assign { targets: vec![target.to_string()], value: Value::Call(callee.to_string()) }
}

#[test]
fn class_name_is_suggested_for_its_prefix() {
    let out = suggest_completions("Fo", FOO);
    assert!(out.contains(&"Foo".to_string()));
    assert_eq!(out, vec!["Foo".to_string()]);
}

#[test]
fn dotted_binding_lists_methods_without_self() {
    let src = format!("{}\nf = Foo()\n", FOO);
    let out = suggest_completions("f.", &src);
    assert!(out.contains(&".bar(x)".to_string()));
    assert_eq!(out, vec![".bar(x)".to_string()]);
}

#[test]
fn function_is_suggested_with_its_parameters() {
    let out = suggest_completions("mo", "def move(speed):\n    pass\n");
    assert!(out.contains(&"move(speed)".to_string()));
    assert_eq!(out, vec!["move(speed)".to_string()]);
}

#[test]
fn broken_line_is_stripped_and_class_still_offered() {
    let src = format!("{}x = = 1\n", FOO);
    let out = suggest_completions("Fo", &src);
    assert_eq!(out, vec!["Foo".to_string()]);
}

#[test]
fn broken_line_in_the_middle_keeps_later_bindings() {
    let src = format!("{}x = = 1\nf = Foo()\n", FOO);
    assert_eq!(suggest_completions("f.b", &src), vec![".bar(x)".to_string()]);
}

#[test]
fn empty_query_lists_classes_before_functions() {
    let src = "def b(y):\n    pass\nclass A:\n    pass\n";
    let out = suggest_completions("", src);
    assert_eq!(out, vec!["A".to_string(), "b(y)".to_string()]);
}

#[test]
fn unresolved_binding_falls_back_to_its_name() {
    let out = suggest_completions("x", "x = 5\n");
    assert!(out.contains(&"x".to_string()));
    assert_eq!(out, vec!["x".to_string()]);
    assert_eq!(suggest_completions("x.", "x = 5\n"), Vec::<String>::new());
}

#[test]
fn same_call_twice_gives_same_output() {
    let src = format!("{}\nf = Foo()\ndef fa(a, b):\n    pass\n", FOO);
    let first = suggest_completions("f", &src);
    let second = suggest_completions("f", &src);
    assert_eq!(first, second);
    assert_eq!(first, vec!["fa(a, b)".to_string(), ".bar(x)".to_string()]);
}

#[test]
fn exact_binding_name_lists_all_methods_sorted_without_constructor() {
    let src = "class Foo:\n    def __init__(self, a):\n        pass\n    def zed(self):\n        pass\n    def bar(self, x):\n        pass\nf = Foo()\n";
    assert_eq!(suggest_completions("f", src), vec![".bar(x)".to_string(), ".zed()".to_string()]);
    assert_eq!(suggest_completions("f.", src), vec![".bar(x)".to_string(), ".zed()".to_string()]);
    assert_eq!(suggest_completions("f.__", src), Vec::<String>::new());
}

#[test]
fn only_the_first_dot_splits_the_query() {
    let src = format!("{}\nf = Foo()\n", FOO);
    assert_eq!(suggest_completions("f.b.c", &src), Vec::<String>::new());
    assert_eq!(suggest_completions("g.b", &src), Vec::<String>::new());
}

#[test]
fn broken_first_line_gives_no_suggestions() {
    let src = format!("x = = 1\n{}", FOO);
    assert_eq!(suggest_completions("Fo", &src), Vec::<String>::new());
    assert_eq!(suggest_completions("", &src), Vec::<String>::new());
}

#[test]
fn chained_assignment_binds_its_first_target() {
    let src = format!("{}a = b = Foo()\n", FOO);
    assert_eq!(suggest_completions("a.", &src), vec![".bar(x)".to_string()]);
    assert_eq!(suggest_completions("b", &src), Vec::<String>::new());
}

#[test]
fn table_assignment_without_targets_binds_nothing() {
    let stmts = vec![Statement::Assign { targets: vec![], value: Value::Other }];
    let table = symbols_of(&stmts);
    assert_eq!(complete_from_table("", &table), Vec::<String>::new());
}

#[test]
fn unparsable_source_gives_nothing() {
    assert_eq!(suggest_completions("", "= = =\n"), Vec::<String>::new());
}

#[test]
fn prefix_match_is_case_sensitive() {
    assert_eq!(suggest_completions("fo", FOO), Vec::<String>::new());
}

#[test]
fn empty_query_offers_every_class_and_function() {
    let src = "class B:\n    pass\nclass A:\n    pass\ndef g():\n    pass\ndef f(a):\n    pass\n";
    assert_eq!(
        suggest_completions("", src),
        vec!["B".to_string(), "A".to_string(), "g()".to_string(), "f(a)".to_string()]
    );
}

#[test]
fn attribute_callee_is_kept_as_written() {
    let src = "class Foo:\n    def bar(self):\n        pass\nm = mod.Foo()\n";
    assert_eq!(suggest_completions("m", src), vec!["m".to_string()]);
}

#[test]
fn table_redefinitions_keep_first_place_and_last_value() {
    let stmts = vec![
        class("A", vec![sig("one", &["self"])]),
        Statement::Function(sig("f", &["a"])),
        class("B", vec![]),
        class("A", vec![sig("two", &["self", "y"])]),
        Statement::Function(sig("f", &["b", "c"])),
        assign_call("v", "A"),
        Statement::Other,
    ];
    let table = symbols_of(&stmts);
    assert_eq!(
        complete_from_table("", &table),
        vec!["A".to_string(), "B".to_string(), "f(b, c)".to_string(), "v".to_string()]
    );
    assert_eq!(complete_from_table("v", &table), vec![".two(y)".to_string()]);
}

#[test]
fn table_methods_come_out_in_name_order() {
    let stmts = vec![
        class("C", vec![sig("m", &["self"]), sig("b", &["self", "q"]), sig("__init__", &["self"]), sig("a", &[])]),
        assign_call("c", "C"),
    ];
    let table = symbols_of(&stmts);
    assert_eq!(
        complete_from_table("c.", &table),
        vec![".a()".to_string(), ".b(q)".to_string(), ".m()".to_string()]
    );
    assert_eq!(complete_from_table("c.b", &table), vec![".b(q)".to_string()]);
}

#[test]
fn table_self_is_dropped_only_from_members() {
    let stmts = vec![
        class("K", vec![Signature { name: "go".to_string(), params: vec!["self".to_string(), "to".to_string(), "self".to_string()] }]),
        Statement::Function(sig("helper", &["self", "n"])),
        assign_call("k", "K"),
    ];
    let table = symbols_of(&stmts);
    assert_eq!(complete_from_table("h", &table), vec!["helper(self, n)".to_string()]);
    assert_eq!(complete_from_table("k.", &table), vec![".go(to)".to_string()]);
}

#[test]
fn table_binding_to_unknown_class_gives_its_name() {
    let stmts = vec![
        assign_call("p", "Missing"),
        Statement::Assign { targets: vec!["q".to_string()], value: Value::Other },
    ];
    let table = symbols_of(&stmts);
    assert_eq!(complete_from_table("p", &table), vec!["p".to_string()]);
    assert_eq!(complete_from_table("", &table), vec!["p".to_string(), "q".to_string()]);
    assert_eq!(complete_from_table("p.", &table), Vec::<String>::new());
}

#[test]
fn table_non_method_class_items_are_ignored() {
    let stmts = vec![
        Statement::Class { name: "D".to_string(), body: vec![Member::Other, Member::Method(sig("run", &["self"]))] },
        assign_call("d", "D"),
    ];
    let table = symbols_of(&stmts);
    assert_eq!(complete_from_table("d", &table), vec![".run()".to_string()]);
}

use codepilot_complete::lines::remove_line;
use codepilot_complete::recovery::strip_parse;
use codepilot_complete::symbols::get_available_autocompletes;
use codepilot_complete::syntax::{Member, Statement, Tree, Value};

#[test]
fn remove_line_drops_the_line_holding_the_offset() {
    assert_eq!(remove_line("a\nb\nc", 2, 0), "a\nc");
    assert_eq!(remove_line("a\nb\nc", 4, 0), "a\nb");
}

#[test]
fn remove_line_counts_only_newlines_before_the_offset() {
    assert_eq!(remove_line("a\nb\nc", 3, 0), "a\nc");
    assert_eq!(remove_line("a\nb\nc", 1, 0), "");
}

#[test]
fn remove_line_refuses_the_first_line() {
    assert_eq!(remove_line("a\nb\nc", 0, 0), "");
    assert_eq!(remove_line("x = = 1\ny = 2", 4, 0), "");
}

#[test]
fn remove_line_with_offset_reaches_earlier_lines() {
    assert_eq!(remove_line("a\nb\nc", 4, 1), "a\nc");
    assert_eq!(remove_line("a\nb\nc", 4, 2), "");
}

#[test]
fn remove_line_out_of_range_gives_empty() {
    assert_eq!(remove_line("a\nb", 0, 1), "");
    assert_eq!(remove_line("a\n", 2, 0), "");
    assert_eq!(remove_line("", 0, 0), "");
}

#[test]
fn remove_line_of_single_line_gives_empty() {
    assert_eq!(remove_line("abc", 1, 0), "");
}

#[test]
fn remove_line_reads_byte_offsets() {
    assert_eq!(remove_line("é\nb", 3, 0), "é");
    assert_eq!(remove_line("é\nb", 2, 0), "");
}

#[test]
fn remove_line_drops_a_final_newline() {
    assert_eq!(remove_line("a\nb\nc\n", 2, 0), "a\nc");
}

#[test]
fn failing_line_is_the_one_removed() {
    match strip_parse("a = 1\nx = = 1\nb = 2\n") {
        Some(Tree::Module(stmts)) => {
            assert_eq!(stmts.len(), 2);
            match (&stmts[0], &stmts[1]) {
                (Statement::Assign { targets: a, .. }, Statement::Assign { targets: b, .. }) => {
                    assert_eq!(a, &vec!["a".to_string()]);
                    assert_eq!(b, &vec!["b".to_string()]);
                }
                _ => panic!("expected two assignments"),
            }
        }
        _ => panic!("expected a module"),
    }
}

#[test]
fn statement_shapes_are_read_from_the_parse() {
    match strip_parse("class A:\n    x = 1\n    def m(self, k=2):\n        pass\ndef f(a, b):\n    pass\ny = g(1)\nz = 3\nprint(y)\n") {
        Some(Tree::Module(stmts)) => {
            assert_eq!(stmts.len(), 5);
            match &stmts[0] {
                Statement::Class { name, body } => {
                    assert_eq!(name, "A");
                    assert_eq!(body.len(), 2);
                    assert!(matches!(&body[0], Member::Other));
                    match &body[1] {
                        Member::Method(m) => {
                            assert_eq!(m.name, "m");
                            assert_eq!(m.params, vec!["self".to_string(), "k".to_string()]);
                        }
                        Member::Other => panic!("expected a method"),
                    }
                }
                _ => panic!("expected a class"),
            }
            match &stmts[1] {
                Statement::Function(s) => {
                    assert_eq!(s.name, "f");
                    assert_eq!(s.params, vec!["a".to_string(), "b".to_string()]);
                }
                _ => panic!("expected a function"),
            }
            match &stmts[2] {
                Statement::Assign { targets, value: Value::Call(callee) } => {
                    assert_eq!(targets, &vec!["y".to_string()]);
                    assert_eq!(callee, "g");
                }
                _ => panic!("expected an assignment from a call"),
            }
            match &stmts[3] {
                Statement::Assign { targets, value: Value::Other } => assert_eq!(targets, &vec!["z".to_string()]),
                _ => panic!("expected a plain assignment"),
            }
            assert!(matches!(&stmts[4], Statement::Other));
        }
        _ => panic!("expected a module"),
    }
}

#[test]
fn chained_assignment_keeps_every_target() {
    match strip_parse("a = b = f()\n") {
        Some(Tree::Module(stmts)) => match &stmts[0] {
            Statement::Assign { targets, value: Value::Call(callee) } => {
                assert_eq!(targets, &vec!["a".to_string(), "b".to_string()]);
                assert_eq!(callee, "f");
            }
            _ => panic!("expected an assignment"),
        },
        _ => panic!("expected a module"),
    }
}

#[test]
fn valid_source_is_parsed_at_once() {
    assert!(matches!(strip_parse("x = 1\n"), Some(Tree::Module(_))));
}

#[test]
fn every_line_broken_gives_no_tree() {
    assert!(strip_parse("= =\n) (\n").is_none());
}

#[test]
fn broken_first_line_is_unrecoverable() {
    assert!(strip_parse("= =\ny = 2\n").is_none());
    assert!(strip_parse("x = = 1\ny = 2").is_none());
}

#[test]
fn empty_source_is_an_empty_module() {
    match strip_parse("") {
        Some(Tree::Module(stmts)) => assert!(stmts.is_empty()),
        _ => panic!("expected a module"),
    }
}

#[test]
fn no_table_for_unrecoverable_source() {
    assert!(get_available_autocompletes("= =\n").is_none());
    assert!(get_available_autocompletes("def f():\n    pass\n").is_some());
}

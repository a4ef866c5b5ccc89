//! The library's own syntax tree: the few statement shapes that completion reads,
//! and the bridge from the Python parser to it.

use rustpython_parser::ast;
use rustpython_parser::text_size::TextRange;
use vstd::prelude::*;

verus! {

/// A function or method header: its name and its positional parameter names, in order.
pub struct Signature {
    pub name: String,
    pub params: Vec<String>,
}

/// A statement directly inside a class body.
pub enum Member {
    Method(Signature),
    Other,
}

/// The right-hand side of an assignment, as far as completion cares.
pub enum Value {
    /// A call; the field is the source text of the called expression.
    Call(String),
    Other,
}

/// A top-level statement.
pub enum Statement {
    Class { name: String, body: Vec<Member> },
    Function(Signature),
    /// `t1 = t2 = ... = value`; each target as its source text, in order.
    Assign { targets: Vec<String>, value: Value },
    Other,
}

/// What a successful parse produced.
pub enum Tree {
    Module(Vec<Statement>),
    Other,
}

/// The result of one parse attempt.
pub enum ParseOutcome {
    Parsed(Tree),
    /// The parse failed; the field is the byte offset at which the parser gave up.
    Failed(usize),
}

pub struct SignatureView {
    pub name: Seq<char>,
    pub params: Seq<Seq<char>>,
}

pub enum MemberView {
    Method(SignatureView),
    Other,
}

pub enum ValueView {
    Call(Seq<char>),
    Other,
}

pub enum StatementView {
    Class { name: Seq<char>, body: Seq<MemberView> },
    Function(SignatureView),
    Assign { targets: Seq<Seq<char>>, value: ValueView },
    Other,
}

pub enum TreeView {
    Module(Seq<StatementView>),
    Other,
}

pub enum ParseView {
    Parsed(TreeView),
    Failed(nat),
}

pub open spec fn strings_view(v: Seq<String>) -> Seq<Seq<char>> {
    v.map_values(|s: String| s@)
}

impl View for Signature {
    type V = SignatureView;

    open spec fn view(&self) -> SignatureView {
        SignatureView { name: self.name@, params: strings_view(self.params@) }
    }
}

impl View for Member {
    type V = MemberView;

    open spec fn view(&self) -> MemberView {
        match self {
            Member::Method(s) => MemberView::Method(s@),
            Member::Other => MemberView::Other,
        }
    }
}

impl View for Value {
    type V = ValueView;

    open spec fn view(&self) -> ValueView {
        match self {
            Value::Call(f) => ValueView::Call(f@),
            Value::Other => ValueView::Other,
        }
    }
}

impl View for Statement {
    type V = StatementView;

    open spec fn view(&self) -> StatementView {
        match self {
            Statement::Class { name, body } => StatementView::Class {
                name: name@,
                body: body@.map_values(|m: Member| m@),
            },
            Statement::Function(s) => StatementView::Function(s@),
            Statement::Assign { targets, value } => StatementView::Assign {
                targets: strings_view(targets@),
                value: value@,
            },
            Statement::Other => StatementView::Other,
        }
    }
}

impl View for Tree {
    type V = TreeView;

    open spec fn view(&self) -> TreeView {
        match self {
            Tree::Module(body) => TreeView::Module(body@.map_values(|s: Statement| s@)),
            Tree::Other => TreeView::Other,
        }
    }
}

impl View for ParseOutcome {
    type V = ParseView;

    open spec fn view(&self) -> ParseView {
        match self {
            ParseOutcome::Parsed(t) => ParseView::Parsed(t@),
            ParseOutcome::Failed(off) => ParseView::Failed(*off as nat),
        }
    }
}

// The parser's tree types, opaque here: only the conversion below looks inside them.
#[verifier::external_type_specification]
#[verifier::external_body]
pub struct ExTextRange(TextRange);

#[verifier::external_type_specification]
#[verifier::external_body]
#[verifier::reject_recursive_types(R)]
pub struct ExAstStmt<R>(ast::Stmt<R>);

#[verifier::external_type_specification]
#[verifier::external_body]
#[verifier::reject_recursive_types(R)]
pub struct ExAstFunctionDef<R>(ast::StmtFunctionDef<R>);

#[verifier::external_type_specification]
#[verifier::external_body]
#[verifier::reject_recursive_types(R)]
pub struct ExAstExpr<R>(ast::Expr<R>);

/// What the Python parser, in module mode, makes of a source text, read into the
/// library's syntax tree. It covers `rustpython_parser::parse` together with the
/// conversion below, which renders expressions through `Display` for `ast::Expr`;
/// both are functions of the text alone, and nothing more is claimed of them.
pub uninterp spec fn module_parse(src: Seq<char>) -> ParseView;

/// Relies on `rustpython_parser::parse` in `Mode::Module`: it either returns a tree or
/// an error whose `offset` is the byte offset where parsing stopped, and in that mode
/// a tree is always a module (the crate's own module parse treats any other variant
/// as unreachable). The result depends on the source text alone.
#[verifier::external_body]
pub(crate) fn parse_module(src: &str) -> (r: ParseOutcome)
    ensures
        r@ == module_parse(src@),
        r@ matches ParseView::Parsed(t) ==> t is Module,
{
    match rustpython_parser::parse(src, rustpython_parser::Mode::Module, "<embedded>") {
        Ok(ast::Mod::Module(m)) => ParseOutcome::Parsed(Tree::Module(m.body.iter().map(stmt_of).collect())),
        Ok(_) => ParseOutcome::Parsed(Tree::Other),
        Err(e) => ParseOutcome::Failed(e.offset.to_usize()),
    }
}

/// Part of `parse_module`'s conversion, with no contract of its own: reads one
/// top-level statement of the parser's tree, class and function headers by their
/// fields, assignment targets and callees as rendered source text.
#[verifier::external_body]
fn stmt_of(s: &ast::Stmt) -> Statement {
    match s {
        ast::Stmt::ClassDef(c) => Statement::Class {
            name: c.name.as_str().to_owned(),
            body: c.body.iter().map(member_of).collect(),
        },
        ast::Stmt::FunctionDef(f) => Statement::Function(signature_of(f)),
        ast::Stmt::Assign(a) => Statement::Assign {
            targets: a.targets.iter().map(expr_text).collect(),
            value: value_of(&a.value),
        },
        _ => Statement::Other,
    }
}

/// Part of `parse_module`'s conversion: reads one statement of a class body, a
/// method header or nothing.
#[verifier::external_body]
fn member_of(s: &ast::Stmt) -> Member {
    match s {
        ast::Stmt::FunctionDef(f) => Member::Method(signature_of(f)),
        _ => Member::Other,
    }
}

/// Part of `parse_module`'s conversion: reads a function header, its name and the
/// names of its ordinary positional parameters (`args.args`), in order.
#[verifier::external_body]
fn signature_of(f: &ast::StmtFunctionDef) -> Signature {
    Signature {
        name: f.name.as_str().to_owned(),
        params: f.args.args.iter().map(|a| a.def.arg.as_str().to_owned()).collect(),
    }
}

/// Part of `parse_module`'s conversion: reads the right-hand side of an assignment,
/// the rendered callee of a call or nothing.
#[verifier::external_body]
fn value_of(e: &ast::Expr) -> Value {
    match e {
        ast::Expr::Call(c) => Value::Call(expr_text(&c.func)),
        _ => Value::Other,
    }
}

/// Part of `parse_module`'s conversion: an expression rendered as source text by
/// `Display` for `ast::Expr` (rustpython-ast's `unparse`).
#[verifier::external_body]
fn expr_text(e: &ast::Expr) -> String {
    e.to_string()
}

} // verus!

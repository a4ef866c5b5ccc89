//! The symbol table of a recovered program: classes with their methods, free
//! functions, and top-level assignments with the callable that produced their value.

use crate::entries::{
    entries_view, keys_sorted, keys_unique, lemma_put_sorted_keeps_order, lemma_put_values, put, put_entry, put_entry_sorted, put_sorted, Entry,
};
use crate::recovery::{recovered, strip_parse};
use crate::syntax::{
    strings_view, Member, MemberView, Statement, StatementView, Tree, TreeView, Value, ValueView,
};
use crate::text::{chars_of, views};
use vstd::prelude::*;

verus! {

/// Parameter names, in declaration order.
pub struct Params(pub Vec<Vec<char>>);

impl View for Params {
    type V = Seq<Seq<char>>;

    open spec fn view(&self) -> Seq<Seq<char>> {
        views(self.0@)
    }
}

/// A class's methods, each name with its parameters, kept in increasing name order.
pub struct Methods(pub Vec<Entry<Params>>);

impl View for Methods {
    type V = Seq<(Seq<char>, Seq<Seq<char>>)>;

    open spec fn view(&self) -> Seq<(Seq<char>, Seq<Seq<char>>)> {
        entries_view(self.0@)
    }
}

/// The symbol table of a program. In each of the three tables a name occurs once,
/// at the place of its first definition, with the value of its last one.
pub struct AutoCompletes {
    /// Class name to its methods.
    pub classes: Vec<Entry<Methods>>,
    /// Free function name to its parameters.
    pub functions: Vec<Entry<Params>>,
    /// Assigned name to the text of the callable it was assigned from (empty where
    /// the value was not a call).
    pub assignments: Vec<Entry<Vec<char>>>,
}

pub type MethodTable = Seq<(Seq<char>, Seq<Seq<char>>)>;

pub struct TableView {
    pub classes: Seq<(Seq<char>, MethodTable)>,
    pub functions: Seq<(Seq<char>, Seq<Seq<char>>)>,
    pub bindings: Seq<(Seq<char>, Seq<char>)>,
}

impl View for AutoCompletes {
    type V = TableView;

    open spec fn view(&self) -> TableView {
        TableView {
            classes: entries_view(self.classes@),
            functions: entries_view(self.functions@),
            bindings: entries_view(self.assignments@),
        }
    }
}

/// The methods of a class body: each method definition stored under its name in
/// name order, a later definition replacing an earlier one of the same name.
pub open spec fn method_table(body: Seq<MemberView>) -> MethodTable
    decreases body.len(),
{
    if body.len() == 0 {
        seq![]
    } else {
        let t = method_table(body.drop_last());
        match body.last() {
            MemberView::Method(s) => put_sorted(t, s.name, s.params),
            MemberView::Other => t,
        }
    }
}

/// What an assignment binds its target to: the callee's text, or nothing.
pub open spec fn binding_target(v: ValueView) -> Seq<char> {
    match v {
        ValueView::Call(f) => f,
        ValueView::Other => seq![],
    }
}

/// The symbol table of a module body, statement by statement. An assignment binds
/// its first target.
pub open spec fn symbol_table(stmts: Seq<StatementView>) -> TableView
    decreases stmts.len(),
{
    if stmts.len() == 0 {
        TableView { classes: seq![], functions: seq![], bindings: seq![] }
    } else {
        let t = symbol_table(stmts.drop_last());
        match stmts.last() {
            StatementView::Class { name, body } => TableView {
                classes: put(t.classes, name, method_table(body)),
                ..t
            },
            StatementView::Function(s) => TableView { functions: put(t.functions, s.name, s.params), ..t },
            StatementView::Assign { targets, value } => if targets.len() > 0 {
                TableView { bindings: put(t.bindings, targets[0], binding_target(value)), ..t }
            } else {
                t
            },
            StatementView::Other => t,
        }
    }
}

/// The symbol table of a source text, if recovery yields a module.
pub open spec fn available(src: Seq<char>) -> Option<TableView> {
    match recovered(src) {
        Some(TreeView::Module(stmts)) => Some(symbol_table(stmts)),
        _ => None,
    }
}

/// The methods of a class come in strictly increasing name order, so each name
/// occurs once and member suggestions are listed alphabetically.
pub proof fn lemma_methods_sorted(body: Seq<MemberView>)
    ensures
        keys_sorted(method_table(body)),
    decreases body.len(),
{
    if body.len() > 0 {
        lemma_methods_sorted(body.drop_last());
        if let MemberView::Method(s) = body.last() {
            lemma_put_sorted_keeps_order(method_table(body.drop_last()), s.name, s.params);
        }
    }
}

pub open spec fn statements_view(v: Seq<Statement>) -> Seq<StatementView> {
    v.map_values(|s: Statement| s@)
}

pub open spec fn members_view(v: Seq<Member>) -> Seq<MemberView> {
    v.map_values(|m: Member| m@)
}

impl AutoCompletes {
    /// Names do not repeat within a table, and each class lists its methods in
    /// increasing name order.
    pub open spec fn wf(&self) -> bool {
        &&& keys_unique(self@.classes)
        &&& keys_unique(self@.functions)
        &&& keys_unique(self@.bindings)
        &&& forall|i: int|
            0 <= i < self@.classes.len() ==> keys_unique(#[trigger] self@.classes[i].1) && keys_sorted(
                self@.classes[i].1,
            )
    }
}

fn params_of(ps: &Vec<String>) -> (r: Params)
    ensures
        r@ == strings_view(ps@),
{
    let mut r: Vec<Vec<char>> = Vec::new();
    let mut i: usize = 0;
    while i < ps.len()
        invariant
            i <= ps.len(),
            views(r@) == strings_view(ps@.take(i as int)),
        decreases ps.len() - i,
    {
        r.push(chars_of(ps[i].as_str()));
        i = i + 1;
        assert(strings_view(ps@.take(i as int)) == strings_view(ps@.take(i - 1)).push(ps@[i - 1]@));
    }
    assert(ps@.take(ps.len() as int) == ps@);
    Params(r)
}

fn methods_of(body: &Vec<Member>) -> (r: Methods)
    ensures
        r@ == method_table(members_view(body@)),
        keys_unique(r@),
        keys_sorted(r@),
{
    let mut ms: Vec<Entry<Params>> = Vec::new();
    let mut i: usize = 0;
    while i < body.len()
        invariant
            i <= body.len(),
            entries_view(ms@) == method_table(members_view(body@.take(i as int))),
            keys_unique(entries_view(ms@)),
        decreases body.len() - i,
    {
        assert(members_view(body@.take(i + 1)).drop_last() == members_view(body@.take(i as int)));
        match &body[i] {
            Member::Method(sig) => {
                put_entry_sorted(&mut ms, chars_of(sig.name.as_str()), params_of(&sig.params));
            },
            Member::Other => {},
        }
        i = i + 1;
    }
    assert(body@.take(body.len() as int) == body@);
    proof {
        lemma_methods_sorted(members_view(body@));
    }
    Methods(ms)
}

/// The symbol table of a module body.
pub fn symbols_of(stmts: &Vec<Statement>) -> (r: AutoCompletes)
    ensures
        r@ == symbol_table(statements_view(stmts@)),
        r.wf(),
{
    let mut r = AutoCompletes { classes: Vec::new(), functions: Vec::new(), assignments: Vec::new() };
    let mut i: usize = 0;
    assert(statements_view(stmts@.take(0)) =~= seq![]);
    assert(r@.classes =~= seq![] && r@.functions =~= seq![] && r@.bindings =~= seq![]);
    while i < stmts.len()
        invariant
            i <= stmts.len(),
            r@ == symbol_table(statements_view(stmts@.take(i as int))),
            r.wf(),
        decreases stmts.len() - i,
    {
        assert(statements_view(stmts@.take(i + 1)).drop_last() == statements_view(stmts@.take(i as int)));
        match &stmts[i] {
            Statement::Class { name, body } => {
                let ms = methods_of(body);
                let ghost before = r@.classes;
                let ghost ms_view = ms@;
                let key = chars_of(name.as_str());
                let ghost k = key@;
                put_entry(&mut r.classes, key, ms);
                assert forall|j: int| 0 <= j < r@.classes.len() implies keys_unique(#[trigger] r@.classes[j].1)
                    && keys_sorted(r@.classes[j].1) by {
                    lemma_put_values(before, k, ms_view, j);
                }
            },
            Statement::Function(sig) => {
                put_entry(&mut r.functions, chars_of(sig.name.as_str()), params_of(&sig.params));
            },
            Statement::Assign { targets, value } => {
                if targets.len() > 0 {
                    let bound = match value {
                        Value::Call(f) => chars_of(f.as_str()),
                        Value::Other => Vec::new(),
                    };
                    put_entry(&mut r.assignments, chars_of(targets[0].as_str()), bound);
                }
            },
            Statement::Other => {},
        }
        i = i + 1;
    }
    assert(stmts@.take(stmts.len() as int) == stmts@);
    r
}

pub open spec fn table_of(r: Option<AutoCompletes>) -> Option<TableView> {
    match r {
        Some(t) => Some(t@),
        None => None,
    }
}

/// The symbol table of `source`, after recovery; `None` exactly where recovery
/// yields no tree.
pub fn get_available_autocompletes(source: &str) -> (r: Option<AutoCompletes>)
    ensures
        table_of(r) == available(source@),
        r is None <==> recovered(source@) is None,
        r matches Some(t) ==> t.wf(),
{
    match strip_parse(source) {
        Some(Tree::Module(stmts)) => Some(symbols_of(&stmts)),
        _ => None,
    }
}

} // verus!

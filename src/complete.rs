//! Matching a query token against a symbol table, and formatting the suggestions.

use crate::entries::{entries_view, lemma_lookup_found, lookup, lookup_entry, Entry};
use crate::symbols::{available, get_available_autocompletes, AutoCompletes, MethodTable, Params, TableView};
use crate::syntax::strings_view;
use crate::text::{append_chars, chars_of, join, join_chars, same_chars, starts_with, string_of, views};
use vstd::prelude::*;

verus! {

/// The separator between listed parameters.
pub open spec fn arg_separator() -> Seq<char> {
    seq![',', ' ']
}

/// The name of the method that constructs an instance.
pub open spec fn constructor_name() -> Seq<char> {
    seq!['_', '_', 'i', 'n', 'i', 't', '_', '_']
}

/// The name of the parameter that receives the instance.
pub open spec fn self_name() -> Seq<char> {
    seq!['s', 'e', 'l', 'f']
}

/// `name(p1, p2, ...)`.
pub open spec fn call_text(name: Seq<char>, params: Seq<Seq<char>>) -> Seq<char> {
    name + seq!['('] + join(params, arg_separator()) + seq![')']
}

/// `params` without the ones named `self`, order kept.
pub open spec fn without_self(params: Seq<Seq<char>>) -> Seq<Seq<char>> {
    params.filter(|p: Seq<char>| p != self_name())
}

/// `.name(p1, p2, ...)`, `self` left out of the parameters.
pub open spec fn member_text(name: Seq<char>, params: Seq<Seq<char>>) -> Seq<char> {
    seq!['.'] + call_text(name, without_self(params))
}

/// The names of the classes that begin with `q`, in table order.
pub open spec fn class_hits(q: Seq<char>, classes: Seq<(Seq<char>, MethodTable)>) -> Seq<Seq<char>>
    decreases classes.len(),
{
    if classes.len() == 0 {
        seq![]
    } else {
        let r = class_hits(q, classes.drop_last());
        if q.is_prefix_of(classes.last().0) {
            r.push(classes.last().0)
        } else {
            r
        }
    }
}

/// The functions whose names begin with `q`, each with its parameters, in table order.
pub open spec fn function_hits(q: Seq<char>, fns: Seq<(Seq<char>, Seq<Seq<char>>)>) -> Seq<Seq<char>>
    decreases fns.len(),
{
    if fns.len() == 0 {
        seq![]
    } else {
        let r = function_hits(q, fns.drop_last());
        if q.is_prefix_of(fns.last().0) {
            r.push(call_text(fns.last().0, fns.last().1))
        } else {
            r
        }
    }
}

/// The methods whose names begin with `tail`, the constructor left out, in table order.
pub open spec fn member_hits(tail: Seq<char>, ms: MethodTable) -> Seq<Seq<char>>
    decreases ms.len(),
{
    if ms.len() == 0 {
        seq![]
    } else {
        let r = member_hits(tail, ms.drop_last());
        if tail.is_prefix_of(ms.last().0) && ms.last().0 != constructor_name() {
            r.push(member_text(ms.last().0, ms.last().1))
        } else {
            r
        }
    }
}

/// Whether `i` is the position of the first `.` of `q`.
pub open spec fn first_dot_at(q: Seq<char>, i: int) -> bool {
    &&& 0 <= i < q.len()
    &&& q[i] == '.'
    &&& forall|j: int| 0 <= j < i ==> q[j] != '.'
}

pub open spec fn has_dot(q: Seq<char>) -> bool {
    exists|i: int| 0 <= i < q.len() && q[i] == '.'
}

/// The part of a query before its first `.`; the whole query where it has none.
pub open spec fn query_head(q: Seq<char>) -> Seq<char> {
    if has_dot(q) {
        q.take(choose|i: int| first_dot_at(q, i))
    } else {
        q
    }
}

/// The part of a query after its first `.`, further dots included; empty where it
/// has none.
pub open spec fn query_tail(q: Seq<char>) -> Seq<char> {
    if has_dot(q) {
        q.skip((choose|i: int| first_dot_at(q, i)) + 1)
    } else {
        seq![]
    }
}

/// The member suggestions that a binding `name` to `target` gives for `q`: where
/// `name` is the query's head and `target` names a class, that class's methods
/// that begin with the query's tail.
pub open spec fn member_expansion(
    q: Seq<char>,
    classes: Seq<(Seq<char>, MethodTable)>,
    name: Seq<char>,
    target: Seq<char>,
) -> Option<Seq<Seq<char>>> {
    if name == query_head(q) {
        match lookup(classes, target) {
            Some(ms) => Some(member_hits(query_tail(q), ms)),
            None => None,
        }
    } else {
        None
    }
}

/// What one binding contributes: its member expansion where there is one, else its
/// own name where that begins with `q`.
pub open spec fn binding_hit(
    q: Seq<char>,
    classes: Seq<(Seq<char>, MethodTable)>,
    b: (Seq<char>, Seq<char>),
) -> Seq<Seq<char>> {
    match member_expansion(q, classes, b.0, b.1) {
        Some(hits) => hits,
        None => if q.is_prefix_of(b.0) {
            seq![b.0]
        } else {
            seq![]
        },
    }
}

/// The contributions of the bindings, in table order.
pub open spec fn binding_hits(
    q: Seq<char>,
    classes: Seq<(Seq<char>, MethodTable)>,
    bs: Seq<(Seq<char>, Seq<char>)>,
) -> Seq<Seq<char>>
    decreases bs.len(),
{
    if bs.len() == 0 {
        seq![]
    } else {
        binding_hits(q, classes, bs.drop_last()) + binding_hit(q, classes, bs.last())
    }
}

/// The suggestions for `q` from table `t`: classes, then functions, then bindings.
pub open spec fn completions(q: Seq<char>, t: TableView) -> Seq<Seq<char>> {
    class_hits(q, t.classes) + function_hits(q, t.functions) + binding_hits(q, t.classes, t.bindings)
}

/// The suggestions for `q` in source text `src`; none where recovery yields no module.
pub open spec fn suggestions(q: Seq<char>, src: Seq<char>) -> Seq<Seq<char>> {
    match available(src) {
        Some(t) => completions(q, t),
        None => seq![],
    }
}

/// `lead` followed by `name(p1, p2, ...)`.
fn call_chars(lead: &Vec<char>, name: &Vec<char>, params: &Vec<Vec<char>>) -> (r: Vec<char>)
    ensures
        r@ == lead@ + call_text(name@, views(params@)),
{
    let mut r: Vec<char> = Vec::new();
    append_chars(&mut r, lead);
    append_chars(&mut r, name);
    r.push('(');
    let sep = vec![',', ' '];
    assert(sep@ == arg_separator());
    let args = join_chars(params, &sep);
    append_chars(&mut r, &args);
    r.push(')');
    assert(r@ =~= lead@ + call_text(name@, views(params@)));
    r
}

fn copy_chars(v: &Vec<char>) -> (r: Vec<char>)
    ensures
        r@ == v@,
{
    let mut r: Vec<char> = Vec::new();
    append_chars(&mut r, v);
    assert(r@ =~= v@);
    r
}

fn drop_self(params: &Vec<Vec<char>>) -> (r: Vec<Vec<char>>)
    ensures
        views(r@) == without_self(views(params@)),
{
    let self_chars = vec!['s', 'e', 'l', 'f'];
    assert(self_chars@ == self_name());
    let mut r: Vec<Vec<char>> = Vec::new();
    let mut i: usize = 0;
    while i < params.len()
        invariant
            i <= params.len(),
            self_chars@ == self_name(),
            views(r@) == without_self(views(params@.take(i as int))),
        decreases params.len() - i,
    {
        assert(views(params@.take(i + 1)).drop_last() == views(params@.take(i as int)));
        proof {
            reveal(Seq::filter);
        }
        if !same_chars(&params[i], &self_chars) {
            r.push(copy_chars(&params[i]));
        }
        i = i + 1;
    }
    assert(params@.take(params.len() as int) == params@);
    r
}

fn push_class_hits(out: &mut Vec<Vec<char>>, q: &Vec<char>, table: &AutoCompletes)
    ensures
        views(final(out)@) == views(old(out)@) + class_hits(q@, table@.classes),
{
    let cs = &table.classes;
    assert(table@.classes.len() == cs.len());
    let mut i: usize = 0;
    while i < cs.len()
        invariant
            i <= cs.len(),
            cs@ == table.classes@,
            table@.classes.len() == cs.len(),
            views(out@) == views(old(out)@) + class_hits(q@, table@.classes.take(i as int)),
        decreases cs.len() - i,
    {
        assert(table@.classes.take(i + 1).drop_last() == table@.classes.take(i as int));
        assert(table@.classes.take(i + 1).last() == table@.classes[i as int]);
        assert(table@.classes[i as int].0 == cs@[i as int].key@);
        let ghost prev = views(out@);
        if starts_with(&cs[i].key, q) {
            let name = copy_chars(&cs[i].key);
            out.push(name);
            assert(views(out@) =~= prev.push(cs@[i as int].key@));
        }
        i = i + 1;
        assert(views(out@) =~= views(old(out)@) + class_hits(q@, table@.classes.take(i as int)));
    }
    assert(table@.classes.take(cs.len() as int) == table@.classes);
}

fn push_function_hits(out: &mut Vec<Vec<char>>, q: &Vec<char>, table: &AutoCompletes)
    ensures
        views(final(out)@) == views(old(out)@) + function_hits(q@, table@.functions),
{
    let fs = &table.functions;
    let none: Vec<char> = Vec::new();
    assert(table@.functions.len() == fs.len());
    let mut i: usize = 0;
    while i < fs.len()
        invariant
            i <= fs.len(),
            none@ == Seq::<char>::empty(),
            fs@ == table.functions@,
            table@.functions.len() == fs.len(),
            views(out@) == views(old(out)@) + function_hits(q@, table@.functions.take(i as int)),
        decreases fs.len() - i,
    {
        assert(table@.functions.take(i + 1).drop_last() == table@.functions.take(i as int));
        assert(table@.functions.take(i + 1).last() == table@.functions[i as int]);
        assert(table@.functions[i as int] == (fs@[i as int].key@, views(fs@[i as int].value.0@)));
        if starts_with(&fs[i].key, q) {
            let text = call_chars(&none, &fs[i].key, &fs[i].value.0);
            assert(none@ + call_text(fs@[i as int].key@, views(fs@[i as int].value.0@)) == call_text(
                fs@[i as int].key@,
                views(fs@[i as int].value.0@),
            ));
            let ghost prev = views(out@);
            out.push(text);
            assert(views(out@) =~= prev.push(text@));
        }
        i = i + 1;
        assert(views(out@) =~= views(old(out)@) + function_hits(q@, table@.functions.take(i as int)));
    }
    assert(table@.functions.take(fs.len() as int) == table@.functions);
}

fn push_member_hits(out: &mut Vec<Vec<char>>, tail: &Vec<char>, ms: &Vec<Entry<Params>>)
    ensures
        views(final(out)@) == views(old(out)@) + member_hits(tail@, entries_view(ms@)),
{
    let ghost mv = entries_view(ms@);
    let init = vec!['_', '_', 'i', 'n', 'i', 't', '_', '_'];
    let dot = vec!['.'];
    assert(init@ == constructor_name());
    assert(mv.len() == ms.len());
    let mut i: usize = 0;
    while i < ms.len()
        invariant
            i <= ms.len(),
            init@ == constructor_name(),
            dot@ == seq!['.'],
            mv == entries_view(ms@),
            mv.len() == ms.len(),
            views(out@) == views(old(out)@) + member_hits(tail@, mv.take(i as int)),
        decreases ms.len() - i,
    {
        assert(mv.take(i + 1).drop_last() == mv.take(i as int));
        if starts_with(&ms[i].key, tail) && !same_chars(&ms[i].key, &init) {
            let args = drop_self(&ms[i].value.0);
            let text = call_chars(&dot, &ms[i].key, &args);
            let ghost prev = views(out@);
            out.push(text);
            assert(views(out@) =~= prev.push(text@));
        }
        i = i + 1;
        assert(views(out@) =~= views(old(out)@) + member_hits(tail@, mv.take(i as int)));
    }
    assert(mv.take(ms.len() as int) == mv);
}

/// The query split at its first `.`: the part before it and the part after it.
fn split_query(q: &Vec<char>) -> (r: (Vec<char>, Vec<char>))
    ensures
        r.0@ == query_head(q@),
        r.1@ == query_tail(q@),
{
    let mut i: usize = 0;
    while i < q.len() && q[i] != '.'
        invariant
            i <= q.len(),
            forall|j: int| 0 <= j < i ==> q@[j] != '.',
        decreases q.len() - i,
    {
        i = i + 1;
    }
    let mut head: Vec<char> = Vec::new();
    let mut tail: Vec<char> = Vec::new();
    let mut j: usize = 0;
    while j < q.len()
        invariant
            i <= q.len(),
            j <= q.len(),
            head@ == q@.take(if j < i { j as int } else { i as int }),
            tail@ == (if j <= i + 1 { Seq::<char>::empty() } else { q@.subrange(i + 1, j as int) }),
        decreases q.len() - j,
    {
        if j < i {
            head.push(q[j]);
        } else if j > i {
            tail.push(q[j]);
        }
        j = j + 1;
        assert(q@.take(j as int).drop_last() == q@.take(j - 1));
        assert(j > i + 1 ==> q@.subrange(i + 1, j as int).drop_last() == q@.subrange(i + 1, j - 1));
    }
    proof {
        if i < q.len() {
            assert(first_dot_at(q@, i as int));
            assert(has_dot(q@));
            let c = choose|k: int| first_dot_at(q@, k);
            assert(c == i) by {
                if c < i {
                    assert(q@[c] != '.');
                } else if c > i {
                    assert(q@[i as int] == '.');
                }
            }
            assert(tail@ =~= q@.skip(i + 1));
        } else {
            assert(!has_dot(q@));
            assert(head@ =~= q@);
        }
    }
    (head, tail)
}

fn push_binding_hits(out: &mut Vec<Vec<char>>, q: &Vec<char>, table: &AutoCompletes)
    ensures
        views(final(out)@) == views(old(out)@) + binding_hits(q@, table@.classes, table@.bindings),
{
    let (head, tail) = split_query(q);
    let bs = &table.assignments;
    assert(table@.bindings.len() == bs.len());
    let mut i: usize = 0;
    while i < bs.len()
        invariant
            i <= bs.len(),
            head@ == query_head(q@),
            tail@ == query_tail(q@),
            bs@ == table.assignments@,
            table@.bindings.len() == bs.len(),
            views(out@) == views(old(out)@) + binding_hits(q@, table@.classes, table@.bindings.take(i as int)),
        decreases bs.len() - i,
    {
        let ghost before = views(out@);
        let ghost b = table@.bindings[i as int];
        assert(table@.bindings.take(i + 1).drop_last() == table@.bindings.take(i as int));
        assert(table@.bindings.take(i + 1).last() == b);
        assert(b == (bs@[i as int].key@, bs@[i as int].value@));
        let mut expanded = false;
        if same_chars(&bs[i].key, &head) {
            match lookup_entry(&table.classes, &bs[i].value) {
                Some(ms) => {
                    push_member_hits(out, &tail, &ms.0);
                    expanded = true;
                },
                None => {},
            }
        }
        if !expanded && starts_with(&bs[i].key, q) {
            let name = copy_chars(&bs[i].key);
            let ghost prev = views(out@);
            out.push(name);
            assert(views(out@) =~= prev.push(name@));
            assert(views(out@) =~= before + seq![name@]);
        }
        proof {
            assert(views(out@) == before + binding_hit(q@, table@.classes, b));
        }
        i = i + 1;
    }
    assert(table@.bindings.take(bs.len() as int) == table@.bindings);
}

/// The suggestions for the query `input` from the symbol table `table`: the classes
/// whose names begin with `input`, then the functions whose names do, then what each
/// assignment contributes, member suggestions or its own name.
pub fn complete_from_table(input: &str, table: &AutoCompletes) -> (r: Vec<String>)
    ensures
        strings_view(r@) == completions(input@, table@),
{
    let q = chars_of(input);
    let mut out: Vec<Vec<char>> = Vec::new();
    push_class_hits(&mut out, &q, table);
    push_function_hits(&mut out, &q, table);
    push_binding_hits(&mut out, &q, table);
    assert(views(out@) =~= completions(input@, table@));
    let mut r: Vec<String> = Vec::new();
    let mut i: usize = 0;
    while i < out.len()
        invariant
            i <= out.len(),
            strings_view(r@) == views(out@).take(i as int),
        decreases out.len() - i,
    {
        r.push(string_of(&out[i]));
        i = i + 1;
        assert(views(out@).take(i as int) == views(out@).take(i - 1).push(out@[i - 1]@));
    }
    assert(views(out@).take(out.len() as int) == views(out@));
    r
}

/// The suggestions for the query `input` in the source text `source`: none where
/// the source cannot be recovered into a module.
pub fn suggest_completions(input: &str, source: &str) -> (r: Vec<String>)
    ensures
        strings_view(r@) == suggestions(input@, source@),
{
    match get_available_autocompletes(source) {
        Some(table) => complete_from_table(input, &table),
        None => Vec::new(),
    }
}

proof fn lemma_class_hits(q: Seq<char>, classes: Seq<(Seq<char>, MethodTable)>)
    ensures
        forall|i: int| 0 <= i < class_hits(q, classes).len() ==> q.is_prefix_of(#[trigger] class_hits(q, classes)[i]),
    decreases classes.len(),
{
    if classes.len() > 0 {
        let dl = classes.drop_last();
        lemma_class_hits(q, dl);
        assert forall|i: int| 0 <= i < class_hits(q, classes).len() implies q.is_prefix_of(
            #[trigger] class_hits(q, classes)[i],
        ) by {
            if i < class_hits(q, dl).len() {
                assert(class_hits(q, classes)[i] == class_hits(q, dl)[i]);
            }
        }
    }
}

proof fn lemma_prefix_extends(q: Seq<char>, a: Seq<char>, b: Seq<char>)
    requires
        q.is_prefix_of(a),
    ensures
        q.is_prefix_of(a + b),
{
    assert((a + b).subrange(0, q.len() as int) =~= a.subrange(0, q.len() as int));
}

proof fn lemma_function_hits(q: Seq<char>, fns: Seq<(Seq<char>, Seq<Seq<char>>)>)
    ensures
        forall|i: int| 0 <= i < function_hits(q, fns).len() ==> q.is_prefix_of(#[trigger] function_hits(q, fns)[i]),
    decreases fns.len(),
{
    if fns.len() > 0 {
        let dl = fns.drop_last();
        lemma_function_hits(q, dl);
        let f = fns.last();
        if q.is_prefix_of(f.0) {
            lemma_prefix_extends(q, f.0, seq!['('] + join(f.1, arg_separator()) + seq![')']);
            assert(call_text(f.0, f.1) =~= f.0 + (seq!['('] + join(f.1, arg_separator()) + seq![')']));
        }
        assert forall|i: int| 0 <= i < function_hits(q, fns).len() implies q.is_prefix_of(
            #[trigger] function_hits(q, fns)[i],
        ) by {
            if i < function_hits(q, dl).len() {
                assert(function_hits(q, fns)[i] == function_hits(q, dl)[i]);
            }
        }
    }
}

/// Equal queries on equal source texts get equal suggestions: the suggestions are a
/// function of the two inputs alone, so asking twice gives the same answer.
pub proof fn lemma_suggestions_deterministic(q1: Seq<char>, src1: Seq<char>, q2: Seq<char>, src2: Seq<char>)
    requires
        q1 == q2,
        src1 == src2,
    ensures
        suggestions(q1, src1) == suggestions(q2, src2),
{
}

/// Every class and function suggestion begins with the query. The class
/// suggestions come first and the function suggestions follow them; the suggestions
/// of assignments come last.
pub proof fn lemma_prefix_law(q: Seq<char>, src: Seq<char>)
    ensures
        available(src) matches Some(t) ==> {
            let out = suggestions(q, src);
            let nc = class_hits(q, t.classes).len();
            let nf = function_hits(q, t.functions).len();
            &&& nc + nf <= out.len()
            &&& forall|i: int| 0 <= i < nc + nf ==> q.is_prefix_of(#[trigger] out[i])
        },
{
    if let Some(t) = available(src) {
        let out = suggestions(q, src);
        let ch = class_hits(q, t.classes);
        let fh = function_hits(q, t.functions);
        lemma_class_hits(q, t.classes);
        lemma_function_hits(q, t.functions);
        assert forall|i: int| 0 <= i < ch.len() + fh.len() implies q.is_prefix_of(#[trigger] out[i]) by {
            if i < ch.len() {
                assert(out[i] == ch[i]);
            } else {
                assert(out[i] == fh[i - ch.len()]);
            }
        }
    }
}

/// Member suggestions never offer the constructor: each is `.m(args)` for a method
/// `m` of the class, other than `__init__`, that begins with the member prefix.
pub proof fn lemma_constructor_excluded(tail: Seq<char>, ms: MethodTable)
    ensures
        forall|i: int|
            #![trigger member_hits(tail, ms)[i]]
            0 <= i < member_hits(tail, ms).len() ==> exists|j: int|
                0 <= j < ms.len() && ms[j].0 != constructor_name() && tail.is_prefix_of(ms[j].0)
                    && member_hits(tail, ms)[i] == member_text(ms[j].0, ms[j].1),
    decreases ms.len(),
{
    if ms.len() > 0 {
        let dl = ms.drop_last();
        lemma_constructor_excluded(tail, dl);
        assert forall|i: int| #![trigger member_hits(tail, ms)[i]] 0 <= i < member_hits(tail, ms).len() implies exists|j: int|
            0 <= j < ms.len() && ms[j].0 != constructor_name() && tail.is_prefix_of(ms[j].0)
                && member_hits(tail, ms)[i] == member_text(ms[j].0, ms[j].1) by {
            if i < member_hits(tail, dl).len() {
                let j = choose|j: int|
                    0 <= j < dl.len() && dl[j].0 != constructor_name() && tail.is_prefix_of(dl[j].0)
                        && member_hits(tail, dl)[i] == member_text(dl[j].0, dl[j].1);
                assert(ms[j] == dl[j]);
                assert(0 <= j < ms.len() && ms[j].0 != constructor_name() && tail.is_prefix_of(ms[j].0)
                    && member_hits(tail, ms)[i] == member_text(ms[j].0, ms[j].1));
            } else {
                let j = ms.len() - 1;
                assert(0 <= j < ms.len() && ms[j].0 != constructor_name() && tail.is_prefix_of(ms[j].0)
                    && member_hits(tail, ms)[i] == member_text(ms[j].0, ms[j].1));
            }
        }
    }
}

/// No member suggestion lists a parameter named `self`: a member suggestion shows
/// the method's parameters with every `self` taken out and every other one kept,
/// in declaration order.
pub proof fn lemma_self_filtered(params: Seq<Seq<char>>)
    ensures
        !without_self(params).contains(self_name()),
        forall|p: Seq<char>| params.contains(p) && p != self_name() ==> #[trigger] without_self(params).contains(p),
{
    let keep = |p: Seq<char>| p != self_name();
    assert forall|k: int| 0 <= k < without_self(params).len() implies without_self(params)[k] != self_name() by {
        params.lemma_filter_pred(keep, k);
    }
    assert forall|p: Seq<char>| params.contains(p) && p != self_name() implies #[trigger] without_self(params).contains(p) by {
        let k = choose|k: int| 0 <= k < params.len() && params[k] == p;
        params.lemma_filter_contains(keep, k);
    }
}

/// Whether `s` is the name of one of the bindings `bs`.
pub open spec fn is_binding_name(s: Seq<char>, bs: Seq<(Seq<char>, Seq<char>)>) -> bool {
    exists|b: int| #![trigger bs[b]] 0 <= b < bs.len() && s == bs[b].0
}

/// Whether `s` is `.m(args)` for a method `m`, other than the constructor, of one of
/// the classes.
pub open spec fn is_method_offer(s: Seq<char>, classes: Seq<(Seq<char>, MethodTable)>) -> bool {
    exists|c: int, j: int|
        #![trigger classes[c].1[j]]
        0 <= c < classes.len() && 0 <= j < classes[c].1.len() && classes[c].1[j].0 != constructor_name()
            && s == member_text(classes[c].1[j].0, classes[c].1[j].1)
}

proof fn lemma_binding_hits_shape(
    q: Seq<char>,
    classes: Seq<(Seq<char>, MethodTable)>,
    bs: Seq<(Seq<char>, Seq<char>)>,
)
    ensures
        forall|i: int|
            0 <= i < binding_hits(q, classes, bs).len() ==> is_binding_name(
                #[trigger] binding_hits(q, classes, bs)[i],
                bs,
            ) || is_method_offer(binding_hits(q, classes, bs)[i], classes),
    decreases bs.len(),
{
    if bs.len() > 0 {
        let dl = bs.drop_last();
        let b = bs.last();
        lemma_binding_hits_shape(q, classes, dl);
        let front = binding_hits(q, classes, dl);
        let hit = binding_hit(q, classes, b);
        assert forall|i: int| 0 <= i < binding_hits(q, classes, bs).len() implies is_binding_name(
            #[trigger] binding_hits(q, classes, bs)[i],
            bs,
        ) || is_method_offer(binding_hits(q, classes, bs)[i], classes) by {
            let s = binding_hits(q, classes, bs)[i];
            if i < front.len() {
                assert(s == front[i]);
                if is_binding_name(s, dl) {
                    let w = choose|w: int| #![trigger dl[w]] 0 <= w < dl.len() && s == dl[w].0;
                    assert(bs[w] == dl[w]);
                }
            } else {
                assert(s == hit[i - front.len()]);
                match member_expansion(q, classes, b.0, b.1) {
                    Some(hits) => {
                        lemma_lookup_found(classes, b.1);
                        let ms = lookup(classes, b.1)->0;
                        let c = choose|c: int| #![trigger classes[c]] 0 <= c < classes.len() && classes[c] == (b.1, ms);
                        lemma_constructor_excluded(query_tail(q), ms);
                        let j = choose|j: int|
                            0 <= j < ms.len() && ms[j].0 != constructor_name() && query_tail(q).is_prefix_of(ms[j].0)
                                && member_hits(query_tail(q), ms)[i - front.len()] == member_text(ms[j].0, ms[j].1);
                        assert(classes[c].1[j] == ms[j]);
                    },
                    None => {
                        assert(s == b.0);
                        assert(bs[bs.len() - 1] == b);
                    },
                }
            }
        }
    }
}

/// Member suggestions never offer the constructor: after the class and function
/// suggestions, each suggestion is either the name of an assignment or `.m(args)` for
/// a method `m` of one of the classes that is not `__init__`.
pub proof fn lemma_no_constructor_offered(q: Seq<char>, src: Seq<char>)
    ensures
        available(src) matches Some(t) ==> {
            let out = suggestions(q, src);
            let n = class_hits(q, t.classes).len() + function_hits(q, t.functions).len();
            forall|i: int|
                n <= i < out.len() ==> is_binding_name(#[trigger] out[i], t.bindings) || is_method_offer(
                    out[i],
                    t.classes,
                )
        },
{
    if let Some(t) = available(src) {
        let out = suggestions(q, src);
        let n = class_hits(q, t.classes).len() + function_hits(q, t.functions).len();
        let bh = binding_hits(q, t.classes, t.bindings);
        lemma_binding_hits_shape(q, t.classes, t.bindings);
        assert forall|i: int| n <= i < out.len() implies is_binding_name(#[trigger] out[i], t.bindings)
            || is_method_offer(out[i], t.classes) by {
            assert(out[i] == bh[i - n]);
        }
    }
}

} // verus!

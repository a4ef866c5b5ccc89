//! Keyed entries kept in a vector: a small ordered map that the symbol table is
//! built from. Keys are character sequences and never repeat.

use crate::text::same_chars;
use vstd::prelude::*;

verus! {

/// A key and the value stored under it.
pub struct Entry<T> {
    pub key: Vec<char>,
    pub value: T,
}

impl<T: View> View for Entry<T> {
    type V = (Seq<char>, T::V);

    open spec fn view(&self) -> (Seq<char>, T::V) {
        (self.key@, self.value@)
    }
}

pub open spec fn entries_view<T: View>(es: Seq<Entry<T>>) -> Seq<(Seq<char>, T::V)> {
    es.map_values(|e: Entry<T>| e@)
}

pub open spec fn has_key<U>(es: Seq<(Seq<char>, U)>, k: Seq<char>) -> bool {
    exists|i: int| 0 <= i < es.len() && es[i].0 == k
}

pub open spec fn keys_unique<U>(es: Seq<(Seq<char>, U)>) -> bool {
    forall|i: int, j: int| 0 <= i < j < es.len() ==> es[i].0 != es[j].0
}

/// The entries with the value under `k` replaced by `v`.
pub open spec fn replaced<U>(es: Seq<(Seq<char>, U)>, k: Seq<char>, v: U) -> Seq<(Seq<char>, U)> {
    es.map_values(|e: (Seq<char>, U)| if e.0 == k { (k, v) } else { e })
}

/// Stores `v` under `k`: in place where `k` is already a key, else as a new last entry.
pub open spec fn put<U>(es: Seq<(Seq<char>, U)>, k: Seq<char>, v: U) -> Seq<(Seq<char>, U)> {
    if has_key(es, k) {
        replaced(es, k, v)
    } else {
        es.push((k, v))
    }
}

/// An entry after `put` holds the stored value or is an entry from before.
pub proof fn lemma_put_values<U>(es: Seq<(Seq<char>, U)>, k: Seq<char>, v: U, j: int)
    requires
        0 <= j < put(es, k, v).len(),
    ensures
        put(es, k, v)[j].1 == v || (j < es.len() && put(es, k, v)[j] == es[j]),
{
}

/// A value found by `lookup` is stored in some entry under that key.
pub proof fn lemma_lookup_found<U>(es: Seq<(Seq<char>, U)>, k: Seq<char>)
    ensures
        lookup(es, k) matches Some(v) ==> exists|i: int| #![trigger es[i]] 0 <= i < es.len() && es[i] == (k, v),
    decreases es.len(),
{
    if es.len() > 0 && es[0].0 != k {
        let rest = es.drop_first();
        lemma_lookup_found(rest, k);
        if let Some(v) = lookup(es, k) {
            let i = choose|i: int| #![trigger rest[i]] 0 <= i < rest.len() && rest[i] == (k, v);
            assert(es[i + 1] == rest[i]);
        }
    } else if es.len() > 0 {
        assert(es[0] == (k, es[0].1));
    }
}

/// Whether `a` comes before `b` in lexicographic order of characters (by code point).
pub open spec fn lex_lt(a: Seq<char>, b: Seq<char>) -> bool
    decreases a.len(),
{
    if b.len() == 0 {
        false
    } else if a.len() == 0 {
        true
    } else if a[0] != b[0] {
        a[0] < b[0]
    } else {
        lex_lt(a.drop_first(), b.drop_first())
    }
}

/// The number of keys of `es` that come before `k`.
pub open spec fn count_less<U>(es: Seq<(Seq<char>, U)>, k: Seq<char>) -> nat
    decreases es.len(),
{
    if es.len() == 0 {
        0
    } else {
        count_less(es.drop_last(), k) + (if lex_lt(es.last().0, k) { 1nat } else { 0nat })
    }
}

/// Stores `v` under `k` in entries kept in key order: in place where `k` is already
/// a key, else after every smaller key.
pub open spec fn put_sorted<U>(es: Seq<(Seq<char>, U)>, k: Seq<char>, v: U) -> Seq<(Seq<char>, U)> {
    if has_key(es, k) {
        replaced(es, k, v)
    } else {
        es.insert(count_less(es, k) as int, (k, v))
    }
}

/// Keys strictly increase along the entries.
pub open spec fn keys_sorted<U>(es: Seq<(Seq<char>, U)>) -> bool {
    forall|i: int, j: int| 0 <= i < j < es.len() ==> lex_lt(#[trigger] es[i].0, #[trigger] es[j].0)
}

pub proof fn lemma_lex_total(a: Seq<char>, b: Seq<char>)
    requires
        a != b,
    ensures
        lex_lt(a, b) || lex_lt(b, a),
    decreases a.len(),
{
    if a.len() > 0 && b.len() > 0 && a[0] == b[0] {
        assert(a.drop_first() != b.drop_first()) by {
            if a.drop_first() == b.drop_first() {
                assert(a =~= seq![a[0]] + a.drop_first());
                assert(b =~= seq![b[0]] + b.drop_first());
            }
        }
        lemma_lex_total(a.drop_first(), b.drop_first());
    } else if a.len() == 0 && b.len() == 0 {
        assert(a =~= b);
    }
}

pub proof fn lemma_lex_transitive(a: Seq<char>, b: Seq<char>, c: Seq<char>)
    requires
        lex_lt(a, b),
        lex_lt(b, c),
    ensures
        lex_lt(a, c),
    decreases a.len(),
{
    if a.len() > 0 && a[0] == b[0] && b[0] == c[0] {
        lemma_lex_transitive(a.drop_first(), b.drop_first(), c.drop_first());
    }
}

/// Among sorted entries, the ones before `count_less(es, k)` are exactly those whose
/// keys come before `k`.
proof fn lemma_count_less_sorted<U>(es: Seq<(Seq<char>, U)>, k: Seq<char>)
    requires
        keys_sorted(es),
    ensures
        count_less(es, k) <= es.len(),
        forall|i: int| 0 <= i < es.len() ==> (i < count_less(es, k) <==> lex_lt(#[trigger] es[i].0, k)),
    decreases es.len(),
{
    if es.len() > 0 {
        let dl = es.drop_last();
        assert(keys_sorted(dl)) by {
            assert forall|i: int, j: int| 0 <= i < j < dl.len() implies lex_lt(#[trigger] dl[i].0, #[trigger] dl[j].0) by {
                assert(dl[i] == es[i] && dl[j] == es[j]);
            }
        }
        lemma_count_less_sorted(dl, k);
        let last = es.len() - 1;
        if lex_lt(es[last].0, k) {
            assert forall|i: int| 0 <= i < dl.len() implies lex_lt(#[trigger] dl[i].0, k) by {
                assert(dl[i] == es[i]);
                assert(lex_lt(es[i].0, es[last].0));
                lemma_lex_transitive(es[i].0, es[last].0, k);
            }
            if count_less(dl, k) < dl.len() {
                let m = count_less(dl, k) as int;
                assert(lex_lt(dl[m].0, k));
            }
        }
        assert forall|i: int| 0 <= i < es.len() implies (i < count_less(es, k) <==> lex_lt(#[trigger] es[i].0, k)) by {
            if i < dl.len() {
                assert(dl[i] == es[i]);
            }
        }
    }
}

/// Storing into sorted entries with `put_sorted` keeps them sorted.
pub proof fn lemma_put_sorted_keeps_order<U>(es: Seq<(Seq<char>, U)>, k: Seq<char>, v: U)
    requires
        keys_sorted(es),
    ensures
        keys_sorted(put_sorted(es, k, v)),
{
    let r = put_sorted(es, k, v);
    if has_key(es, k) {
        assert forall|i: int, j: int| 0 <= i < j < r.len() implies lex_lt(#[trigger] r[i].0, #[trigger] r[j].0) by {
            assert(r[i].0 == es[i].0 && r[j].0 == es[j].0);
        }
    } else {
        lemma_count_less_sorted(es, k);
        let p = count_less(es, k) as int;
        assert forall|i: int, j: int| 0 <= i < j < r.len() implies lex_lt(#[trigger] r[i].0, #[trigger] r[j].0) by {
            if j < p {
                assert(r[i] == es[i] && r[j] == es[j]);
            } else if j == p {
                assert(r[i] == es[i]);
            } else if i < p {
                assert(r[i] == es[i] && r[j] == es[j - 1]);
                assert(es[j - 1].0 != k);
                lemma_lex_total(es[j - 1].0, k);
                lemma_lex_transitive(es[i].0, k, es[j - 1].0);
            } else if i == p {
                assert(r[j] == es[j - 1]);
                assert(es[j - 1].0 != k);
                lemma_lex_total(es[j - 1].0, k);
            } else {
                assert(r[i] == es[i - 1] && r[j] == es[j - 1]);
            }
        }
    }
}

/// The value under the first entry keyed `k`, if any.
pub open spec fn lookup<U>(es: Seq<(Seq<char>, U)>, k: Seq<char>) -> Option<U>
    decreases es.len(),
{
    if es.len() == 0 {
        None
    } else if es[0].0 == k {
        Some(es[0].1)
    } else {
        lookup(es.drop_first(), k)
    }
}

/// Whether `a` comes before `b` in lexicographic order of character codes.
pub fn lex_less(a: &Vec<char>, b: &Vec<char>) -> (r: bool)
    ensures
        r == lex_lt(a@, b@),
{
    let mut i: usize = 0;
    assert(a@.skip(0) == a@ && b@.skip(0) == b@);
    while i < a.len() && i < b.len() && a[i] == b[i]
        invariant
            i <= a.len(),
            i <= b.len(),
            lex_lt(a@.skip(i as int), b@.skip(i as int)) == lex_lt(a@, b@),
        decreases a.len() - i,
    {
        assert(a@.skip(i as int).drop_first() == a@.skip(i + 1));
        assert(b@.skip(i as int).drop_first() == b@.skip(i + 1));
        i = i + 1;
    }
    if i == b.len() {
        false
    } else if i == a.len() {
        true
    } else {
        a[i] < b[i]
    }
}

proof fn lemma_replace_unique<U>(es: Seq<(Seq<char>, U)>, i: int, k: Seq<char>, v: U)
    requires
        keys_unique(es),
        0 <= i < es.len(),
        es[i].0 == k,
    ensures
        has_key(es, k),
        replaced(es, k, v) == es.update(i, (k, v)),
        keys_unique(replaced(es, k, v)),
{
    assert(replaced(es, k, v) =~= es.update(i, (k, v)));
}

/// Stores `value` under `key`: in place where `key` is already a key, else as a new
/// last entry.
pub fn put_entry<T: View>(es: &mut Vec<Entry<T>>, key: Vec<char>, value: T)
    requires
        keys_unique(entries_view(old(es)@)),
    ensures
        entries_view(final(es)@) == put(entries_view(old(es)@), key@, value@),
        keys_unique(entries_view(final(es)@)),
{
    let ghost ks = key@;
    let ghost vs = value@;
    let mut i: usize = 0;
    while i < es.len()
        invariant
            i <= es.len(),
            es@ == old(es)@,
            key@ == ks,
            value@ == vs,
            keys_unique(entries_view(es@)),
            forall|j: int| 0 <= j < i ==> es@[j].key@ != ks,
        decreases es.len() - i,
    {
        if same_chars(&es[i].key, &key) {
            proof {
                lemma_replace_unique(entries_view(es@), i as int, ks, vs);
            }
            es[i] = Entry { key, value };
            assert(entries_view(es@) =~= entries_view(old(es)@).update(i as int, (ks, vs)));
            return;
        }
        i = i + 1;
    }
    assert(!has_key(entries_view(es@), ks));
    es.push(Entry { key, value });
    assert(entries_view(es@) =~= entries_view(old(es)@).push((ks, vs)));
}

/// Stores `value` under `key` in entries kept in key order: in place where `key` is
/// already a key, else after every smaller key.
pub fn put_entry_sorted<T: View>(es: &mut Vec<Entry<T>>, key: Vec<char>, value: T)
    requires
        keys_unique(entries_view(old(es)@)),
    ensures
        entries_view(final(es)@) == put_sorted(entries_view(old(es)@), key@, value@),
        keys_unique(entries_view(final(es)@)),
{
    let ghost ks = key@;
    let ghost vs = value@;
    let mut i: usize = 0;
    let mut less: usize = 0;
    while i < es.len()
        invariant
            i <= es.len(),
            less <= i,
            es@ == old(es)@,
            key@ == ks,
            value@ == vs,
            keys_unique(entries_view(es@)),
            forall|j: int| 0 <= j < i ==> es@[j].key@ != ks,
            less == count_less(entries_view(es@).take(i as int), ks),
        decreases es.len() - i,
    {
        if same_chars(&es[i].key, &key) {
            proof {
                lemma_replace_unique(entries_view(es@), i as int, ks, vs);
            }
            es[i] = Entry { key, value };
            assert(entries_view(es@) =~= entries_view(old(es)@).update(i as int, (ks, vs)));
            return;
        }
        let lt = lex_less(&es[i].key, &key);
        assert(entries_view(es@).take(i + 1).drop_last() == entries_view(es@).take(i as int));
        if lt {
            less = less + 1;
        }
        i = i + 1;
    }
    assert(entries_view(es@).take(es.len() as int) == entries_view(es@));
    let ghost before = entries_view(es@);
    assert(!has_key(before, ks));
    es.insert(less, Entry { key, value });
    assert(entries_view(es@) =~= before.insert(less as int, (ks, vs)));
    assert forall|a: int, b: int| 0 <= a < b < es.len() implies entries_view(es@)[a].0 != entries_view(es@)[b].0 by {
        let s = entries_view(es@);
        if a < less && b < less {
            assert(s[a] == before[a] && s[b] == before[b]);
        } else if a < less && b == less {
            assert(s[a] == before[a]);
        } else if a < less {
            assert(s[a] == before[a] && s[b] == before[b - 1]);
        } else if a == less {
            assert(s[b] == before[b - 1]);
        } else {
            assert(s[a] == before[a - 1] && s[b] == before[b - 1]);
        }
    }
}

/// The value under the first entry keyed `key`, if any.
pub fn lookup_entry<'a, T: View>(es: &'a Vec<Entry<T>>, key: &Vec<char>) -> (r: Option<&'a T>)
    ensures
        match r {
            Some(v) => lookup(entries_view(es@), key@) == Some(v@),
            None => lookup(entries_view(es@), key@) is None,
        },
{
    let mut i: usize = 0;
    assert(entries_view(es@).skip(0) == entries_view(es@));
    while i < es.len()
        invariant
            i <= es.len(),
            lookup(entries_view(es@).skip(i as int), key@) == lookup(entries_view(es@), key@),
        decreases es.len() - i,
    {
        assert(entries_view(es@).skip(i as int).drop_first() == entries_view(es@).skip(i + 1));
        if same_chars(&es[i].key, key) {
            return Some(&es[i].value);
        }
        i = i + 1;
    }
    None
}

} // verus!

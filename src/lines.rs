//! Lines of a source text, and the removal of the line at which a parse failed.

use crate::text::{char_width, chars_of, join, join_chars, string_of, utf8_width, views};
use vstd::prelude::*;

verus! {

/// The pieces of `t` between its newline characters: always one more piece than
/// there are newlines.
pub open spec fn split_newlines(t: Seq<char>) -> Seq<Seq<char>>
    decreases t.len(),
{
    if t.len() == 0 {
        seq![seq![]]
    } else {
        let rest = split_newlines(t.drop_last());
        if t.last() == '\n' {
            rest.push(seq![])
        } else {
            rest.update(rest.len() - 1, rest.last().push(t.last()))
        }
    }
}

/// The lines of `t`: the pieces between newlines, where a final newline ends the
/// last line instead of starting an empty one, and an empty text has no lines.
pub open spec fn lines_of(t: Seq<char>) -> Seq<Seq<char>> {
    if t.len() == 0 {
        seq![]
    } else if t.last() == '\n' {
        split_newlines(t).drop_last()
    } else {
        split_newlines(t)
    }
}

/// The newline characters of `t` that start before byte `off` of its UTF-8 encoding.
pub open spec fn newlines_before(t: Seq<char>, off: int) -> nat
    decreases t.len(),
{
    if t.len() == 0 || off <= 0 {
        0
    } else {
        (if t[0] == '\n' { 1nat } else { 0nat }) + newlines_before(t.drop_first(), off - char_width(t[0]))
    }
}

/// `t` without the line that lies `offset` lines above the line holding byte `index`,
/// lines joined again by newlines. The result is empty where that line would be the
/// first line or above it (with `offset` 0: where `index` lies in the first line), or
/// where it lies past the last line.
pub open spec fn line_removed(t: Seq<char>, index: nat, offset: nat) -> Seq<char> {
    let n = newlines_before(t, index as int);
    let ls = lines_of(t);
    if offset >= n || n - offset >= ls.len() {
        seq![]
    } else {
        join(ls.remove(n - offset), seq!['\n'])
    }
}

pub open spec fn has_newline(s: Seq<char>) -> bool {
    exists|i: int| 0 <= i < s.len() && s[i] == '\n'
}

proof fn lemma_split_shape(t: Seq<char>)
    ensures
        split_newlines(t).len() >= 1,
        forall|i: int| 0 <= i < split_newlines(t).len() ==> !has_newline(#[trigger] split_newlines(t)[i]),
    decreases t.len(),
{
    if t.len() > 0 {
        lemma_split_shape(t.drop_last());
        let rest = split_newlines(t.drop_last());
        if t.last() != '\n' {
            let l = rest.last().push(t.last());
            assert forall|j: int| 0 <= j < l.len() implies l[j] != '\n' by {
                if j < rest.last().len() {
                    assert(!has_newline(rest[rest.len() - 1]));
                    assert(l[j] == rest.last()[j]);
                }
            }
        }
    }
}

proof fn lemma_join_split(t: Seq<char>)
    ensures
        join(split_newlines(t), seq!['\n']) == t,
    decreases t.len(),
{
    if t.len() > 0 {
        lemma_join_split(t.drop_last());
        lemma_split_shape(t.drop_last());
        let rest = split_newlines(t.drop_last());
        let ps = split_newlines(t);
        if t.last() == '\n' {
            assert(ps.drop_last() == rest);
            assert(t == t.drop_last() + seq!['\n'] + ps.last());
        } else {
            if rest.len() == 1 {
                assert(t == rest[0].push(t.last()));
            } else {
                assert(ps.drop_last() == rest.drop_last());
                let j = join(rest.drop_last(), seq!['\n']);
                assert(join(rest, seq!['\n']) == j + seq!['\n'] + rest.last());
                assert(t == t.drop_last().push(t.last()));
                assert((j + seq!['\n'] + rest.last()).push(t.last()) == j + seq!['\n'] + rest.last().push(t.last()));
            }
        }
    }
}

/// Joining the lines of a text gives the text back, less a final newline.
proof fn lemma_join_lines_len(t: Seq<char>)
    ensures
        join(lines_of(t), seq!['\n']).len() <= t.len(),
        forall|i: int| 0 <= i < lines_of(t).len() ==> !has_newline(#[trigger] lines_of(t)[i]),
{
    lemma_split_shape(t);
    if t.len() > 0 && t.last() == '\n' {
        lemma_split_shape(t.drop_last());
        lemma_join_split(t.drop_last());
        assert(lines_of(t) == split_newlines(t.drop_last()));
    } else {
        lemma_join_split(t);
    }
}

proof fn lemma_join_remove_len(ls: Seq<Seq<char>>, k: int)
    requires
        ls.len() >= 2,
        0 <= k < ls.len(),
    ensures
        join(ls.remove(k), seq!['\n']).len() + ls[k].len() + 1 == join(ls, seq!['\n']).len(),
    decreases ls.len(),
{
    let dl = ls.drop_last();
    if k == ls.len() - 1 {
        assert(ls.remove(k) == dl);
    } else if ls.len() == 2 {
        assert(ls.remove(k) == seq![ls[1]]);
    } else {
        lemma_join_remove_len(dl, k);
        let r = ls.remove(k);
        assert(r.drop_last() == dl.remove(k));
        assert(r.last() == ls.last());
        assert(join(r, seq!['\n']) == join(dl.remove(k), seq!['\n']) + seq!['\n'] + ls.last());
        assert(join(ls, seq!['\n']) == join(dl, seq!['\n']) + seq!['\n'] + ls.last());
        assert(dl[k] == ls[k]);
    }
}

proof fn lemma_split_append_plain(x: Seq<char>, b: Seq<char>)
    requires
        !has_newline(b),
    ensures
        split_newlines(x + b) == split_newlines(x).update(
            split_newlines(x).len() - 1,
            split_newlines(x).last() + b,
        ),
    decreases b.len(),
{
    lemma_split_shape(x);
    if b.len() == 0 {
        assert(x + b == x);
        assert(split_newlines(x).last() + b == split_newlines(x).last());
        assert(split_newlines(x).update(split_newlines(x).len() - 1, split_newlines(x).last())
            == split_newlines(x));
    } else {
        let bd = b.drop_last();
        assert(!has_newline(bd)) by {
            assert forall|i: int| 0 <= i < bd.len() implies bd[i] != '\n' by {
                assert(bd[i] == b[i]);
            }
        }
        lemma_split_append_plain(x, bd);
        assert((x + b).drop_last() == x + bd);
        assert((x + b).last() == b.last());
        assert(b.last() != '\n') by {
            assert(b[b.len() - 1] == b.last());
        }
        assert(split_newlines(x).last() + bd + seq![b.last()] == split_newlines(x).last() + b);
        assert((split_newlines(x).last() + bd).push(b.last()) == split_newlines(x).last() + b);
    }
}

/// Splitting joined lines gives the lines back.
proof fn lemma_split_join(ps: Seq<Seq<char>>)
    requires
        ps.len() >= 1,
        forall|i: int| 0 <= i < ps.len() ==> !has_newline(#[trigger] ps[i]),
    ensures
        split_newlines(join(ps, seq!['\n'])) == ps,
    decreases ps.len(),
{
    if ps.len() == 1 {
        lemma_split_append_plain(seq![], ps[0]);
        assert(seq![] + ps[0] == ps[0]);
        assert(split_newlines(seq![]).update(0, seq![] + ps[0]) == ps);
    } else {
        let dl = ps.drop_last();
        assert forall|i: int| 0 <= i < dl.len() implies !has_newline(#[trigger] dl[i]) by {
            assert(dl[i] == ps[i]);
        }
        lemma_split_join(dl);
        let x = join(dl, seq!['\n']) + seq!['\n'];
        assert(x.drop_last() == join(dl, seq!['\n']));
        assert(split_newlines(x) == dl.push(seq![]));
        assert(!has_newline(ps[ps.len() - 1]));
        lemma_split_append_plain(x, ps.last());
        assert(seq![] + ps.last() == ps.last());
        assert(dl.push(seq![]).update(dl.len() as int, ps.last()) == ps);
    }
}

/// Joined lines have at most as many lines as were joined.
proof fn lemma_lines_of_join(ps: Seq<Seq<char>>)
    requires
        ps.len() >= 1,
        forall|i: int| 0 <= i < ps.len() ==> !has_newline(#[trigger] ps[i]),
    ensures
        lines_of(join(ps, seq!['\n'])).len() <= ps.len(),
{
    lemma_split_join(ps);
}

/// A removal either empties the text or leaves it shorter, with fewer lines.
pub proof fn lemma_line_removed_shrinks(t: Seq<char>, index: nat, offset: nat)
    ensures
        line_removed(t, index, offset).len() < t.len() || line_removed(t, index, offset).len() == 0,
        line_removed(t, index, offset).len() == 0
            || lines_of(line_removed(t, index, offset)).len() < lines_of(t).len(),
{
    let n = newlines_before(t, index as int);
    let ls = lines_of(t);
    lemma_join_lines_len(t);
    if !(offset >= n || n - offset >= ls.len()) {
        let k = n - offset;
        if ls.len() >= 2 {
            lemma_join_remove_len(ls, k);
            let rest = ls.remove(k);
            assert forall|i: int| 0 <= i < rest.len() implies !has_newline(#[trigger] rest[i]) by {
                if i < k {
                    assert(rest[i] == ls[i]);
                } else {
                    assert(rest[i] == ls[i + 1]);
                }
            }
            lemma_lines_of_join(rest);
        } else {
            assert(ls.remove(k).len() == 0);
        }
    }
}

/// The lines of `t`.
fn split_lines(t: &Vec<char>) -> (r: Vec<Vec<char>>)
    ensures
        views(r@) == lines_of(t@),
{
    let mut done: Vec<Vec<char>> = Vec::new();
    let mut cur: Vec<char> = Vec::new();
    let mut i: usize = 0;
    while i < t.len()
        invariant
            i <= t.len(),
            views(done@).push(cur@) == split_newlines(t@.take(i as int)),
        decreases t.len() - i,
    {
        let ghost before = t@.take(i as int);
        let c = t[i];
        proof {
            lemma_split_shape(before);
        }
        if c == '\n' {
            done.push(cur);
            cur = Vec::new();
        } else {
            cur.push(c);
        }
        i = i + 1;
        assert(t@.take(i as int).drop_last() == before);
        assert(views(done@).push(cur@) == split_newlines(t@.take(i as int)));
    }
    assert(t@.take(t.len() as int) == t@);
    if t.len() > 0 && t[t.len() - 1] != '\n' {
        done.push(cur);
    }
    proof {
        if t.len() > 0 && t@.last() == '\n' {
            assert(views(done@) == views(done@).push(cur@).drop_last());
        }
    }
    done
}

/// The newlines of `t` that start before byte `off` of its UTF-8 encoding.
fn count_newlines_before(t: &Vec<char>, off: usize) -> (n: usize)
    ensures
        n == newlines_before(t@, off as int),
{
    let mut n: usize = 0;
    let mut rem: usize = off;
    let mut i: usize = 0;
    assert(t@.skip(0) == t@);
    while i < t.len() && rem > 0
        invariant
            i <= t.len(),
            n <= i,
            n + newlines_before(t@.skip(i as int), rem as int) == newlines_before(t@, off as int),
        decreases t.len() - i,
    {
        let c = t[i];
        let w = utf8_width(c);
        let ghost s = t@.skip(i as int);
        assert(s.drop_first() == t@.skip(i + 1));
        assert(s[0] == c);
        assert(newlines_before(s, rem as int) == (if c == '\n' { 1nat } else { 0nat })
            + newlines_before(s.drop_first(), rem - w));
        if c == '\n' {
            n = n + 1;
        }
        let next = if w >= rem { 0 } else { rem - w };
        assert(newlines_before(s.drop_first(), next as int) == newlines_before(s.drop_first(), rem - w));
        rem = next;
        i = i + 1;
    }
    assert(newlines_before(t@.skip(i as int), rem as int) == 0);
    n
}

/// `text` without the line that lies `offset` lines above the line holding byte
/// `index`, the other lines joined by newlines. The result is empty where that line
/// would be the first line or above it (with `offset` 0: where `index` lies in the
/// first line, which makes the text unrecoverable), or where it lies past the last
/// line.
pub fn remove_line(text: &str, index: usize, offset: usize) -> (r: String)
    ensures
        r@ == line_removed(text@, index as nat, offset as nat),
{
    let t = chars_of(text);
    let n = count_newlines_before(&t, index);
    let mut ls = split_lines(&t);
    if offset >= n || n - offset >= ls.len() {
        return String::new();
    }
    let k = n - offset;
    let ghost before = ls@;
    ls.remove(k);
    assert(views(ls@) == views(before).remove(k as int));
    let sep = vec!['\n'];
    assert(sep@ == seq!['\n']);
    let joined = join_chars(&ls, &sep);
    assert(joined@ == line_removed(text@, index as nat, offset as nat));
    string_of(&joined)
}

} // verus!

//! Character-level helpers shared by the recovery and completion passes.

use vstd::prelude::*;
use vstd::std_specs::iter::IteratorSpec;
use vstd::utf8::encode_scalar;

verus! {

/// `parts` with `sep` between each two neighbours.
pub open spec fn join(parts: Seq<Seq<char>>, sep: Seq<char>) -> Seq<char>
    decreases parts.len(),
{
    if parts.len() == 0 {
        seq![]
    } else if parts.len() == 1 {
        parts[0]
    } else {
        join(parts.drop_last(), sep) + sep + parts.last()
    }
}

/// The views of a sequence of character vectors.
pub open spec fn views(v: Seq<Vec<char>>) -> Seq<Seq<char>> {
    v.map_values(|x: Vec<char>| x@)
}

/// The number of bytes in the UTF-8 encoding of `c`.
pub open spec fn char_width(c: char) -> nat {
    encode_scalar(c as u32).len()
}

/// The characters of `s`, in order.
pub fn chars_of(s: &str) -> (r: Vec<char>)
    ensures
        r@ == s@,
{
    let mut r: Vec<char> = Vec::new();
    for c in it: s.chars()
        invariant
            it.seq() == s@,
            r@ == it.seq().take(it.index() as int),
    {
        r.push(c);
    }
    r
}

/// Relies on `String::push`: it appends one character.
#[verifier::external_body]
fn push_char(s: &mut String, c: char)
    ensures
        final(s)@ == old(s)@.push(c),
{
    s.push(c);
}

/// The string made of the characters of `v`.
pub fn string_of(v: &Vec<char>) -> (r: String)
    ensures
        r@ == v@,
{
    let mut r = String::new();
    let mut i: usize = 0;
    while i < v.len()
        invariant
            i <= v.len(),
            r@ == v@.take(i as int),
        decreases v.len() - i,
    {
        push_char(&mut r, v[i]);
        i = i + 1;
        assert(v@.take(i as int) == v@.take(i - 1).push(v@[i - 1]));
    }
    assert(v@.take(v.len() as int) == v@);
    r
}

/// Whether `s` begins with `p`.
pub fn starts_with(s: &Vec<char>, p: &Vec<char>) -> (r: bool)
    ensures
        r == p@.is_prefix_of(s@),
{
    if p.len() > s.len() {
        return false;
    }
    let mut i: usize = 0;
    while i < p.len()
        invariant
            p.len() <= s.len(),
            i <= p.len(),
            p@.take(i as int) == s@.take(i as int),
        decreases p.len() - i,
    {
        if p[i] != s[i] {
            assert(p@.is_prefix_of(s@) ==> p@[i as int] == s@.subrange(0, p@.len() as int)[i as int]);
            return false;
        }
        i = i + 1;
        assert(p@.take(i as int) == p@.take(i - 1).push(p@[i - 1]));
        assert(s@.take(i as int) == s@.take(i - 1).push(s@[i - 1]));
    }
    assert(p@.take(p.len() as int) == p@);
    true
}

/// Whether `a` and `b` hold the same characters.
pub fn same_chars(a: &Vec<char>, b: &Vec<char>) -> (r: bool)
    ensures
        r == (a@ == b@),
{
    if a.len() != b.len() {
        return false;
    }
    let r = starts_with(a, b);
    proof {
        if r {
            assert(a@ == a@.subrange(0, b@.len() as int));
        }
    }
    r
}

/// Appends the characters of `b` to `a`.
pub fn append_chars(a: &mut Vec<char>, b: &Vec<char>)
    ensures
        final(a)@ == old(a)@ + b@,
{
    let mut i: usize = 0;
    while i < b.len()
        invariant
            i <= b.len(),
            a@ == old(a)@ + b@.take(i as int),
        decreases b.len() - i,
    {
        a.push(b[i]);
        i = i + 1;
        assert(b@.take(i as int) == b@.take(i - 1).push(b@[i - 1]));
    }
    assert(b@.take(b.len() as int) == b@);
}

/// `parts` with `sep` between each two neighbours.
pub fn join_chars(parts: &Vec<Vec<char>>, sep: &Vec<char>) -> (r: Vec<char>)
    ensures
        r@ == join(views(parts@), sep@),
{
    let mut r: Vec<char> = Vec::new();
    let mut i: usize = 0;
    while i < parts.len()
        invariant
            i <= parts.len(),
            r@ == join(views(parts@.take(i as int)), sep@),
        decreases parts.len() - i,
    {
        let ghost before = views(parts@.take(i as int));
        if i > 0 {
            append_chars(&mut r, sep);
        }
        append_chars(&mut r, &parts[i]);
        i = i + 1;
        proof {
            let now = views(parts@.take(i as int));
            assert(now.drop_last() == before);
            assert(now.last() == parts@[i - 1]@);
        }
    }
    assert(parts@.take(parts.len() as int) == parts@);
    r
}

/// The number of bytes in the UTF-8 encoding of `c`.
pub fn utf8_width(c: char) -> (w: usize)
    ensures
        w == char_width(c),
        1 <= w <= 4,
{
    let v = c as u32;
    if v <= 0x7F {
        1
    } else if v <= 0x7FF {
        2
    } else if v <= 0xFFFF && !(0xD800 <= v && v <= 0xDFFF) {
        3
    } else {
        4
    }
}

} // verus!

//! Character classes and the line/trim primitives that the reflow stages are built on.
//!
//! Text is modelled as `Seq<char>`: a `&str` or `String` is viewed as its code points.
use vstd::prelude::*;
use vstd::std_specs::iter::IteratorSpec;

verus! {

/// Unicode `White_Space`: the characters that `char::is_whitespace` accepts.
pub open spec fn is_space(c: char) -> bool {
    let n = c as u32;
    (0x09 <= n && n <= 0x0D) || n == 0x20 || n == 0x85 || n == 0xA0 || n == 0x1680 || (0x2000 <= n
        && n <= 0x200A) || n == 0x2028 || n == 0x2029 || n == 0x202F || n == 0x205F || n == 0x3000
}

/// Whether `c` has the Unicode `Uppercase` property.
pub uninterp spec fn upper_prop(c: char) -> bool;

/// Whether `c` has the Unicode `Lowercase` property.
pub uninterp spec fn lower_prop(c: char) -> bool;

/// Relies on `char::is_whitespace`, which tests the Unicode `White_Space` property.
#[verifier::external_body]
pub(crate) fn is_space_char(c: char) -> (r: bool)
    ensures
        r == is_space(c),
{
    c.is_whitespace()
}

/// Relies on `char::is_uppercase`, which tests the Unicode `Uppercase` property.
#[verifier::external_body]
pub(crate) fn is_upper_char(c: char) -> (r: bool)
    ensures
        r == upper_prop(c),
{
    c.is_uppercase()
}

/// Relies on `char::is_lowercase`, which tests the Unicode `Lowercase` property.
/// The `White_Space` characters are separators and controls, none of them lowercase.
#[verifier::external_body]
pub(crate) fn is_lower_char(c: char) -> (r: bool)
    ensures
        r == lower_prop(c),
        is_space(c) ==> !r,
{
    c.is_lowercase()
}

/// Relies on `String::push`, which appends one character.
pub assume_specification[ String::push ](s: &mut String, ch: char)
    ensures
        final(s)@ == old(s)@.push(ch),
;

/// `s` with its leading whitespace removed.
pub open spec fn trim_start(s: Seq<char>) -> Seq<char>
    decreases s.len(),
{
    if s.len() > 0 && is_space(s[0]) {
        trim_start(s.drop_first())
    } else {
        s
    }
}

/// `s` with its trailing whitespace removed.
pub open spec fn trim_end(s: Seq<char>) -> Seq<char>
    decreases s.len(),
{
    if s.len() > 0 && is_space(s.last()) {
        trim_end(s.drop_last())
    } else {
        s
    }
}

/// `s` with whitespace removed at both ends.
pub open spec fn trim(s: Seq<char>) -> Seq<char> {
    trim_end(trim_start(s))
}

/// The pieces of `s` between `'\n'` characters, built left to right: the pieces
/// already closed, and the piece still open.
pub open spec fn split_state(s: Seq<char>) -> (Seq<Seq<char>>, Seq<char>)
    decreases s.len(),
{
    if s.len() == 0 {
        (Seq::empty(), Seq::empty())
    } else {
        let (done, open) = split_state(s.drop_last());
        if s.last() == '\n' {
            (done.push(open), Seq::empty())
        } else {
            (done, open.push(s.last()))
        }
    }
}

/// All pieces of `s` between `'\n'` characters; always at least one.
pub open spec fn pieces(s: Seq<char>) -> Seq<Seq<char>> {
    split_state(s).0.push(split_state(s).1)
}

/// The lines of `s`: its pieces, without the empty one after a final `'\n'`.
/// The empty text has no line. A `'\r'` that ends a line stays in it; every
/// line is trimmed before use, which removes it.
pub open spec fn lines(s: Seq<char>) -> Seq<Seq<char>> {
    let p = pieces(s);
    if p.last().len() == 0 {
        p.drop_last()
    } else {
        p
    }
}

/// The lines `ls` joined with one `'\n'` between each two.
pub open spec fn join(ls: Seq<Seq<char>>) -> Seq<char>
    decreases ls.len(),
{
    if ls.len() == 0 {
        Seq::empty()
    } else if ls.len() == 1 {
        ls[0]
    } else {
        join(ls.drop_last()).push('\n') + ls.last()
    }
}

/// The character sequences held by a list of lines.
pub open spec fn views(ls: Seq<Vec<char>>) -> Seq<Seq<char>> {
    ls.map_values(|l: Vec<char>| l@)
}

/// The characters of `s`, in order.
pub fn chars_of(s: &str) -> (v: Vec<char>)
    ensures
        v@ == s@,
{
    let mut v: Vec<char> = Vec::new();
    proof {
        broadcast use vstd::string::axiom_spec_iter;
    }
    for c in it: s.chars()
        invariant
            it.seq() == s@,
            v@ == s@.take(it.index() as int),
    {
        v.push(c);
        assert(v@ =~= s@.take(it.index() as int + 1));
    }
    assert(v@ =~= s@);
    v
}

/// The string made of the characters of `v`.
pub fn string_of(v: &Vec<char>) -> (s: String)
    ensures
        s@ == v@,
{
    let mut s = String::new();
    let mut i: usize = 0;
    while i < v.len()
        invariant
            i <= v.len(),
            s@ == v@.take(i as int),
        decreases v.len() - i,
    {
        s.push(v[i]);
        i += 1;
        assert(s@ =~= v@.take(i as int));
    }
    assert(s@ =~= v@);
    s
}

/// `s` with whitespace removed at both ends.
pub fn trim_chars(s: &Vec<char>) -> (r: Vec<char>)
    ensures
        r@ == trim(s@),
{
    let mut i: usize = 0;
    assert(s@.skip(0) =~= s@);
    while i < s.len() && is_space_char(s[i])
        invariant
            i <= s.len(),
            trim_start(s@.skip(i as int)) == trim_start(s@),
        decreases s.len() - i,
    {
        assert(s@.skip(i as int).drop_first() =~= s@.skip(i as int + 1));
        i += 1;
    }
    let mut j: usize = s.len();
    while j > i && is_space_char(s[j - 1])
        invariant
            i <= j <= s.len(),
            trim_end(s@.subrange(i as int, j as int)) == trim_end(s@.skip(i as int)),
        decreases j,
    {
        assert(s@.subrange(i as int, j as int).drop_last() =~= s@.subrange(i as int, j - 1));
        j -= 1;
    }
    assert(s@.subrange(i as int, s.len() as int) =~= s@.skip(i as int));
    let mut r: Vec<char> = Vec::new();
    let mut k: usize = i;
    while k < j
        invariant
            i <= k <= j <= s.len(),
            r@ == s@.subrange(i as int, k as int),
        decreases j - k,
    {
        r.push(s[k as usize]);
        k += 1;
        assert(r@ =~= s@.subrange(i as int, k as int));
    }
    r
}

/// The lines of `s`, as `lines` describes them.
pub fn split_lines(s: &Vec<char>) -> (r: Vec<Vec<char>>)
    ensures
        views(r@) == lines(s@),
{
    let mut done: Vec<Vec<char>> = Vec::new();
    let mut open: Vec<char> = Vec::new();
    let mut i: usize = 0;
    while i < s.len()
        invariant
            i <= s.len(),
            (views(done@), open@) == split_state(s@.take(i as int)),
        decreases s.len() - i,
    {
        assert(s@.take(i as int + 1).drop_last() =~= s@.take(i as int));
        if s[i] == '\n' {
            let ghost d0 = views(done@);
            let ghost o = open@;
            done.push(open);
            open = Vec::new();
            assert(views(done@) =~= d0.push(o));
            assert(open@ =~= Seq::<char>::empty());
        } else {
            open.push(s[i]);
        }
        i += 1;
    }
    assert(s@.take(i as int) =~= s@);
    if open.len() > 0 {
        let ghost d0 = views(done@);
        let ghost o = open@;
        done.push(open);
        assert(views(done@) =~= d0.push(o));
    } else {
        assert(views(done@) =~= pieces(s@).drop_last());
    }
    done
}

/// The lines `ls` joined with one `'\n'` between each two.
pub fn join_lines(ls: &Vec<Vec<char>>) -> (r: Vec<char>)
    ensures
        r@ == join(views(ls@)),
{
    let mut r: Vec<char> = Vec::new();
    let mut i: usize = 0;
    while i < ls.len()
        invariant
            i <= ls.len(),
            r@ == join(views(ls@).take(i as int)),
        decreases ls.len() - i,
    {
        let ghost prev = r@;
        if i > 0 {
            r.push('\n');
        }
        let mut k: usize = 0;
        let ghost mid = r@;
        while k < ls[i].len()
            invariant
                0 <= i < ls.len(),
                k <= ls[i as int].len(),
                r@ == mid + ls[i as int]@.take(k as int),
            decreases ls[i as int].len() - k,
        {
            r.push(ls[i][k]);
            k += 1;
            assert(r@ =~= mid + ls[i as int]@.take(k as int));
        }
        assert(views(ls@).take(i as int + 1).drop_last() =~= views(ls@).take(i as int));
        assert(ls[i as int]@.take(k as int) =~= ls[i as int]@);
        assert(r@ =~= join(views(ls@).take(i as int + 1)));
        i += 1;
    }
    assert(views(ls@).take(i as int) =~= views(ls@));
    r
}

} // verus!

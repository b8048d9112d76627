//! The reflow engine: glyph stripping, border trimming, block segmentation,
//! and whitespace and blank-line tidying, run in that order by `clean`.
use vstd::prelude::*;
use crate::text::{
    chars_of, is_space, is_space_char, join, join_lines, lines, lower_prop, split_lines, string_of,
    trim, trim_chars, trim_start, upper_prop, views, is_lower_char, is_upper_char,
};

verus! {

// ---------------------------------------------------------------------------
// Glyph stripping
/// The decorative panel-border glyphs that are deleted outright.
pub open spec fn is_glyph(c: char) -> bool {
    c == '\u{2502}' || c == '\u{2503}' || c == '\u{254F}' || c == '\u{254E}' || c == '\u{258C}'
}

/// `s` without its decorative glyphs, everything else in order.
pub open spec fn strip_glyphs(s: Seq<char>) -> Seq<char>
    decreases s.len(),
{
    if s.len() == 0 {
        s
    } else if is_glyph(s.last()) {
        strip_glyphs(s.drop_last())
    } else {
        strip_glyphs(s.drop_last()).push(s.last())
    }
}

fn is_glyph_char(c: char) -> (r: bool)
    ensures
        r == is_glyph(c),
{
    c == '\u{2502}' || c == '\u{2503}' || c == '\u{254F}' || c == '\u{254E}' || c == '\u{258C}'
}

fn strip_glyph_chars(s: &Vec<char>) -> (r: Vec<char>)
    ensures
        r@ == strip_glyphs(s@),
{
    let mut r: Vec<char> = Vec::new();
    let mut i: usize = 0;
    while i < s.len()
        invariant
            i <= s.len(),
            r@ == strip_glyphs(s@.take(i as int)),
        decreases s.len() - i,
    {
        assert(s@.take(i as int + 1).drop_last() =~= s@.take(i as int));
        if !is_glyph_char(s[i]) {
            r.push(s[i]);
        }
        i += 1;
    }
    assert(s@.take(i as int) =~= s@);
    r
}

// ---------------------------------------------------------------------------
// Border trimming
/// `s` without its first character, where that is `c`.
pub open spec fn drop_first_if(s: Seq<char>, c: char) -> Seq<char> {
    if s.len() > 0 && s[0] == c {
        s.drop_first()
    } else {
        s
    }
}

/// `s` without its last character, where that is `c`.
pub open spec fn drop_last_if(s: Seq<char>, c: char) -> Seq<char> {
    if s.len() > 0 && s.last() == c {
        s.drop_last()
    } else {
        s
    }
}

/// One line with its frame taken off: trimmed, one leading and one trailing
/// `'|'` dropped, trimmed, one leading `'>'` dropped, trimmed.
pub open spec fn trim_border(l: Seq<char>) -> Seq<char> {
    let t = drop_last_if(drop_first_if(trim(l), '|'), '|');
    trim(drop_first_if(trim(t), '>'))
}

/// Every line of `s` with its frame taken off, joined with `'\n'`.
pub open spec fn strip_borders(s: Seq<char>) -> Seq<char> {
    join(lines(s).map_values(|l: Seq<char>| trim_border(l)))
}

fn drop_first_char_if(s: Vec<char>, c: char) -> (r: Vec<char>)
    ensures
        r@ == drop_first_if(s@, c),
{
    if s.len() > 0 && s[0] == c {
        let mut r: Vec<char> = Vec::new();
        let mut i: usize = 1;
        while i < s.len()
            invariant
                1 <= i <= s.len(),
                r@ == s@.subrange(1, i as int),
            decreases s.len() - i,
        {
            r.push(s[i]);
            i += 1;
            assert(r@ =~= s@.subrange(1, i as int));
        }
        assert(r@ =~= s@.drop_first());
        r
    } else {
        s
    }
}

fn drop_last_char_if(s: Vec<char>, c: char) -> (r: Vec<char>)
    ensures
        r@ == drop_last_if(s@, c),
{
    let mut s = s;
    let ghost s0 = s@;
    if s.len() > 0 && s[s.len() - 1] == c {
        s.pop();
        assert(s@ =~= s0.drop_last());
    }
    s
}

fn trim_border_chars(l: &Vec<char>) -> (r: Vec<char>)
    ensures
        r@ == trim_border(l@),
{
    let t = trim_chars(l);
    let t = drop_first_char_if(t, '|');
    let t = drop_last_char_if(t, '|');
    let t = trim_chars(&t);
    let t = drop_first_char_if(t, '>');
    trim_chars(&t)
}

fn strip_border_chars(s: &Vec<char>) -> (r: Vec<char>)
    ensures
        r@ == strip_borders(s@),
{
    let ls = split_lines(s);
    let mut out: Vec<Vec<char>> = Vec::new();
    let mut i: usize = 0;
    while i < ls.len()
        invariant
            i <= ls.len(),
            views(ls@) == lines(s@),
            views(out@) == lines(s@).take(i as int).map_values(|l: Seq<char>| trim_border(l)),
        decreases ls.len() - i,
    {
        let ghost o0 = views(out@);
        let t = trim_border_chars(&ls[i]);
        assert(ls[i as int]@ == lines(s@)[i as int]) by {
            assert(views(ls@)[i as int] == ls[i as int]@);
        }
        let ghost tv = t@;
        out.push(t);
        assert(views(out@) =~= o0.push(tv));
        i += 1;
        assert(views(out@) =~= lines(s@).take(i as int).map_values(|l: Seq<char>| trim_border(l)));
    }
    assert(lines(s@).take(i as int) =~= lines(s@));
    join_lines(&out)
}

/// Every line of `text` with its frame taken off: trimmed, then one leading
/// `'|'`, one trailing `'|'` and one leading `'>'` dropped, trimming after each.
/// The lines are joined again with `'\n'`.
pub fn remove_border_pipes(text: &str) -> (r: String)
    ensures
        r@ == strip_borders(text@),
{
    let s = chars_of(text);
    let r = strip_border_chars(&s);
    string_of(&r)
}


// ---------------------------------------------------------------------------
// Break classification
/// The list bullets that open a new block.
pub open spec fn is_bullet(c: char) -> bool {
    c == '-' || c == '*' || c == '\u{2022}' || c == '\u{25CF}' || c == '\u{23FA}' || c == '\u{25B6}'
        || c == '\u{25AA}' || c == '\u{25E6}'
}

/// The marker emoji that open a new block.
pub open spec fn is_marker(c: char) -> bool {
    c == '\u{1F4CC}' || c == '\u{1F3AF}' || c == '\u{1F4CB}' || c == '\u{1F4D6}' || c == '\u{2728}'
        || c == '\u{2705}' || c == '\u{274C}' || c == '\u{2B50}' || c == '\u{1F525}' || c
        == '\u{1F449}' || c == '\u{27A1}'
}

/// An ASCII decimal digit.
pub open spec fn is_digit(c: char) -> bool {
    '0' <= c && c <= '9'
}

/// The number of ASCII digits that `t` starts with.
pub open spec fn lead_digits(t: Seq<char>) -> nat
    decreases t.len(),
{
    if t.len() > 0 && is_digit(t[0]) {
        1 + lead_digits(t.drop_first())
    } else {
        0
    }
}

/// `t` starts with a numeral directly followed by `'.'`, as in `12.`.
pub open spec fn numbered(t: Seq<char>) -> bool {
    let k = lead_digits(t);
    0 < k < t.len() && t[k as int] == '.'
}

/// `t` starts with a numeral, then perhaps whitespace, then `'+'` or `'-'`.
pub open spec fn diff_marked(t: Seq<char>) -> bool {
    let k = lead_digits(t);
    let rest = trim_start(t.skip(k as int));
    k > 0 && rest.len() > 0 && (rest[0] == '+' || rest[0] == '-')
}

/// `t` starts with an uppercase character followed by a lowercase one (which
/// is never whitespace).
pub open spec fn capitalized(t: Seq<char>) -> bool {
    t.len() >= 2 && upper_prop(t[0]) && !is_space(t[1]) && lower_prop(t[1])
}

/// Whether a line, once its leading whitespace is gone, opens a new block:
/// it starts with a bullet, a numeral and `'.'`, a numeral and a diff sign,
/// a capital and a lowercase letter, or a marker emoji.
pub open spec fn breaks_before(line: Seq<char>) -> bool {
    let t = trim_start(line);
    ||| (t.len() > 0 && is_bullet(t[0]))
    ||| numbered(t)
    ||| diff_marked(t)
    ||| capitalized(t)
    ||| (t.len() > 0 && is_marker(t[0]))
}

fn is_bullet_char(c: char) -> (r: bool)
    ensures
        r == is_bullet(c),
{
    c == '-' || c == '*' || c == '\u{2022}' || c == '\u{25CF}' || c == '\u{23FA}' || c == '\u{25B6}'
        || c == '\u{25AA}' || c == '\u{25E6}'
}

fn is_marker_char(c: char) -> (r: bool)
    ensures
        r == is_marker(c),
{
    c == '\u{1F4CC}' || c == '\u{1F3AF}' || c == '\u{1F4CB}' || c == '\u{1F4D6}' || c == '\u{2728}'
        || c == '\u{2705}' || c == '\u{274C}' || c == '\u{2B50}' || c == '\u{1F525}' || c
        == '\u{1F449}' || c == '\u{27A1}'
}

/// The index of the first character of `s` at or after `from` that is not whitespace
/// (or `s.len()`), which is where `trim_start(s.skip(from))` begins.
fn skip_spaces(s: &Vec<char>, from: usize) -> (i: usize)
    requires
        from <= s.len(),
    ensures
        from <= i <= s.len(),
        trim_start(s@.skip(from as int)) == s@.skip(i as int),
        forall|j: int| from <= j < i ==> is_space(s@[j]),
{
    let mut i: usize = from;
    while i < s.len() && is_space_char(s[i])
        invariant
            from <= i <= s.len(),
            trim_start(s@.skip(i as int)) == trim_start(s@.skip(from as int)),
            forall|j: int| from <= j < i ==> is_space(s@[j]),
        decreases s.len() - i,
    {
        assert(s@.skip(i as int).drop_first() =~= s@.skip(i as int + 1));
        i += 1;
    }
    i
}

/// The number of ASCII digits that `t` has from `from` on.
fn count_digits(t: &Vec<char>, from: usize) -> (k: usize)
    requires
        from <= t.len(),
    ensures
        k == lead_digits(t@.skip(from as int)),
        from + k <= t.len(),
{
    let mut i: usize = from;
    while i < t.len() && '0' <= t[i] && t[i] <= '9'
        invariant
            from <= i <= t.len(),
            lead_digits(t@.skip(from as int)) == (i - from) + lead_digits(t@.skip(i as int)),
        decreases t.len() - i,
    {
        assert(t@.skip(i as int).drop_first() =~= t@.skip(i as int + 1));
        i += 1;
    }
    i - from
}

fn breaks_before_chars(line: &Vec<char>) -> (r: bool)
    ensures
        r == breaks_before(line@),
{
    assert(line@.skip(0) =~= line@);
    let s = skip_spaces(line, 0);
    let ghost t = line@.skip(s as int);
    let n = line.len();
    // bullets
    if s < n && is_bullet_char(line[s]) {
        return true;
    }
    // numbered items: digits, then '.'
    let k = count_digits(line, s);
    assert(t.skip(k as int) =~= line@.skip(s + k));
    if k > 0 && s + k < n && line[s + k] == '.' {
        return true;
    }
    // diff line numbers: digits, whitespace, then a sign
    if k > 0 {
        let m = skip_spaces(line, s + k);
        if m < n && (line[m] == '+' || line[m] == '-') {
            return true;
        }
        assert(!diff_marked(t));
    }
    // a capital followed by a lowercase letter
    if n - s >= 2 && is_upper_char(line[s]) && is_lower_char(line[s + 1]) {
        return true;
    }
    // marker emoji
    if s < n && is_marker_char(line[s]) {
        return true;
    }
    false
}

/// Whether `line` opens a new block rather than continuing the one before:
/// after leading whitespace it starts with a bullet, a numeral and `'.'`, a
/// numeral and a diff sign (`42 + added`), a capital and a lowercase letter,
/// or a marker emoji.
pub fn should_break_before(line: &str) -> (r: bool)
    ensures
        r == breaks_before(line@),
{
    let v = chars_of(line);
    breaks_before_chars(&v)
}

// ---------------------------------------------------------------------------
// Whitespace normalisation
/// `s` with each run of whitespace replaced by one `' '`, built left to right.
pub open spec fn collapse(s: Seq<char>) -> Seq<char>
    decreases s.len(),
{
    if s.len() == 0 {
        s
    } else {
        let prev = collapse(s.drop_last());
        if !is_space(s.last()) {
            prev.push(s.last())
        } else if s.len() >= 2 && is_space(s[s.len() - 2]) {
            prev
        } else {
            prev.push(' ')
        }
    }
}

/// `s` with each run of whitespace replaced by one `' '`, and trimmed.
pub open spec fn normalize(s: Seq<char>) -> Seq<char> {
    trim(collapse(s))
}

fn normalize_chars(s: &Vec<char>) -> (r: Vec<char>)
    ensures
        r@ == normalize(s@),
{
    let mut c: Vec<char> = Vec::new();
    let mut prev_space = false;
    let mut i: usize = 0;
    while i < s.len()
        invariant
            i <= s.len(),
            c@ == collapse(s@.take(i as int)),
            prev_space == (i > 0 && is_space(s@[i - 1])),
        decreases s.len() - i,
    {
        assert(s@.take(i as int + 1).drop_last() =~= s@.take(i as int));
        if is_space_char(s[i]) {
            if !prev_space {
                c.push(' ');
                prev_space = true;
            }
        } else {
            c.push(s[i]);
            prev_space = false;
        }
        i += 1;
    }
    assert(s@.take(i as int) =~= s@);
    trim_chars(&c)
}

/// `s` with each run of whitespace replaced by one `' '`, and trimmed.
pub fn normalize_spaces(s: &str) -> (r: String)
    ensures
        r@ == normalize(s@),
{
    let v = chars_of(s);
    let r = normalize_chars(&v);
    string_of(&r)
}


// ---------------------------------------------------------------------------
// Block segmentation
/// The blocks `out` with the open block `cur` closed, where it holds anything.
pub open spec fn flush(out: Seq<Seq<char>>, cur: Seq<char>) -> Seq<Seq<char>> {
    if cur.len() > 0 {
        out.push(cur)
    } else {
        out
    }
}

/// One line's effect on the closed blocks and the open block: a blank line
/// closes the open block and adds an empty entry; a line that breaks opens a
/// block of its own; any other line opens a block or extends the open one
/// after a single `' '`.
pub open spec fn seg_step(st: (Seq<Seq<char>>, Seq<char>), line: Seq<char>) -> (
    Seq<Seq<char>>,
    Seq<char>,
) {
    let t = trim(line);
    if t.len() == 0 {
        (flush(st.0, st.1).push(Seq::empty()), Seq::empty())
    } else if breaks_before(t) {
        (flush(st.0, st.1), t)
    } else if st.1.len() == 0 {
        (st.0, t)
    } else {
        (st.0, st.1.push(' ') + t)
    }
}

/// The closed blocks and the open block after the lines `ls`.
pub open spec fn seg_state(ls: Seq<Seq<char>>) -> (Seq<Seq<char>>, Seq<char>)
    decreases ls.len(),
{
    if ls.len() == 0 {
        (Seq::empty(), Seq::empty())
    } else {
        seg_step(seg_state(ls.drop_last()), ls.last())
    }
}

/// The blocks and empty entries that the lines `ls` make.
pub open spec fn blocks(ls: Seq<Seq<char>>) -> Seq<Seq<char>> {
    flush(seg_state(ls).0, seg_state(ls).1)
}

fn segment(ls: &Vec<Vec<char>>) -> (r: Vec<Vec<char>>)
    ensures
        views(r@) == blocks(views(ls@)),
{
    let mut out: Vec<Vec<char>> = Vec::new();
    let mut cur: Vec<char> = Vec::new();
    let mut i: usize = 0;
    while i < ls.len()
        invariant
            i <= ls.len(),
            (views(out@), cur@) == seg_state(views(ls@).take(i as int)),
        decreases ls.len() - i,
    {
        assert(views(ls@).take(i as int + 1).drop_last() =~= views(ls@).take(i as int));
        assert(views(ls@).take(i as int + 1).last() == ls[i as int]@);
        let ghost o0 = views(out@);
        let ghost c0 = cur@;
        let t = trim_chars(&ls[i]);
        if t.len() == 0 {
            if cur.len() > 0 {
                out.push(cur);
                assert(views(out@) =~= o0.push(c0));
            }
            let ghost o1 = views(out@);
            out.push(Vec::new());
            assert(views(out@) =~= o1.push(Seq::empty()));
            cur = Vec::new();
            assert(cur@ =~= Seq::<char>::empty());
        } else if breaks_before_chars(&t) {
            if cur.len() > 0 {
                out.push(cur);
                assert(views(out@) =~= o0.push(c0));
            }
            cur = t;
        } else if cur.len() == 0 {
            cur = t;
        } else {
            let mut t = t;
            cur.push(' ');
            cur.append(&mut t);
        }
        i += 1;
    }
    assert(views(ls@).take(i as int) =~= views(ls@));
    if cur.len() > 0 {
        let ghost o0 = views(out@);
        let ghost c0 = cur@;
        out.push(cur);
        assert(views(out@) =~= o0.push(c0));
    }
    out
}

// ---------------------------------------------------------------------------
// Blank-line collapsing
/// The output entries after the blocks `bs`, and whether the last entry taken
/// was blank: a block is taken normalised; an empty entry only where the
/// output holds something and the last entry taken was not blank.
pub open spec fn tidy_state(bs: Seq<Seq<char>>) -> (Seq<Seq<char>>, bool)
    decreases bs.len(),
{
    if bs.len() == 0 {
        (Seq::empty(), false)
    } else {
        let (out, prev_blank) = tidy_state(bs.drop_last());
        let b = bs.last();
        if b.len() > 0 {
            (out.push(normalize(b)), false)
        } else if !prev_blank && out.len() > 0 {
            (out.push(Seq::empty()), true)
        } else {
            (out, prev_blank)
        }
    }
}

/// `o` without the empty entries at its end.
pub open spec fn drop_trailing_blanks(o: Seq<Seq<char>>) -> Seq<Seq<char>>
    decreases o.len(),
{
    if o.len() > 0 && o.last().len() == 0 {
        drop_trailing_blanks(o.drop_last())
    } else {
        o
    }
}

/// The final lines made of the blocks `bs`.
pub open spec fn tidy(bs: Seq<Seq<char>>) -> Seq<Seq<char>> {
    drop_trailing_blanks(tidy_state(bs).0)
}

fn tidy_blocks(bs: &Vec<Vec<char>>) -> (r: Vec<Vec<char>>)
    ensures
        views(r@) == tidy(views(bs@)),
{
    let mut out: Vec<Vec<char>> = Vec::new();
    let mut prev_blank = false;
    let mut i: usize = 0;
    while i < bs.len()
        invariant
            i <= bs.len(),
            (views(out@), prev_blank) == tidy_state(views(bs@).take(i as int)),
        decreases bs.len() - i,
    {
        assert(views(bs@).take(i as int + 1).drop_last() =~= views(bs@).take(i as int));
        assert(views(bs@).take(i as int + 1).last() == bs[i as int]@);
        let ghost o0 = views(out@);
        if bs[i].len() == 0 {
            if !prev_blank && out.len() > 0 {
                out.push(Vec::new());
                assert(views(out@) =~= o0.push(Seq::empty()));
                prev_blank = true;
            }
        } else {
            let n = normalize_chars(&bs[i]);
            let ghost nv = n@;
            out.push(n);
            assert(views(out@) =~= o0.push(nv));
            prev_blank = false;
        }
        i += 1;
    }
    assert(views(bs@).take(i as int) =~= views(bs@));
    while out.len() > 0 && out[out.len() - 1].len() == 0
        invariant
            drop_trailing_blanks(views(out@)) == tidy(views(bs@)),
        decreases out.len(),
    {
        let ghost o0 = views(out@);
        out.pop();
        assert(views(out@) =~= o0.drop_last());
    }
    out
}

// ---------------------------------------------------------------------------
// The whole pipeline
/// What `clean` makes of `s`: nothing where `s` is blank; else its glyphs
/// stripped, its borders trimmed, its lines segmented into blocks, and the
/// blocks tidied and joined with `'\n'`.
pub open spec fn cleaned(s: Seq<char>) -> Seq<char> {
    if trim(s).len() == 0 {
        Seq::empty()
    } else {
        join(tidy(blocks(lines(strip_borders(strip_glyphs(s))))))
    }
}

/// Reflows `input` into clean paragraphs: decorative glyphs and line frames
/// removed, wrapped lines rejoined, list items and headings kept apart,
/// whitespace collapsed, and at most one blank line between blocks.
pub fn clean(input: &str) -> (r: String)
    ensures
        r@ == cleaned(input@),
{
    let s = chars_of(input);
    let t = trim_chars(&s);
    if t.len() == 0 {
        return String::new();
    }
    let s = strip_glyph_chars(&s);
    let s = strip_border_chars(&s);
    let ls = split_lines(&s);
    let bs = segment(&ls);
    let out = tidy_blocks(&bs);
    let joined = join_lines(&out);
    string_of(&joined)
}

} // verus!

//! Properties of `clean`'s output, proved over the model in `reflow` and `text`.
use vstd::prelude::*;
use crate::text::{is_space, join, lines, pieces, split_state, trim, trim_end, trim_start};
use crate::reflow::{
    blocks, breaks_before, capitalized, cleaned, collapse, drop_trailing_blanks, is_bullet,
    is_digit, is_marker, lead_digits, normalize, numbered, seg_state, tidy, tidy_state, flush,
    is_glyph, strip_glyphs, strip_borders, trim_border, drop_first_if, drop_last_if,
};

verus! {

/// Every whitespace character of `l` is a `' '` standing between two
/// characters that are not whitespace.
pub open spec fn single_spaced(l: Seq<char>) -> bool {
    forall|i: int|
        0 <= i < l.len() && is_space(#[trigger] l[i]) ==> l[i] == ' ' && 0 < i < l.len() - 1
            && !is_space(l[i + 1]) && !is_space(l[i - 1])
}

/// Every whitespace character of `l` is a `' '` that no other whitespace follows.
pub open spec fn runs_collapsed(l: Seq<char>) -> bool {
    forall|i: int|
        0 <= i < l.len() && is_space(#[trigger] l[i]) ==> l[i] == ' ' && (i + 1 < l.len()
            ==> !is_space(l[i + 1]))
}

/// The entries `o` neither start nor end with a blank entry, hold no two
/// blank entries in a row, and each non-blank entry is single spaced.
pub open spec fn well_shaped(o: Seq<Seq<char>>) -> bool {
    &&& o.len() > 0 ==> o[0].len() > 0 && o.last().len() > 0
    &&& forall|i: int| 0 < i < o.len() && (#[trigger] o[i]).len() == 0 ==> o[i - 1].len() > 0
    &&& forall|i: int| 0 <= i < o.len() ==> single_spaced(#[trigger] o[i])
}

proof fn lemma_trim_start(s: Seq<char>)
    ensures
        trim_start(s).len() <= s.len(),
        trim_start(s) == s.skip(s.len() - trim_start(s).len()),
        trim_start(s).len() > 0 ==> !is_space(trim_start(s)[0]),
        forall|j: int| 0 <= j < s.len() - trim_start(s).len() ==> is_space(#[trigger] s[j]),
    decreases s.len(),
{
    if s.len() > 0 && is_space(s[0]) {
        lemma_trim_start(s.drop_first());
        assert(s.drop_first().skip(s.drop_first().len() - trim_start(s).len()) =~= s.skip(
            s.len() - trim_start(s).len(),
        ));
        assert forall|j: int| 0 <= j < s.len() - trim_start(s).len() implies is_space(
            #[trigger] s[j],
        ) by {
            if j > 0 {
                assert(s[j] == s.drop_first()[j - 1]);
            }
        }
    } else {
        assert(s.skip(0) =~= s);
    }
}

proof fn lemma_trim_end(s: Seq<char>)
    ensures
        trim_end(s).len() <= s.len(),
        trim_end(s) == s.take(trim_end(s).len() as int),
        trim_end(s).len() > 0 ==> !is_space(trim_end(s).last()),
        forall|j: int| trim_end(s).len() <= j < s.len() ==> is_space(#[trigger] s[j]),
    decreases s.len(),
{
    if s.len() > 0 && is_space(s.last()) {
        lemma_trim_end(s.drop_last());
        assert(s.drop_last().take(trim_end(s).len() as int) =~= s.take(trim_end(s).len() as int));
        assert forall|j: int| trim_end(s).len() <= j < s.len() implies is_space(#[trigger] s[j]) by {
            if j < s.len() - 1 {
                assert(s[j] == s.drop_last()[j]);
            }
        }
    } else {
        assert(s.take(s.len() as int) =~= s);
    }
}

/// `trim(s)` is a piece of `s` that neither starts nor ends with whitespace.
proof fn lemma_trim(s: Seq<char>)
    ensures
        exists|a: int|
            0 <= a && a + trim(s).len() <= s.len() && trim(s) == #[trigger] s.subrange(
                a,
                a + trim(s).len(),
            ),
        trim(s).len() > 0 ==> !is_space(trim(s)[0]) && !is_space(trim(s).last()),
{
    let t = trim_start(s);
    lemma_trim_start(s);
    lemma_trim_end(t);
    let a = s.len() - t.len();
    assert(trim(s) =~= s.subrange(a, a + trim(s).len()));
    if trim(s).len() > 0 {
        assert(trim(s)[0] == t[0]);
    }
}

/// A piece of a sequence whose whitespace runs are collapsed has them collapsed too.
proof fn lemma_runs_collapsed_sub(s: Seq<char>, a: int, b: int)
    requires
        runs_collapsed(s),
        0 <= a <= b <= s.len(),
    ensures
        runs_collapsed(s.subrange(a, b)),
{
    let t = s.subrange(a, b);
    assert forall|i: int| 0 <= i < t.len() && is_space(#[trigger] t[i]) implies t[i] == ' ' && (i
        + 1 < t.len() ==> !is_space(t[i + 1])) by {
        assert(t[i] == s[a + i]);
    }
}

/// Trimming a collapsed sequence leaves it single spaced.
proof fn lemma_trim_collapsed(s: Seq<char>)
    requires
        runs_collapsed(s),
    ensures
        single_spaced(trim(s)),
{
    lemma_trim(s);
    let t = trim(s);
    let a = choose|a: int|
        0 <= a && a + t.len() <= s.len() && t == #[trigger] s.subrange(a, a + t.len());
    lemma_runs_collapsed_sub(s, a, a + t.len());
    assert forall|i: int| 0 <= i < t.len() && is_space(#[trigger] t[i]) implies t[i] == ' ' && 0
        < i < t.len() - 1 && !is_space(t[i + 1]) && !is_space(t[i - 1]) by {
        if i > 0 {
            if is_space(t[i - 1]) {
                assert(!is_space(t[i - 1 + 1]));
            }
        }
    }
}

/// `collapse` leaves each whitespace run as a single `' '`, and ends in
/// whitespace exactly where its argument does.
proof fn lemma_collapse(s: Seq<char>)
    ensures
        runs_collapsed(collapse(s)),
        s.len() > 0 ==> collapse(s).len() > 0 && (is_space(collapse(s).last()) <==> is_space(
            s.last(),
        )),
        s.len() > 0 && !is_space(s[0]) ==> collapse(s)[0] == s[0],
    decreases s.len(),
{
    if s.len() > 0 {
        let p = s.drop_last();
        lemma_collapse(p);
        let c = collapse(s);
        let cp = collapse(p);
        if s.len() >= 2 {
            assert(p.last() == s[s.len() - 2]);
            assert(p[0] == s[0]);
        }
        assert forall|i: int| 0 <= i < c.len() && is_space(#[trigger] c[i]) implies c[i] == ' '
            && (i + 1 < c.len() ==> !is_space(c[i + 1])) by {
            if i < cp.len() {
                assert(c[i] == cp[i]);
                if i + 1 < cp.len() {
                    assert(c[i + 1] == cp[i + 1]);
                }
            }
        }
    }
}

/// `normalize` leaves every line single spaced, and keeps a leading
/// character that is not whitespace.
proof fn lemma_normalize(s: Seq<char>)
    ensures
        single_spaced(normalize(s)),
        s.len() > 0 && !is_space(s[0]) ==> normalize(s).len() > 0,
{
    lemma_collapse(s);
    lemma_trim_collapsed(collapse(s));
    if s.len() > 0 && !is_space(s[0]) {
        let c = collapse(s);
        assert(trim_start(c) == c);
        lemma_trim_end(c);
        if trim_end(c).len() == 0 {
            lemma_trim_end_keeps_first(c);
        }
    }
}

proof fn lemma_trim_end_keeps_first(s: Seq<char>)
    requires
        s.len() > 0,
        !is_space(s[0]),
    ensures
        trim_end(s).len() > 0,
    decreases s.len(),
{
    if is_space(s.last()) {
        assert(s.len() > 1);
        assert(s.drop_last()[0] == s[0]);
        lemma_trim_end_keeps_first(s.drop_last());
    }
}


/// Each entry of `bs` is empty or starts with a character that is not whitespace.
pub open spec fn entries_start_solid(bs: Seq<Seq<char>>) -> bool {
    forall|i: int| 0 <= i < bs.len() ==> (#[trigger] bs[i]).len() == 0 || !is_space(bs[i][0])
}

proof fn lemma_seg_state_solid(ls: Seq<Seq<char>>)
    ensures
        entries_start_solid(seg_state(ls).0),
        seg_state(ls).1.len() == 0 || !is_space(seg_state(ls).1[0]),
    decreases ls.len(),
{
    if ls.len() > 0 {
        lemma_seg_state_solid(ls.drop_last());
        lemma_trim(ls.last());
        let st = seg_state(ls.drop_last());
        let t = trim(ls.last());
        if st.1.len() > 0 {
            assert((st.1.push(' ') + t)[0] == st.1[0]);
        }
        assert(entries_start_solid(st.0.push(st.1)));
        assert(entries_start_solid(crate::reflow::flush(st.0, st.1).push(Seq::empty())));
    }
}

proof fn lemma_blocks_solid(ls: Seq<Seq<char>>)
    ensures
        entries_start_solid(blocks(ls)),
{
    lemma_seg_state_solid(ls);
    assert(entries_start_solid(seg_state(ls).0.push(seg_state(ls).1)));
}

/// The shape that `tidy_state` keeps while it walks entries that start solid.
pub open spec fn tidy_shape(o: Seq<Seq<char>>, prev_blank: bool) -> bool {
    &&& o.len() > 0 ==> o[0].len() > 0
    &&& forall|i: int| 0 < i < o.len() && (#[trigger] o[i]).len() == 0 ==> o[i - 1].len() > 0
    &&& forall|i: int| 0 <= i < o.len() ==> single_spaced(#[trigger] o[i])
    &&& prev_blank == (o.len() > 0 && o.last().len() == 0)
}

proof fn lemma_tidy_state(bs: Seq<Seq<char>>)
    requires
        entries_start_solid(bs),
    ensures
        tidy_shape(tidy_state(bs).0, tidy_state(bs).1),
    decreases bs.len(),
{
    if bs.len() > 0 {
        assert(entries_start_solid(bs.drop_last())) by {
            assert forall|i: int| 0 <= i < bs.drop_last().len() implies (
            #[trigger] bs.drop_last()[i]).len() == 0 || !is_space(bs.drop_last()[i][0]) by {
                assert(bs.drop_last()[i] == bs[i]);
            }
        }
        lemma_tidy_state(bs.drop_last());
        let b = bs.last();
        assert(b == bs[bs.len() - 1]);
        lemma_normalize(b);
        assert(single_spaced(Seq::<char>::empty()));
    }
}

proof fn lemma_drop_trailing_blanks(o: Seq<Seq<char>>, pb: bool)
    requires
        tidy_shape(o, pb),
    ensures
        well_shaped(drop_trailing_blanks(o)),
    decreases o.len(),
{
    if o.len() > 0 && o.last().len() == 0 {
        let p = o.drop_last();
        assert(tidy_shape(p, p.len() > 0 && p.last().len() == 0));
        lemma_drop_trailing_blanks(p, p.len() > 0 && p.last().len() == 0);
    }
}

/// The final entries of the reflow are well shaped.
proof fn lemma_tidy_well_shaped(ls: Seq<Seq<char>>)
    ensures
        well_shaped(tidy(blocks(ls))),
{
    lemma_blocks_solid(ls);
    lemma_tidy_state(blocks(ls));
    let st = tidy_state(blocks(ls));
    lemma_drop_trailing_blanks(st.0, st.1);
}

/// Splitting `b` onto an open piece extends that piece, where `b` holds no `'\n'`.
proof fn lemma_split_state_extend(a: Seq<char>, b: Seq<char>)
    requires
        forall|i: int| 0 <= i < b.len() ==> b[i] != '\n',
    ensures
        split_state(a + b) == (split_state(a).0, split_state(a).1 + b),
    decreases b.len(),
{
    if b.len() == 0 {
        assert(a + b =~= a);
        assert(split_state(a).1 + b =~= split_state(a).1);
    } else {
        let b0 = b.drop_last();
        lemma_split_state_extend(a, b0);
        assert((a + b).drop_last() =~= a + b0);
        assert((a + b).last() == b.last());
        assert(split_state(a).1 + b0 + seq![b.last()] =~= split_state(a).1 + b);
        assert((split_state(a).1 + b0).push(b.last()) =~= split_state(a).1 + b);
    }
}

/// Splitting joined lines gives them back, where none holds a `'\n'`.
proof fn lemma_pieces_join(o: Seq<Seq<char>>)
    requires
        o.len() > 0,
        forall|i: int, j: int| 0 <= i < o.len() && 0 <= j < o[i].len() ==> o[i][j] != '\n',
    ensures
        pieces(join(o)) == o,
    decreases o.len(),
{
    let l = o.last();
    assert(l == o[o.len() - 1]);
    if o.len() == 1 {
        lemma_split_state_extend(Seq::empty(), l);
        assert(Seq::<char>::empty() + l =~= l);
        assert(Seq::<char>::empty() + l =~= l);
        assert(pieces(join(o)) =~= o);
    } else {
        let p = o.drop_last();
        assert forall|i: int, j: int| 0 <= i < p.len() && 0 <= j < p[i].len() implies p[i][j]
            != '\n' by {
            assert(p[i] == o[i]);
        }
        lemma_pieces_join(p);
        let a = join(p).push('\n');
        lemma_split_state_extend(a, l);
        assert(a.drop_last() =~= join(p));
        assert(Seq::<char>::empty() + l =~= l);
        assert(pieces(join(o)) =~= p.push(l));
        assert(p.push(l) =~= o);
    }
}

/// Single spaced lines hold no line break.
proof fn lemma_no_newline(o: Seq<Seq<char>>)
    requires
        forall|i: int| 0 <= i < o.len() ==> single_spaced(#[trigger] o[i]),
    ensures
        forall|i: int, j: int| 0 <= i < o.len() && 0 <= j < o[i].len() ==> o[i][j] != '\n',
{
    assert forall|i: int, j: int| 0 <= i < o.len() && 0 <= j < o[i].len() implies o[i][j]
        != '\n' by {
        assert(single_spaced(o[i]));
        if o[i][j] == '\n' {
            assert(is_space(o[i][j]));
        }
    }
}

/// The lines of what `clean` returns, where it returns anything, are its
/// final entries.
proof fn lemma_cleaned_pieces(x: Seq<char>)
    ensures
        cleaned(x).len() > 0 ==> well_shaped(pieces(cleaned(x))),
        cleaned(x).len() == 0 ==> pieces(cleaned(x)) == seq![Seq::<char>::empty()],
{
    if cleaned(x).len() > 0 {
        let ls = lines(crate::reflow::strip_borders(crate::reflow::strip_glyphs(x)));
        let o = tidy(blocks(ls));
        lemma_tidy_well_shaped(ls);
        lemma_no_newline(o);
        if o.len() == 0 {
            assert(join(o) == Seq::<char>::empty());
        }
        lemma_pieces_join(o);
    } else {
        assert(pieces(cleaned(x)) =~= seq![Seq::<char>::empty()]);
    }
}

/// Split on line breaks, what `clean` returns, where it returns anything,
/// neither starts nor ends with an empty line and never holds two empty
/// lines in a row.
pub proof fn clean_has_no_stray_blank_lines(x: Seq<char>)
    ensures
        ({
            let p = pieces(cleaned(x));
            cleaned(x).len() > 0 ==> p[0].len() > 0 && p.last().len() > 0 && forall|i: int|
                0 < i < p.len() && (#[trigger] p[i]).len() == 0 ==> p[i - 1].len() > 0
        }),
{
    lemma_cleaned_pieces(x);
}

/// In each line of what `clean` returns, every run of whitespace is a
/// single `' '` between two characters that are not whitespace.
pub proof fn clean_collapses_whitespace(x: Seq<char>)
    ensures
        forall|i: int|
            0 <= i < pieces(cleaned(x)).len() ==> single_spaced(#[trigger] pieces(cleaned(x))[i]),
{
    lemma_cleaned_pieces(x);
    if cleaned(x).len() == 0 {
        assert(single_spaced(Seq::<char>::empty()));
    }
}


/// `collapse` splits at a seam that does not join two whitespace characters.
proof fn lemma_collapse_cat(a: Seq<char>, b: Seq<char>)
    requires
        a.len() == 0 || b.len() == 0 || !is_space(a.last()) || !is_space(b[0]),
    ensures
        collapse(a + b) == collapse(a) + collapse(b),
    decreases b.len(),
{
    if b.len() == 0 {
        assert(a + b =~= a);
        assert(collapse(a) + collapse(b) =~= collapse(a));
    } else {
        let b0 = b.drop_last();
        if b0.len() > 0 {
            assert(b0[0] == b[0]);
        }
        lemma_collapse_cat(a, b0);
        assert((a + b).drop_last() =~= a + b0);
        assert((a + b).last() == b.last());
        if b.len() >= 2 {
            assert((a + b)[(a + b).len() - 2] == b[b.len() - 2]);
        } else if a.len() > 0 {
            assert((a + b)[(a + b).len() - 2] == a.last());
        }
        assert(collapse(a) + collapse(b0).push(b.last()) =~= (collapse(a) + collapse(
            b0,
        )).push(b.last()));
        assert(collapse(a) + collapse(b0).push(' ') =~= (collapse(a) + collapse(b0)).push(' '));
        if b0.len() == 0 {
            assert(collapse(a) + collapse(b0) =~= collapse(a));
        }
    }
}

/// A sequence whose whitespace runs are already collapsed is left as it is.
proof fn lemma_collapse_id(s: Seq<char>)
    requires
        runs_collapsed(s),
    ensures
        collapse(s) == s,
    decreases s.len(),
{
    if s.len() > 0 {
        let p = s.drop_last();
        lemma_runs_collapsed_sub(s, 0, s.len() - 1);
        assert(s.subrange(0, s.len() - 1) =~= p);
        lemma_collapse_id(p);
        if s.len() >= 2 {
            assert(p.last() == s[s.len() - 2]);
        }
        assert(p.push(s.last()) =~= s);
    }
}

/// A non-empty run of whitespace collapses to one `' '`.
proof fn lemma_collapse_spaces(s: Seq<char>)
    requires
        s.len() > 0,
        forall|j: int| 0 <= j < s.len() ==> is_space(#[trigger] s[j]),
    ensures
        collapse(s) == seq![' '],
    decreases s.len(),
{
    if s.len() == 1 {
        assert(collapse(s.drop_last()) =~= Seq::<char>::empty());
        assert(Seq::<char>::empty().push(' ') =~= seq![' ']);
    } else {
        lemma_collapse_spaces(s.drop_last());
        assert(is_space(s[s.len() - 2]));
    }
}

/// Trimming keeps a leading piece that starts and ends with no whitespace.
proof fn lemma_trim_keeps_prefix(a: Seq<char>, b: Seq<char>)
    requires
        a.len() > 0,
        !is_space(a[0]),
        !is_space(a.last()),
    ensures
        trim(a + b).len() >= a.len(),
        trim(a + b).take(a.len() as int) == a,
{
    let s = a + b;
    assert(s[0] == a[0]);
    assert(trim_start(s) == s);
    lemma_trim_end(s);
    assert(s[a.len() - 1] == a.last());
    assert(trim(s).take(a.len() as int) =~= a);
}

proof fn lemma_lead_digits(s: Seq<char>, k: int)
    requires
        0 <= k <= s.len(),
        forall|j: int| 0 <= j < k ==> is_digit(#[trigger] s[j]),
        k == s.len() || !is_digit(s[k]),
    ensures
        lead_digits(s) == k,
    decreases k,
{
    if k > 0 {
        let p = s.drop_first();
        assert forall|j: int| 0 <= j < k - 1 implies is_digit(#[trigger] p[j]) by {
            assert(p[j] == s[j + 1]);
        }
        if k < s.len() {
            assert(p[k - 1] == s[k]);
        }
        lemma_lead_digits(p, k - 1);
    }
}

proof fn lemma_lead_digits_props(s: Seq<char>)
    ensures
        lead_digits(s) <= s.len(),
        forall|j: int| 0 <= j < lead_digits(s) ==> is_digit(#[trigger] s[j]),
        lead_digits(s) < s.len() ==> !is_digit(s[lead_digits(s) as int]),
    decreases s.len(),
{
    if s.len() > 0 && is_digit(s[0]) {
        let p = s.drop_first();
        lemma_lead_digits_props(p);
        assert forall|j: int| 0 <= j < lead_digits(s) implies is_digit(#[trigger] s[j]) by {
            if j > 0 {
                assert(s[j] == p[j - 1]);
            }
        }
        if lead_digits(s) < s.len() {
            assert(s[lead_digits(s) as int] == p[lead_digits(p) as int]);
        }
    }
}

/// A block that starts with a line that breaks still breaks once normalised.
proof fn lemma_led_normalize(t: Seq<char>, u: Seq<char>)
    requires
        t.len() > 0,
        !is_space(t[0]),
        !is_space(t.last()),
        breaks_before(t),
    ensures
        breaks_before(normalize(t + u)),
{
    assert(trim_start(t) == t);
    let s = normalize(t + u);
    lemma_lead_digits_props(t);
    let k = lead_digits(t) as int;
    if is_bullet(t[0]) || is_marker(t[0]) || capitalized(t) || numbered(t) {
        let m: int = if is_bullet(t[0]) || is_marker(t[0]) {
            1
        } else if capitalized(t) {
            2
        } else {
            k + 1
        };
        let q = t.take(m);
        let w = t.skip(m) + u;
        assert forall|j: int| 0 <= j < q.len() implies !is_space(#[trigger] q[j]) by {
            if m == k + 1 && j < k {
                assert(is_digit(t[j]));
            }
        }
        assert(runs_collapsed(q));
        lemma_collapse_id(q);
        assert(t + u =~= q + w);
        lemma_collapse_cat(q, w);
        lemma_trim_keeps_prefix(q, collapse(w));
        assert(s[0] == q[0]);
        assert(trim_start(s) == s);
        if m == 2 {
            assert(s[1] == q[1]);
        }
        if m == k + 1 && !(is_bullet(t[0]) || is_marker(t[0]) || capitalized(t)) {
            assert forall|j: int| 0 <= j < k implies is_digit(#[trigger] s[j]) by {
                assert(s[j] == q[j]);
                assert(is_digit(t[j]));
            }
            assert(s[k] == q[k]);
            lemma_lead_digits(s, k);
        }
    } else {
        // a numeral, perhaps whitespace, then a sign
        let r = t.skip(k);
        let rest = trim_start(r);
        lemma_trim_start(r);
        let a = r.len() - rest.len();
        let i = k + a;
        assert(t[i] == rest[0]);
        let d = t.take(k);
        let sp = t.subrange(k, i);
        let q = t.take(i + 1);
        let w = t.skip(i + 1) + u;
        assert(d.last() == t[k - 1]);
        assert(is_digit(t[k - 1]));
        assert forall|j: int| 0 <= j < d.len() implies !is_space(#[trigger] d[j]) by {
            assert(is_digit(t[j]));
        }
        assert(runs_collapsed(d));
        lemma_collapse_id(d);
        let sign = seq![t[i]];
        let cs: Seq<char> = if a == 0 {
            Seq::empty()
        } else {
            seq![' ']
        };
        if a > 0 {
            assert forall|j: int| 0 <= j < sp.len() implies is_space(#[trigger] sp[j]) by {
                assert(sp[j] == r[j]);
            }
            lemma_collapse_spaces(sp);
            lemma_collapse_cat(d, sp);
        } else {
            assert(d + sp =~= d);
            assert(d + cs =~= d);
        }
        assert(collapse(d + sp) == d + cs);
        assert(!is_space(t[i]));
        assert(sign.drop_last() =~= Seq::<char>::empty());
        assert(collapse(sign.drop_last()) =~= Seq::<char>::empty());
        assert(Seq::<char>::empty().push(t[i]) =~= sign);
        assert(collapse(sign) == sign);
        lemma_collapse_cat(d + sp, sign);
        assert(q =~= d + sp + sign);
        let cq = d + cs + sign;
        assert(collapse(q) == cq);
        lemma_collapse_cat(q, w);
        assert(t + u =~= q + w);
        assert(cq[0] == d[0]);
        lemma_trim_keeps_prefix(cq, collapse(w));
        assert(s[0] == cq[0]);
        assert(trim_start(s) == s);
        assert forall|j: int| 0 <= j < k implies is_digit(#[trigger] s[j]) by {
            assert(s[j] == cq[j]);
            assert(cq[j] == d[j]);
        }
        assert(s[k] == cq[k]);
        lemma_lead_digits(s, k);
        let sk = s.skip(k);
        if a == 0 {
            assert(sk[0] == t[i]);
            assert(trim_start(sk) == sk);
        } else {
            assert(sk[0] == ' ');
            assert(s[k + 1] == cq[k + 1]);
            assert(sk[1] == t[i]);
            assert(sk.drop_first()[0] == t[i]);
            assert(trim_start(sk.drop_first()) == sk.drop_first());
        }
    }
}


/// `e` starts with a trimmed line that breaks.
pub open spec fn led(e: Seq<char>) -> bool {
    exists|t: Seq<char>, u: Seq<char>|
        e == #[trigger] (t + u) && t.len() > 0 && !is_space(t[0]) && !is_space(t.last())
            && breaks_before(t)
}

/// In `o`, each non-blank entry that follows a non-blank entry breaks.
pub open spec fn adjacent_break(o: Seq<Seq<char>>) -> bool {
    forall|k: int|
        0 < k < o.len() && o[k - 1].len() > 0 && (#[trigger] o[k]).len() > 0 ==> breaks_before(o[k])
}

/// In `o`, each non-blank entry that follows a non-blank entry is led by a line that breaks.
pub open spec fn adjacent_led(o: Seq<Seq<char>>) -> bool {
    forall|k: int| 0 < k < o.len() && o[k - 1].len() > 0 && (#[trigger] o[k]).len() > 0 ==> led(o[k])
}

/// What holds of the segmenter's closed blocks `out` and open block `cur`:
/// closed blocks that follow a non-blank one are led by a line that breaks,
/// so is the open block where it would follow one, and the open block is
/// empty only at the start or after a blank entry.
pub open spec fn seg_ok(out: Seq<Seq<char>>, cur: Seq<char>) -> bool {
    &&& adjacent_led(out)
    &&& cur.len() > 0 && out.len() > 0 && out.last().len() > 0 ==> led(cur)
    &&& cur.len() == 0 ==> out.len() == 0 || out.last().len() == 0
}

proof fn lemma_adjacent_led_push(o: Seq<Seq<char>>, e: Seq<char>)
    requires
        adjacent_led(o),
        o.len() > 0 && o.last().len() > 0 && e.len() > 0 ==> led(e),
    ensures
        adjacent_led(o.push(e)),
{
    let f = o.push(e);
    assert forall|k: int| 0 < k < f.len() && f[k - 1].len() > 0 && (#[trigger] f[k]).len()
        > 0 implies led(f[k]) by {
        if k < o.len() {
            assert(f[k] == o[k] && f[k - 1] == o[k - 1]);
        } else {
            assert(f[k - 1] == o.last());
        }
    }
}

proof fn lemma_seg_step_ok(out: Seq<Seq<char>>, cur: Seq<char>, line: Seq<char>)
    requires
        seg_ok(out, cur),
    ensures
        seg_ok(crate::reflow::seg_step((out, cur), line).0, crate::reflow::seg_step((out, cur), line).1),
{
    let t = trim(line);
    lemma_trim(line);
    let f = flush(out, cur);
    if cur.len() > 0 {
        lemma_adjacent_led_push(out, cur);
    }
    assert(adjacent_led(f));
    if t.len() == 0 {
        lemma_adjacent_led_push(f, Seq::empty());
    } else if breaks_before(t) {
        assert(t == t + Seq::<char>::empty());
        assert(led(t));
    } else if cur.len() == 0 {
    } else if out.len() > 0 && out.last().len() > 0 {
        let (t0, u0) = choose|t0: Seq<char>, u0: Seq<char>|
            cur == #[trigger] (t0 + u0) && t0.len() > 0 && !is_space(t0[0]) && !is_space(t0.last())
                && breaks_before(t0);
        assert(cur.push(' ') + t == t0 + (u0.push(' ') + t));
        assert(led(cur.push(' ') + t));
    }
}

proof fn lemma_seg_led(ls: Seq<Seq<char>>)
    ensures
        seg_ok(seg_state(ls).0, seg_state(ls).1),
    decreases ls.len(),
{
    if ls.len() > 0 {
        lemma_seg_led(ls.drop_last());
        let st = seg_state(ls.drop_last());
        lemma_seg_step_ok(st.0, st.1, ls.last());
    }
}

proof fn lemma_blocks_led(ls: Seq<Seq<char>>)
    ensures
        adjacent_led(blocks(ls)),
{
    lemma_seg_led(ls);
    let st = seg_state(ls);
    if st.1.len() > 0 {
        lemma_adjacent_led_push(st.0, st.1);
    }
}

proof fn lemma_tidy_breaks(bs: Seq<Seq<char>>)
    requires
        entries_start_solid(bs),
        adjacent_led(bs),
    ensures
        adjacent_break(tidy_state(bs).0),
        tidy_state(bs).0.len() > 0 && tidy_state(bs).0.last().len() > 0 ==> bs.len() > 0
            && bs.last().len() > 0,
    decreases bs.len(),
{
    if bs.len() > 0 {
        let p = bs.drop_last();
        assert(entries_start_solid(p)) by {
            assert forall|i: int| 0 <= i < p.len() implies (#[trigger] p[i]).len() == 0
                || !is_space(p[i][0]) by {
                assert(p[i] == bs[i]);
            }
        }
        assert(adjacent_led(p)) by {
            assert forall|k: int|
                0 < k < p.len() && p[k - 1].len() > 0 && (#[trigger] p[k]).len() > 0 implies led(
                p[k],
            ) by {
                assert(p[k] == bs[k] && p[k - 1] == bs[k - 1]);
            }
        }
        lemma_tidy_breaks(p);
        lemma_tidy_state(p);
        let (out, pb) = tidy_state(p);
        let b = bs.last();
        assert(b == bs[bs.len() - 1]);
        if b.len() > 0 {
            let o2 = out.push(normalize(b));
            if out.len() > 0 && out.last().len() > 0 {
                assert(p.last() == bs[bs.len() - 2]);
                assert(led(bs[bs.len() - 1]));
                let (t0, u0) = choose|t0: Seq<char>, u0: Seq<char>|
                    b == #[trigger] (t0 + u0) && t0.len() > 0 && !is_space(t0[0]) && !is_space(
                        t0.last(),
                    ) && breaks_before(t0);
                lemma_led_normalize(t0, u0);
            }
            assert forall|k: int|
                0 < k < o2.len() && o2[k - 1].len() > 0 && (#[trigger] o2[k]).len()
                    > 0 implies breaks_before(o2[k]) by {
                if k < out.len() {
                    assert(o2[k] == out[k] && o2[k - 1] == out[k - 1]);
                } else {
                    assert(o2[k - 1] == out.last());
                }
            }
        } else if !pb && out.len() > 0 {
            let o2 = out.push(Seq::<char>::empty());
            assert forall|k: int|
                0 < k < o2.len() && o2[k - 1].len() > 0 && (#[trigger] o2[k]).len()
                    > 0 implies breaks_before(o2[k]) by {
                assert(o2[k] == out[k] && o2[k - 1] == out[k - 1]);
            }
        }
    }
}


/// `s` holds none of the decorative glyphs.
pub open spec fn glyph_free(s: Seq<char>) -> bool {
    forall|i: int| 0 <= i < s.len() ==> !is_glyph(#[trigger] s[i])
}

/// Every entry of `o` holds none of the decorative glyphs.
pub open spec fn all_glyph_free(o: Seq<Seq<char>>) -> bool {
    forall|i: int| 0 <= i < o.len() ==> glyph_free(#[trigger] o[i])
}

proof fn lemma_glyph_free_sub(s: Seq<char>, a: int, b: int)
    requires
        glyph_free(s),
        0 <= a <= b <= s.len(),
    ensures
        glyph_free(s.subrange(a, b)),
{
    assert forall|i: int| 0 <= i < b - a implies !is_glyph(#[trigger] s.subrange(a, b)[i]) by {
        assert(s.subrange(a, b)[i] == s[a + i]);
    }
}

proof fn lemma_glyph_free_cat(a: Seq<char>, b: Seq<char>)
    requires
        glyph_free(a),
        glyph_free(b),
    ensures
        glyph_free(a + b),
{
    assert forall|i: int| 0 <= i < (a + b).len() implies !is_glyph(#[trigger] (a + b)[i]) by {
        if i >= a.len() {
            assert((a + b)[i] == b[i - a.len()]);
        }
    }
}

proof fn lemma_strip_glyphs_free(s: Seq<char>)
    ensures
        glyph_free(strip_glyphs(s)),
        glyph_free(s) ==> strip_glyphs(s) == s,
    decreases s.len(),
{
    if s.len() > 0 {
        let p = s.drop_last();
        lemma_strip_glyphs_free(p);
        if glyph_free(s) {
            assert(glyph_free(p)) by {
                assert forall|i: int| 0 <= i < p.len() implies !is_glyph(#[trigger] p[i]) by {
                    assert(p[i] == s[i]);
                }
            }
            assert(!is_glyph(s[s.len() - 1]));
            assert(p.push(s.last()) =~= s);
        }
    }
}

proof fn lemma_trim_glyph_free(s: Seq<char>)
    requires
        glyph_free(s),
    ensures
        glyph_free(trim(s)),
{
    lemma_trim(s);
    let a = choose|a: int|
        0 <= a && a + trim(s).len() <= s.len() && trim(s) == #[trigger] s.subrange(
            a,
            a + trim(s).len(),
        );
    lemma_glyph_free_sub(s, a, a + trim(s).len());
}

proof fn lemma_trim_border_glyph_free(l: Seq<char>)
    requires
        glyph_free(l),
    ensures
        glyph_free(trim_border(l)),
{
    lemma_trim_glyph_free(l);
    let t1 = trim(l);
    let t2 = drop_first_if(t1, '|');
    if t1.len() > 0 && t1[0] == '|' {
        lemma_glyph_free_sub(t1, 1, t1.len() as int);
        assert(t1.subrange(1, t1.len() as int) =~= t2);
    }
    let t3 = drop_last_if(t2, '|');
    if t2.len() > 0 && t2.last() == '|' {
        lemma_glyph_free_sub(t2, 0, t2.len() - 1);
        assert(t2.subrange(0, t2.len() - 1) =~= t3);
    }
    lemma_trim_glyph_free(t3);
    let t4 = trim(t3);
    let t5 = drop_first_if(t4, '>');
    if t4.len() > 0 && t4[0] == '>' {
        lemma_glyph_free_sub(t4, 1, t4.len() as int);
        assert(t4.subrange(1, t4.len() as int) =~= t5);
    }
    lemma_trim_glyph_free(t5);
}

proof fn lemma_split_glyph_free(s: Seq<char>)
    requires
        glyph_free(s),
    ensures
        all_glyph_free(split_state(s).0),
        glyph_free(split_state(s).1),
    decreases s.len(),
{
    if s.len() > 0 {
        let p = s.drop_last();
        lemma_glyph_free_sub(s, 0, s.len() - 1);
        assert(s.subrange(0, s.len() - 1) =~= p);
        lemma_split_glyph_free(p);
        let (d, o) = split_state(p);
        assert(!is_glyph(s[s.len() - 1]));
        lemma_glyph_free_cat(o, seq![s.last()]);
        assert(o + seq![s.last()] =~= o.push(s.last()));
        assert(all_glyph_free(d.push(o))) by {
            assert forall|i: int| 0 <= i < d.len() + 1 implies glyph_free(#[trigger] d.push(o)[i]) by {
                if i < d.len() {
                    assert(d.push(o)[i] == d[i]);
                }
            }
        }
        assert(glyph_free(Seq::<char>::empty()));
    }
}

proof fn lemma_lines_glyph_free(s: Seq<char>)
    requires
        glyph_free(s),
    ensures
        all_glyph_free(lines(s)),
{
    lemma_split_glyph_free(s);
    let p = pieces(s);
    assert(all_glyph_free(p)) by {
        assert forall|i: int| 0 <= i < p.len() implies glyph_free(#[trigger] p[i]) by {
            if i < p.len() - 1 {
                assert(p[i] == split_state(s).0[i]);
            }
        }
    }
    assert forall|i: int| 0 <= i < lines(s).len() implies glyph_free(#[trigger] lines(s)[i]) by {
        assert(lines(s)[i] == p[i]);
    }
}

proof fn lemma_join_glyph_free(o: Seq<Seq<char>>)
    requires
        all_glyph_free(o),
    ensures
        glyph_free(join(o)),
    decreases o.len(),
{
    if o.len() > 1 {
        let p = o.drop_last();
        assert(all_glyph_free(p)) by {
            assert forall|i: int| 0 <= i < p.len() implies glyph_free(#[trigger] p[i]) by {
                assert(p[i] == o[i]);
            }
        }
        lemma_join_glyph_free(p);
        assert(glyph_free(seq!['\n']));
        lemma_glyph_free_cat(join(p), seq!['\n']);
        assert(join(p) + seq!['\n'] =~= join(p).push('\n'));
        assert(o.last() == o[o.len() - 1]);
        lemma_glyph_free_cat(join(p).push('\n'), o.last());
    } else if o.len() == 1 {
        assert(o[0] == o[0]);
    }
}

proof fn lemma_collapse_glyph_free(s: Seq<char>)
    requires
        glyph_free(s),
    ensures
        glyph_free(collapse(s)),
    decreases s.len(),
{
    if s.len() > 0 {
        let p = s.drop_last();
        lemma_glyph_free_sub(s, 0, s.len() - 1);
        assert(s.subrange(0, s.len() - 1) =~= p);
        lemma_collapse_glyph_free(p);
        assert(!is_glyph(s[s.len() - 1]));
        lemma_glyph_free_cat(collapse(p), seq![s.last()]);
        assert(collapse(p) + seq![s.last()] =~= collapse(p).push(s.last()));
        lemma_glyph_free_cat(collapse(p), seq![' ']);
        assert(collapse(p) + seq![' '] =~= collapse(p).push(' '));
    }
}

proof fn lemma_seg_glyph_free(ls: Seq<Seq<char>>)
    requires
        all_glyph_free(ls),
    ensures
        all_glyph_free(seg_state(ls).0),
        glyph_free(seg_state(ls).1),
    decreases ls.len(),
{
    if ls.len() > 0 {
        let p = ls.drop_last();
        assert(all_glyph_free(p)) by {
            assert forall|i: int| 0 <= i < p.len() implies glyph_free(#[trigger] p[i]) by {
                assert(p[i] == ls[i]);
            }
        }
        lemma_seg_glyph_free(p);
        let (out, cur) = seg_state(p);
        assert(ls.last() == ls[ls.len() - 1]);
        lemma_trim_glyph_free(ls.last());
        let t = trim(ls.last());
        assert(all_glyph_free(out.push(cur))) by {
            assert forall|i: int| 0 <= i < out.len() + 1 implies glyph_free(
                #[trigger] out.push(cur)[i],
            ) by {
                if i < out.len() {
                    assert(out.push(cur)[i] == out[i]);
                }
            }
        }
        let f = flush(out, cur);
        assert(glyph_free(Seq::<char>::empty()));
        assert(all_glyph_free(f.push(Seq::empty()))) by {
            assert forall|i: int| 0 <= i < f.len() + 1 implies glyph_free(
                #[trigger] f.push(Seq::empty())[i],
            ) by {
                if i < f.len() {
                    assert(f.push(Seq::empty())[i] == f[i]);
                }
            }
        }
        lemma_glyph_free_cat(cur, seq![' ']);
        assert(cur + seq![' '] =~= cur.push(' '));
        lemma_glyph_free_cat(cur.push(' '), t);
    }
}

proof fn lemma_tidy_glyph_free(bs: Seq<Seq<char>>)
    requires
        all_glyph_free(bs),
    ensures
        all_glyph_free(tidy_state(bs).0),
    decreases bs.len(),
{
    if bs.len() > 0 {
        let p = bs.drop_last();
        assert(all_glyph_free(p)) by {
            assert forall|i: int| 0 <= i < p.len() implies glyph_free(#[trigger] p[i]) by {
                assert(p[i] == bs[i]);
            }
        }
        lemma_tidy_glyph_free(p);
        let out = tidy_state(p).0;
        assert(bs.last() == bs[bs.len() - 1]);
        lemma_collapse_glyph_free(bs.last());
        lemma_trim_glyph_free(collapse(bs.last()));
        let e: Seq<char> = if bs.last().len() > 0 {
            normalize(bs.last())
        } else {
            Seq::empty()
        };
        assert(glyph_free(e));
        assert(all_glyph_free(out.push(e))) by {
            assert forall|i: int| 0 <= i < out.len() + 1 implies glyph_free(
                #[trigger] out.push(e)[i],
            ) by {
                if i < out.len() {
                    assert(out.push(e)[i] == out[i]);
                }
            }
        }
    }
}

/// `drop_trailing_blanks` keeps a leading part.
proof fn lemma_drop_trailing_prefix(o: Seq<Seq<char>>)
    ensures
        drop_trailing_blanks(o).len() <= o.len(),
        drop_trailing_blanks(o) == o.take(drop_trailing_blanks(o).len() as int),
    decreases o.len(),
{
    if o.len() > 0 && o.last().len() == 0 {
        lemma_drop_trailing_prefix(o.drop_last());
        assert(o.drop_last().take(drop_trailing_blanks(o).len() as int) =~= o.take(
            drop_trailing_blanks(o).len() as int,
        ));
    } else {
        assert(o.take(o.len() as int) =~= o);
    }
}


/// A single spaced line is its own trim.
proof fn lemma_trim_fixed(e: Seq<char>)
    requires
        single_spaced(e),
    ensures
        trim(e) == e,
{
    if e.len() > 0 {
        if is_space(e[0]) {
            assert(false);
        }
        if is_space(e.last()) {
            assert(is_space(e[e.len() - 1]));
            assert(false);
        }
        assert(trim_start(e) == e);
        assert(trim_end(e) == e);
    }
}

/// A single spaced line is its own normal form.
proof fn lemma_normalize_fixed(e: Seq<char>)
    requires
        single_spaced(e),
    ensures
        normalize(e) == e,
{
    assert(runs_collapsed(e));
    lemma_collapse_id(e);
    lemma_trim_fixed(e);
}

/// A line whose form is final and carries no frame loses nothing to border trimming.
proof fn lemma_trim_border_fixed(e: Seq<char>)
    requires
        single_spaced(e),
        unframed(e),
    ensures
        trim_border(e) == e,
{
    lemma_trim_fixed(e);
}

/// `e` neither starts with `'|'` or `'>'` nor ends with `'|'`.
pub open spec fn unframed(e: Seq<char>) -> bool {
    e.len() > 0 ==> e[0] != '|' && e[0] != '>' && e.last() != '|'
}

proof fn lemma_seg_fixed(o: Seq<Seq<char>>, n: int)
    requires
        well_shaped(o),
        adjacent_break(o),
        0 <= n <= o.len(),
    ensures
        seg_state(o.take(n)) == (if n > 0 && o[n - 1].len() > 0 {
            (o.take(n - 1), o[n - 1])
        } else {
            (o.take(n), Seq::<char>::empty())
        }),
    decreases n,
{
    if n == 0 {
        assert(o.take(0) =~= Seq::<Seq<char>>::empty());
    } else {
        lemma_seg_fixed(o, n - 1);
        assert(o.take(n).drop_last() =~= o.take(n - 1));
        assert(o.take(n).last() == o[n - 1]);
        let e = o[n - 1];
        lemma_trim_fixed(e);
        assert(o.take(n - 1).push(e) =~= o.take(n));
        if n >= 2 {
            assert(o.take(n - 2).push(o[n - 2]) =~= o.take(n - 1));
        }
        if e.len() == 0 {
            assert(e =~= Seq::<char>::empty());
        }
        if e.len() > 0 && n >= 2 && o[n - 2].len() > 0 {
            assert(breaks_before(o[n - 1]));
        }
    }
}

proof fn lemma_tidy_fixed(o: Seq<Seq<char>>, n: int)
    requires
        well_shaped(o),
        0 <= n <= o.len(),
    ensures
        tidy_state(o.take(n)) == (o.take(n), n > 0 && o[n - 1].len() == 0),
    decreases n,
{
    if n == 0 {
        assert(o.take(0) =~= Seq::<Seq<char>>::empty());
    } else {
        lemma_tidy_fixed(o, n - 1);
        assert(o.take(n).drop_last() =~= o.take(n - 1));
        assert(o.take(n).last() == o[n - 1]);
        let e = o[n - 1];
        lemma_normalize_fixed(e);
        assert(o.take(n - 1).push(e) =~= o.take(n));
        if e.len() == 0 {
            assert(e =~= Seq::<char>::empty());
            assert(n >= 2);
            assert(o[n - 2].len() > 0);
            assert(o.take(n - 1).len() > 0);
        }
    }
}

proof fn lemma_join_first(o: Seq<Seq<char>>)
    requires
        o.len() > 0,
        o[0].len() > 0,
    ensures
        join(o).len() > 0,
        join(o)[0] == o[0][0],
    decreases o.len(),
{
    if o.len() > 1 {
        let p = o.drop_last();
        assert(p[0] == o[0]);
        lemma_join_first(p);
        assert((join(p).push('\n') + o.last())[0] == join(p)[0]);
    }
}

/// Cleaning what `clean` returned changes nothing, provided that no line of
/// it starts with `'|'` or `'>'` or ends with `'|'`. Such a line keeps one
/// frame character that the border trimming, which removes one layer only,
/// would remove on the second run.
pub proof fn clean_is_idempotent(x: Seq<char>)
    requires
        forall|i: int|
            0 <= i < pieces(cleaned(x)).len() ==> unframed(#[trigger] pieces(cleaned(x))[i]),
    ensures
        cleaned(cleaned(x)) == cleaned(x),
{
    let r = cleaned(x);
    if r.len() == 0 {
        assert(trim(r).len() == 0);
    } else {
        let g = strip_glyphs(x);
        let ls = lines(strip_borders(g));
        let bs = blocks(ls);
        let o = tidy(bs);
        assert(r == join(o));
        lemma_tidy_well_shaped(ls);
        lemma_no_newline(o);
        if o.len() == 0 {
            assert(join(o) == Seq::<char>::empty());
        }
        lemma_pieces_join(o);
        assert(pieces(r) == o);
        // the text is not blank
        lemma_join_first(o);
        assert(single_spaced(o[0]));
        assert(!is_space(r[0]));
        assert(trim_start(r) == r);
        lemma_trim_end_keeps_first(r);
        // no glyph is left
        lemma_strip_glyphs_free(x);
        lemma_strip_glyphs_free(strip_glyphs(x));
        lemma_lines_glyph_free(g);
        let bl = lines(g).map_values(|l: Seq<char>| trim_border(l));
        assert(all_glyph_free(bl)) by {
            assert forall|i: int| 0 <= i < bl.len() implies glyph_free(#[trigger] bl[i]) by {
                lemma_trim_border_glyph_free(lines(g)[i]);
            }
        }
        lemma_join_glyph_free(bl);
        lemma_lines_glyph_free(strip_borders(g));
        lemma_seg_glyph_free(ls);
        let st = seg_state(ls);
        assert(all_glyph_free(bs)) by {
            if st.1.len() > 0 {
                assert forall|i: int| 0 <= i < bs.len() implies glyph_free(#[trigger] bs[i]) by {
                    if i < st.0.len() {
                        assert(bs[i] == st.0[i]);
                    }
                }
            }
        }
        lemma_tidy_glyph_free(bs);
        lemma_drop_trailing_prefix(tidy_state(bs).0);
        assert(all_glyph_free(o)) by {
            assert forall|i: int| 0 <= i < o.len() implies glyph_free(#[trigger] o[i]) by {
                assert(o[i] == tidy_state(bs).0[i]);
            }
        }
        lemma_join_glyph_free(o);
        lemma_strip_glyphs_free(r);
        assert(strip_glyphs(r) == r);
        // the frames are gone already
        assert(lines(r) == o);
        assert(o.map_values(|l: Seq<char>| trim_border(l)) =~= o) by {
            assert forall|i: int| 0 <= i < o.len() implies #[trigger] trim_border(o[i]) == o[i] by {
                assert(unframed(pieces(r)[i]));
                lemma_trim_border_fixed(o[i]);
            }
        }
        assert(strip_borders(r) == r);
        // segmentation and tidying leave the entries as they are
        lemma_blocks_led(ls);
        lemma_blocks_solid(ls);
        lemma_tidy_breaks(bs);
        assert(adjacent_break(o)) by {
            let full = tidy_state(bs).0;
            assert forall|k: int|
                0 < k < o.len() && o[k - 1].len() > 0 && (#[trigger] o[k]).len()
                    > 0 implies breaks_before(o[k]) by {
                assert(o[k] == full[k] && o[k - 1] == full[k - 1]);
            }
        }
        lemma_seg_fixed(o, o.len() as int);
        assert(o.take(o.len() as int) =~= o);
        assert(o.take(o.len() - 1).push(o[o.len() - 1]) =~= o);
        assert(blocks(o) == o);
        lemma_tidy_fixed(o, o.len() as int);
        assert(tidy(o) == o);
    }
}

} // verus!

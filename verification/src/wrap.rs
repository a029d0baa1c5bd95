//! Word wrapping for the text panels: lines of at most `width` characters,
//! broken at spaces, with paragraph breaks kept and over-long words split.
use vstd::prelude::*;
use vstd::string::StrSliceExecFns;

use crate::text::chars_of;

verus! {

/// Index of the first `c` in `t` at or after `k`, or `t.len()` when there is none.
pub open spec fn find_from(t: Seq<char>, c: char, k: nat) -> nat
    decreases t.len() - k,
{
    if k >= t.len() {
        t.len()
    } else if t[k as int] == c {
        k
    } else {
        find_from(t, c, k + 1)
    }
}

pub proof fn lemma_find_from(t: Seq<char>, c: char, k: nat)
    requires
        k <= t.len(),
    ensures
        k <= find_from(t, c, k) <= t.len(),
        find_from(t, c, k) < t.len() ==> t[find_from(t, c, k) as int] == c,
        forall|j: int| k <= j < find_from(t, c, k) ==> t[j] != c,
    decreases t.len() - k,
{
    if k < t.len() && t[k as int] != c {
        lemma_find_from(t, c, k + 1);
    }
}

/// A scan that stopped at `r` found the first `c` from `k`.
pub proof fn lemma_find_is(t: Seq<char>, c: char, k: nat, r: nat)
    requires
        k <= r <= t.len(),
        forall|j: int| k <= j < r ==> t[j] != c,
        r == t.len() || t[r as int] == c,
    ensures
        find_from(t, c, k) == r,
    decreases r - k,
{
    if k < r {
        lemma_find_is(t, c, k + 1, r);
    }
}

/// The lines of `t` as `str::lines` gives them: split at each `'\n'`, a
/// `'\r'` just before a `'\n'` dropped, and no empty line after a final
/// `'\n'`.
pub open spec fn paragraphs(t: Seq<char>) -> Seq<Seq<char>>
    decreases t.len(),
{
    if t.len() == 0 {
        seq![]
    } else {
        let i = find_from(t, '\n', 0);
        if i >= t.len() {
            seq![t]
        } else {
            let line = t.take(i as int);
            let line = if line.len() > 0 && line.last() == '\r' { line.drop_last() } else { line };
            seq![line] + paragraphs(t.skip(i + 1 as int))
        }
    }
}

/// The pieces of `t` between single spaces, as `split(' ')` gives them.
pub open spec fn words(t: Seq<char>) -> Seq<Seq<char>>
    decreases t.len(),
{
    let i = find_from(t, ' ', 0);
    if i >= t.len() {
        seq![t]
    } else {
        seq![t.take(i as int)] + words(t.skip(i + 1 as int))
    }
}

/// A word too long for a line goes out in full lines of `w` characters;
/// the tail stays as the current line.
pub open spec fn chop(out: Seq<Seq<char>>, rest: Seq<char>, w: int) -> (Seq<Seq<char>>, Seq<char>)
    decreases rest.len(),
{
    if w > 0 && rest.len() > w {
        chop(out.push(rest.take(w)), rest.skip(w), w)
    } else {
        (out, rest)
    }
}

/// Placing one word: it joins the current line after a space when it fits;
/// otherwise the line is finished and the word starts the next one.
pub open spec fn place(out: Seq<Seq<char>>, line: Seq<char>, word: Seq<char>, w: int) -> (
    Seq<Seq<char>>,
    Seq<char>,
) {
    if line.len() > 0 && line.len() + 1 + word.len() <= w {
        (out, line + seq![' '] + word)
    } else {
        chop(if line.len() > 0 { out.push(line) } else { out }, word, w)
    }
}

/// The words `ws` placed one after another.
pub open spec fn fill(out: Seq<Seq<char>>, line: Seq<char>, ws: Seq<Seq<char>>, w: int) -> (
    Seq<Seq<char>>,
    Seq<char>,
)
    decreases ws.len(),
{
    if ws.len() == 0 {
        (out, line)
    } else {
        let (o, l) = place(out, line, ws[0], w);
        fill(o, l, ws.skip(1), w)
    }
}

/// Each paragraph filled from an empty line, its last line closed.
pub open spec fn fill_paragraphs(out: Seq<Seq<char>>, ps: Seq<Seq<char>>, w: int) -> Seq<Seq<char>>
    decreases ps.len(),
{
    if ps.len() == 0 {
        out
    } else {
        let (o, l) = fill(out, seq![], words(ps[0]), w);
        fill_paragraphs(o.push(l), ps.skip(1), w)
    }
}

/// The width actually used: at least one character.
pub open spec fn line_width(width: int) -> int {
    if width < 1 { 1 } else { width }
}

/// The wrapped lines of `s`; a text with no lines at all gives one empty line.
pub open spec fn wrapped(s: Seq<char>, width: int) -> Seq<Seq<char>> {
    let r = fill_paragraphs(seq![], paragraphs(s), line_width(width));
    if r.len() == 0 { seq![seq![]] } else { r }
}

/// Every line of `ls` holds at most `w` characters.
pub open spec fn fits(ls: Seq<Seq<char>>, w: int) -> bool {
    forall|i: int| 0 <= i < ls.len() ==> #[trigger] ls[i].len() <= w
}

proof fn lemma_chop_fits(out: Seq<Seq<char>>, rest: Seq<char>, w: int)
    requires
        w > 0,
        fits(out, w),
    ensures
        fits(chop(out, rest, w).0, w),
        chop(out, rest, w).1.len() <= w,
    decreases rest.len(),
{
    if rest.len() > w {
        let o = out.push(rest.take(w));
        assert(fits(o, w));
        lemma_chop_fits(o, rest.skip(w), w);
    }
}

proof fn lemma_fill_fits(out: Seq<Seq<char>>, line: Seq<char>, ws: Seq<Seq<char>>, w: int)
    requires
        w > 0,
        fits(out, w),
        line.len() <= w,
    ensures
        fits(fill(out, line, ws, w).0, w),
        fill(out, line, ws, w).1.len() <= w,
    decreases ws.len(),
{
    if ws.len() > 0 {
        let word = ws[0];
        if line.len() > 0 && line.len() + 1 + word.len() <= w {
        } else {
            let o = if line.len() > 0 { out.push(line) } else { out };
            assert(fits(o, w));
            lemma_chop_fits(o, word, w);
        }
        let (o, l) = place(out, line, word, w);
        lemma_fill_fits(o, l, ws.skip(1), w);
    }
}

proof fn lemma_paragraphs_fit(out: Seq<Seq<char>>, ps: Seq<Seq<char>>, w: int)
    requires
        w > 0,
        fits(out, w),
    ensures
        fits(fill_paragraphs(out, ps, w), w),
    decreases ps.len(),
{
    if ps.len() > 0 {
        lemma_fill_fits(out, seq![], words(ps[0]), w);
        let (o, l) = fill(out, seq![], words(ps[0]), w);
        assert(fits(o.push(l), w));
        lemma_paragraphs_fit(o.push(l), ps.skip(1), w);
    }
}

/// No wrapped line is longer than the width (or than one character, when
/// the width is zero).
pub proof fn law_no_line_exceeds_the_width(s: Seq<char>, width: int)
    ensures
        fits(wrapped(s, width), line_width(width)),
{
    lemma_paragraphs_fit(seq![], paragraphs(s), line_width(width));
}

/// The characters of each string.
pub open spec fn texts(v: Seq<String>) -> Seq<Seq<char>> {
    Seq::new(v.len(), |i: int| v[i]@)
}



/// Places the word `s[q..k]` (characters) in the current line, finishing
/// lines into `out` as needed.
fn place_word(s: &str, q: usize, k: usize, w: usize, out: &mut Vec<String>, line: &mut String, n: &mut usize)
    requires
        q <= k <= s@.len(),
        w > 0,
        *old(n) == old(line)@.len(),
        old(line)@.len() <= w,
    ensures
        (texts(final(out)@), final(line)@) == place(texts(old(out)@), old(line)@, s@.subrange(q as int, k as int), w as int),
        *final(n) == final(line)@.len(),
        final(line)@.len() <= w,
{
    let ghost word = s@.subrange(q as int, k as int);
    let wl: usize = k - q;
    if *n > 0 && (*n as u128) + 1 + (wl as u128) <= w as u128 {
        proof { reveal_strlit(" "); }
        line.append(" ");
        line.append(s.substring_char(q, k));
        *n = *n + 1 + wl;
        assert(final(line)@ =~= old(line)@ + seq![' '] + word);
        return;
    }
    let ghost o1 = if old(line)@.len() > 0 { texts(old(out)@).push(old(line)@) } else { texts(old(out)@) };
    if *n > 0 {
        let mut done = String::new();
        std::mem::swap(&mut done, line);
        out.push(done);
        assert(texts(out@) =~= o1);
    }
    let mut a: usize = q;
    while k - a > w
        invariant
            q <= a <= k <= s@.len(),
            w > 0,
            chop(texts(out@), s@.subrange(a as int, k as int), w as int) == chop(o1, word, w as int),
        decreases k - a,
    {
        let piece = s.substring_char(a, a + w).to_owned();
        let ghost before = texts(out@);
        out.push(piece);
        assert(s@.subrange(a as int, k as int).take(w as int) =~= s@.subrange(a as int, a + w));
        assert(texts(out@) =~= before.push(s@.subrange(a as int, k as int).take(w as int)));
        assert(s@.subrange(a as int, k as int).skip(w as int) =~= s@.subrange(a + w, k as int));
        a = a + w;
    }
    *line = s.substring_char(a, k).to_owned();
    *n = k - a;
}

/// Word-wraps `s` to at most `width` characters per line (at least one).
/// Paragraph breaks are kept, and a word longer than a whole line is broken
/// rather than overflowing.
pub fn wrap(s: &str, width: usize) -> (r: Vec<String>)
    ensures
        texts(r@) == wrapped(s@, width as int),
        fits(texts(r@), line_width(width as int)),
{
    let w: usize = if width < 1 { 1 } else { width };
    let cs = chars_of(s);
    let len = cs.len();
    let mut out: Vec<String> = Vec::new();
    let mut pos: usize = 0;
    assert(s@.subrange(0, len as int) =~= s@);
    assert(texts(out@) =~= Seq::<Seq<char>>::empty());
    while pos < len
        invariant
            pos <= len == s@.len() == cs@.len(),
            cs@ == s@,
            w == line_width(width as int),
            fill_paragraphs(texts(out@), paragraphs(s@.subrange(pos as int, len as int)), w as int)
                == fill_paragraphs(seq![], paragraphs(s@), w as int),
        decreases len - pos,
    {
        let mut e: usize = pos;
        while e < len && cs[e] != '\n'
            invariant
                pos <= e <= len == cs@.len(),
                forall|j: int| pos <= j < e ==> cs@[j] != '\n',
            decreases len - e,
        {
            e = e + 1;
        }
        let t = Ghost(s@.subrange(pos as int, len as int));
        proof {
            lemma_find_is(t@, '\n', 0, (e - pos) as nat);
        }
        let pe: usize = if e < len && e > pos && cs[e - 1] == '\r' { e - 1 } else { e };
        let seg = Ghost(s@.subrange(pos as int, pe as int));
        proof {
            if e < len {
                let line = t@.take((e - pos) as int);
                assert(line =~= s@.subrange(pos as int, e as int));
                if line.len() > 0 && line.last() == '\r' {
                    assert(line.drop_last() =~= seg@);
                } else {
                    assert(line =~= seg@);
                }
                assert(t@.skip((e - pos) + 1) =~= s@.subrange(e + 1, len as int));
            } else {
                assert(t@ =~= seg@);
            }
        }
        let ghost out0 = texts(out@);
        let mut line = String::new();
        let mut n: usize = 0;
        let mut q: usize = pos;
        assert(s@.subrange(q as int, pe as int) =~= seg@);
        loop
            invariant_except_break
                fill(texts(out@), line@, words(s@.subrange(q as int, pe as int)), w as int)
                    == fill(out0, seq![], words(seg@), w as int),
            invariant
                pos <= q <= pe <= len == s@.len() == cs@.len(),
                cs@ == s@,
                w > 0,
                n == line@.len(),
                line@.len() <= w,
            ensures
                (texts(out@), line@) == fill(out0, seq![], words(seg@), w as int),
            decreases pe - q,
        {
            let mut k: usize = q;
            while k < pe && cs[k] != ' '
                invariant
                    q <= k <= pe <= cs@.len(),
                    forall|j: int| q <= j < k ==> cs@[j] != ' ',
                decreases pe - k,
            {
                k = k + 1;
            }
            let u = Ghost(s@.subrange(q as int, pe as int));
            let ghost word = s@.subrange(q as int, k as int);
            proof {
                lemma_find_is(u@, ' ', 0, (k - q) as nat);
                assert(u@.take((k - q) as int) =~= word);
                if k < pe {
                    assert(u@.skip((k - q) + 1) =~= s@.subrange(k + 1, pe as int));
                    assert(words(u@) == seq![word] + words(s@.subrange(k + 1, pe as int)));
                    assert(words(u@).skip(1) =~= words(s@.subrange(k + 1, pe as int)));
                } else {
                    assert(u@ =~= word);
                    assert(words(u@) == seq![word]);
                    assert(words(u@).skip(1) =~= Seq::<Seq<char>>::empty());
                }
                assert(words(u@)[0] == word);
            }
            let ghost before = (texts(out@), line@);
            place_word(s, q, k, w, &mut out, &mut line, &mut n);
            if k >= pe {
                proof {
                    let ws = words(u@);
                    assert(fill(before.0, before.1, ws, w as int) == fill(texts(out@), line@, ws.skip(1), w as int));
                    assert(fill(texts(out@), line@, ws.skip(1), w as int) == (texts(out@), line@));
                }
                break;
            }
            q = k + 1;
        }
        let ghost o = texts(out@);
        out.push(line);
        assert(texts(out@) =~= o.push(line@));
        pos = if e < len { e + 1 } else { len };
        proof {
            if e < len {
                assert(paragraphs(t@) == seq![seg@] + paragraphs(s@.subrange(pos as int, len as int)));
            } else {
                assert(s@.subrange(pos as int, len as int) =~= Seq::<char>::empty());
                assert(paragraphs(t@) == seq![seg@]);
            }
            assert(paragraphs(t@)[0] == seg@);
            assert(paragraphs(t@).skip(1) =~= paragraphs(s@.subrange(pos as int, len as int)));
        }
    }
    assert(paragraphs(s@.subrange(pos as int, len as int)) =~= Seq::<Seq<char>>::empty());
    if out.len() == 0 {
        out.push(String::new());
        assert(texts(out@) =~= seq![Seq::<char>::empty()]);
    }
    proof {
        law_no_line_exceeds_the_width(s@, width as int);
    }
    out
}

} // verus!

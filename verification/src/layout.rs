//! Shape fitter: lays the serialized code out over the density grid, line by
//! line. Code words are packed greedily into the non-space cells of each art
//! line; leftover cell width becomes a block- or line-comment fragment whose
//! interior re-reads the cell's glyphs backward; art lines reached after the
//! words run out are absorbed into one trailing comment, opened once and
//! closed once at the very end.

use vstd::prelude::*;

use crate::textops::spec_split;
use crate::textops::spec_trim_end;
use crate::textops::spec_last_nonempty;
use crate::textops::views_of;
use crate::textops::chars_to_fill_vec;
use crate::textops::get_last_nwhitespace_index;
use crate::textops::trim_end_chars;
use crate::textops::subrange_chars;
use crate::textops::lemma_split_len;
use crate::syntax::extend_chars;

verus! {

/// Greedy word packing into a cell of `width` glyphs: words are emitted with
/// one trailing space each, while the next word and its space still fit
/// strictly inside the remaining width and the word budget is not exhausted.
/// Yields the emitted text, the new word cursor, and the remaining width.
pub open spec fn spec_pack(words: Seq<Seq<char>>, total: int, np: int, width: int) -> (
    Seq<char>,
    int,
    int,
)
    decreases total - np,
{
    if words[np].len() + 1 < width && np < total {
        let w = words[np];
        let rest = spec_pack(words, total, np + 1, width - (w.len() + 1));
        (w + seq![' '] + rest.0, rest.1, rest.2)
    } else {
        (Seq::empty(), np, width)
    }
}

/// The cell glyphs from position `hi` down to just above `lo`, backward.
pub open spec fn rev_range(cell: Seq<char>, hi: int, lo: int) -> Seq<char>
    decreases hi - lo,
{
    if hi <= lo {
        Seq::empty()
    } else {
        seq![cell[hi]] + rev_range(cell, hi - 1, lo)
    }
}

/// One non-empty cell: packed words first; then, if more than four glyphs of
/// width remain, a closed block-comment fragment over the cell's tail glyphs
/// backward; else, on the last non-empty cell of the line with at least two
/// glyphs left, an open-ended line-comment fragment.
pub open spec fn spec_fit_cell(
    cell: Seq<char>,
    words: Seq<Seq<char>>,
    total: int,
    np: int,
    is_last: bool,
) -> (Seq<char>, int) {
    let p = spec_pack(words, total, np, cell.len() as int);
    let w = p.2;
    let frag = if w > 4 {
        seq!['/', '*'] + rev_range(cell, w - 2, 2) + seq!['*', '/']
    } else if w >= 2 && is_last {
        seq!['/', '/'] + rev_range(cell, w - 2, 0)
    } else {
        Seq::empty()
    };
    (p.0 + frag, p.1)
}

/// The walk over a line's cells from `j` on: each non-empty cell is fitted,
/// each cell is closed by one placeholder space.
pub open spec fn spec_cells_walk(
    cells: Seq<Seq<char>>,
    ilast: int,
    words: Seq<Seq<char>>,
    total: int,
    j: int,
    np: int,
) -> (Seq<char>, int)
    decreases cells.len() - j,
{
    if j < 0 || j >= cells.len() {
        (Seq::empty(), np)
    } else {
        let cur = if cells[j].len() > 0 {
            spec_fit_cell(cells[j], words, total, np, j == ilast)
        } else {
            (Seq::empty(), np)
        };
        let rest = spec_cells_walk(cells, ilast, words, total, j + 1, cur.1);
        (cur.0 + seq![' '] + rest.0, rest.1)
    }
}

/// One structural art line: its cells are split on spaces, walked, and the
/// result is trimmed and newline-terminated.
pub open spec fn spec_structural_line(
    line: Seq<char>,
    words: Seq<Seq<char>>,
    total: int,
    np: int,
) -> (Seq<char>, int) {
    let cells = spec_split(line, ' ');
    let w = spec_cells_walk(cells, spec_last_nonempty(cells), words, total, 0, np);
    (spec_trim_end(w.0) + seq!['\n'], w.1)
}

/// One filler art line, folded into the trailing comment: whitespace is
/// copied; the first non-whitespace character opens the block comment and
/// swallows the character after it, the second appends the comment's second
/// marker, the rest pass verbatim; the line closes with a newline.
pub open spec fn spec_filler_line(line: Seq<char>, i: int, status: int) -> (Seq<char>, int)
    decreases line.len() + 2 - i
        when 0 <= i
{
    if i >= line.len() {
        (seq!['\n'], status)
    } else {
        let ch = line[i];
        if ch == ' ' || ch == '\t' {
            let rest = spec_filler_line(line, i + 1, status);
            (seq![ch] + rest.0, rest.1)
        } else if status == 0 {
            let rest = spec_filler_line(line, i + 2, 1);
            (seq!['/', '*'] + rest.0, rest.1)
        } else if status == 1 {
            let rest = spec_filler_line(line, i + 1, 2);
            (seq!['*'] + rest.0, rest.1)
        } else {
            let rest = spec_filler_line(line, i + 1, status);
            (seq![ch] + rest.0, rest.1)
        }
    }
}

/// The fold over the art lines from `j` on: while words remain unplaced a
/// line is structural, afterwards it feeds the trailing comment. Yields the
/// code text, the trailing comment, the word cursor and the comment status.
pub open spec fn spec_lines_fold(
    lines: Seq<Seq<char>>,
    words: Seq<Seq<char>>,
    total: int,
    j: int,
    np: int,
    status: int,
) -> (Seq<char>, Seq<char>, int, int)
    decreases lines.len() - j,
{
    if j < 0 || j >= lines.len() {
        (Seq::empty(), Seq::empty(), np, status)
    } else {
        let l = spec_trim_end(lines[j]);
        if np != total {
            let sl = spec_structural_line(l, words, total, np);
            let rest = spec_lines_fold(lines, words, total, j + 1, sl.1, status);
            (sl.0 + rest.0, rest.1, rest.2, rest.3)
        } else {
            let fl = spec_filler_line(l, 0, status);
            let rest = spec_lines_fold(lines, words, total, j + 1, np, fl.1);
            (rest.0, fl.0 + rest.1, rest.2, rest.3)
        }
    }
}

/// The art text as lines: split on newlines, without the empty piece a
/// trailing newline would leave.
pub open spec fn spec_art_lines(s: Seq<char>) -> Seq<Seq<char>> {
    if s.len() == 0 {
        Seq::empty()
    } else if s.last() == '\n' {
        spec_split(s.drop_last(), '\n')
    } else {
        spec_split(s, '\n')
    }
}

/// `s` without its last character, if it has one.
pub open spec fn spec_pop(s: Seq<char>) -> Seq<char> {
    if s.len() == 0 {
        s
    } else {
        s.drop_last()
    }
}

/// The finish: code text and trailing comment are joined and trimmed; if a
/// trailing comment was ever opened, its last two characters are withdrawn,
/// and when more than the two opening markers were emitted it is closed with
/// the block-comment terminator.
pub open spec fn spec_finalize(body: Seq<char>, status: int) -> Seq<char> {
    let t = spec_trim_end(body);
    if status >= 1 {
        let t2 = spec_pop(spec_pop(t));
        if status > 1 {
            t2 + seq!['*', '/']
        } else {
            t2
        }
    } else {
        t
    }
}

/// The whole layout: the code split into newline-separated words with a word
/// budget of all but the last, the art split into lines, folded, finished.
pub open spec fn spec_code_to_art(code: Seq<char>, art: Seq<char>) -> Seq<char> {
    let words = spec_split(code, '\n');
    let total = words.len() - 1;
    let lines = spec_art_lines(art);
    let f = spec_lines_fold(lines, words, total, 0, 0, 0);
    spec_finalize(f.0 + f.1, f.3)
}

/// Splits a text into its lines, dropping the empty piece after a trailing
/// newline.
pub fn split_lines(chars: &Vec<char>) -> (lines: Vec<Vec<char>>)
    ensures
        lines@.len() == spec_art_lines(chars@).len(),
        forall|i: int|
            0 <= i < lines@.len() ==> #[trigger] lines@[i]@ == spec_art_lines(chars@)[i],
{
    let mut lines: Vec<Vec<char>> = Vec::new();
    if chars.len() == 0 {
        return lines;
    }
    if chars[chars.len() - 1] == '\n' {
        let head = subrange_chars(chars, 0, chars.len() - 1);
        proof {
            assert(head@ =~= chars@.drop_last());
        }
        chars_to_fill_vec(&head, '\n', &mut lines);
    } else {
        chars_to_fill_vec(chars, '\n', &mut lines);
    }
    lines
}

/// Peeling the lower end of a backward glyph run appends one glyph.
proof fn lemma_rev_range_peel(cell: Seq<char>, hi: int, lo: int)
    requires
        lo <= hi,
    ensures
        rev_range(cell, hi, lo - 1) == rev_range(cell, hi, lo) + seq![cell[lo]],
    decreases hi - lo,
{
    if hi == lo {
        assert(rev_range(cell, hi - 1, lo - 1) =~= Seq::<char>::empty());
        assert(rev_range(cell, hi, lo - 1) =~= rev_range(cell, hi, lo) + seq![cell[lo]]);
    } else {
        lemma_rev_range_peel(cell, hi - 1, lo);
        assert(seq![cell[hi]] + (rev_range(cell, hi - 1, lo) + seq![cell[lo]]) =~= (seq![cell[hi]]
            + rev_range(cell, hi - 1, lo)) + seq![cell[lo]]);
    }
}

/// Packs words into one cell and synthesizes its comment fragment; see
/// `spec_fit_cell`.
fn fit_cell(
    cell: &Vec<char>,
    words: &Vec<Vec<char>>,
    total: usize,
    np: &mut usize,
    is_last: bool,
    line_out: &mut Vec<char>,
)
    requires
        *old(np) <= total,
        total as int == words@.len() - 1,
    ensures
        ({
            let r = spec_fit_cell(cell@, views_of(words@), total as int, *old(np) as int, is_last);
            final(line_out)@ == old(line_out)@ + r.0 && *final(np) as int == r.1 && *final(np)
                <= total
        }),
{
    let ghost wv = views_of(words@);
    let ghost np0 = *old(np) as int;
    let ghost w0 = cell@.len() as int;
    let ghost p_full = spec_pack(wv, total as int, np0, w0);
    let mut ascii_len: usize = cell.len();
    let ghost mut em: Seq<char> = Seq::empty();
    proof {
        assert(old(line_out)@ + em =~= old(line_out)@);
    }
    while ascii_len >= 1 && words[*np].len() < ascii_len - 1 && *np < total
        invariant
            wv == views_of(words@),
            total as int == words@.len() - 1,
            *np <= total,
            np0 <= *np as int,
            ascii_len <= cell@.len(),
            line_out@ == old(line_out)@ + em,
            p_full == spec_pack(wv, total as int, np0, w0),
            ({
                let p = spec_pack(wv, total as int, *np as int, ascii_len as int);
                p_full.0 == em + p.0 && p_full.1 == p.1 && p_full.2 == p.2
            }),
        decreases total - *np,
    {
        let ghost p_here = spec_pack(wv, total as int, *np as int, ascii_len as int);
        let wl = words[*np].len();
        proof {
            assert(wv[*np as int] == words@[*np as int]@);
            assert(wv[*np as int].len() + 1 < ascii_len as int);
            assert(p_here == (wv[*np as int] + seq![' '] + spec_pack(
                wv,
                total as int,
                *np as int + 1,
                ascii_len as int - (wl as int + 1),
            ).0, spec_pack(
                wv,
                total as int,
                *np as int + 1,
                ascii_len as int - (wl as int + 1),
            ).1, spec_pack(
                wv,
                total as int,
                *np as int + 1,
                ascii_len as int - (wl as int + 1),
            ).2));
        }
        extend_chars(line_out, &words[*np]);
        line_out.push(' ');
        proof {
            let p_next = spec_pack(
                wv,
                total as int,
                *np as int + 1,
                ascii_len as int - (wl as int + 1),
            );
            assert(line_out@ =~= old(line_out)@ + (em + wv[*np as int] + seq![' ']));
            assert(em + (wv[*np as int] + seq![' '] + p_next.0) =~= (em + wv[*np as int]
                + seq![' ']) + p_next.0);
            em = em + wv[*np as int] + seq![' '];
        }
        ascii_len = ascii_len - wl - 1;
        *np += 1;
    }
    proof {
        let p = spec_pack(wv, total as int, *np as int, ascii_len as int);
        assert(p == (Seq::<char>::empty(), *np as int, ascii_len as int));
        assert(p_full.0 == em + Seq::<char>::empty());
        assert(em + Seq::<char>::empty() =~= em);
        assert(p_full.0 == em);
        assert(p_full.1 == *np as int);
        assert(p_full.2 == ascii_len as int);
    }
    let ghost w_rem = ascii_len as int;
    let ghost base = line_out@;
    if ascii_len > 4 {
        line_out.push('/');
        line_out.push('*');
        ascii_len -= 2;
        let ghost hi = ascii_len as int;
        while ascii_len > 2
            invariant
                2 <= ascii_len as int <= hi,
                hi <= cell@.len() - 2,
                hi == w_rem - 2,
                line_out@ == base + seq!['/', '*'] + rev_range(cell@, hi, ascii_len as int),
            decreases ascii_len,
        {
            line_out.push(cell[ascii_len]);
            proof {
                lemma_rev_range_peel(cell@, hi, ascii_len as int);
                assert((base + seq!['/', '*'] + rev_range(cell@, hi, ascii_len as int)).push(
                    cell@[ascii_len as int],
                ) =~= base + seq!['/', '*'] + (rev_range(cell@, hi, ascii_len as int) + seq![
                    cell@[ascii_len as int],
                ]));
            }
            ascii_len -= 1;
        }
        line_out.push('*');
        line_out.push('/');
        proof {
            let frag = seq!['/', '*'] + rev_range(cell@, w_rem - 2, 2) + seq!['*', '/'];
            assert(line_out@ =~= base + frag);
            assert(line_out@ =~= old(line_out)@ + (em + frag));
        }
    } else if ascii_len >= 2 && is_last {
        line_out.push('/');
        line_out.push('/');
        ascii_len -= 2;
        let ghost hi = ascii_len as int;
        while ascii_len > 0
            invariant
                0 <= ascii_len as int <= hi,
                hi <= cell@.len() - 2,
                hi == w_rem - 2,
                line_out@ == base + seq!['/', '/'] + rev_range(cell@, hi, ascii_len as int),
            decreases ascii_len,
        {
            line_out.push(cell[ascii_len]);
            proof {
                lemma_rev_range_peel(cell@, hi, ascii_len as int);
                assert((base + seq!['/', '/'] + rev_range(cell@, hi, ascii_len as int)).push(
                    cell@[ascii_len as int],
                ) =~= base + seq!['/', '/'] + (rev_range(cell@, hi, ascii_len as int) + seq![
                    cell@[ascii_len as int],
                ]));
            }
            ascii_len -= 1;
        }
        proof {
            let frag = seq!['/', '/'] + rev_range(cell@, w_rem - 2, 0);
            assert(line_out@ =~= base + frag);
            assert(line_out@ =~= old(line_out)@ + (em + frag));
        }
    } else {
        proof {
            assert(line_out@ =~= old(line_out)@ + (em + Seq::<char>::empty()));
        }
    }
}

/// Lays out one structural art line and advances the word cursor; see
/// `spec_structural_line`.
fn structural_line(
    line: &Vec<char>,
    words: &Vec<Vec<char>>,
    total: usize,
    np: &mut usize,
    out: &mut Vec<char>,
)
    requires
        *old(np) <= total,
        total as int == words@.len() - 1,
    ensures
        ({
            let r = spec_structural_line(line@, views_of(words@), total as int, *old(np) as int);
            final(out)@ == old(out)@ + r.0 && *final(np) as int == r.1 && *final(np) <= total
        }),
{
    let ghost wv = views_of(words@);
    let ghost np0 = *old(np) as int;
    let mut cells: Vec<Vec<char>> = Vec::new();
    chars_to_fill_vec(line, ' ', &mut cells);
    let ghost cv = views_of(cells@);
    proof {
        lemma_split_len(line@, ' ');
        assert(cv.len() == spec_split(line@, ' ').len());
        assert forall|i: int| 0 <= i < cv.len() implies cv[i] == spec_split(line@, ' ')[i] by {
            assert(cells@[i]@ == spec_split(line@, ' ')[i]);
        }
        assert(cv =~= spec_split(line@, ' '));
    }
    let i_last = get_last_nwhitespace_index(&cells);
    let ghost full = spec_cells_walk(cv, i_last as int, wv, total as int, 0, np0);
    let mut cur: Vec<char> = Vec::new();
    let mut j: usize = 0;
    proof {
        assert(cur@ + Seq::<char>::empty() =~= cur@);
    }
    while j < cells.len()
        invariant
            wv == views_of(words@),
            total as int == words@.len() - 1,
            cv == views_of(cells@),
            cv.len() == cells@.len(),
            j <= cells@.len(),
            *np <= total,
            i_last as int == spec_last_nonempty(cv),
            full == spec_cells_walk(cv, i_last as int, wv, total as int, 0, np0),
            ({
                let w = spec_cells_walk(cv, i_last as int, wv, total as int, j as int, *np as int);
                full.0 == cur@ + w.0 && full.1 == w.1
            }),
        decreases cells@.len() - j,
    {
        let ghost np_before = *np as int;
        let ghost cur_0 = cur@;
        let ghost w_here = spec_cells_walk(cv, i_last as int, wv, total as int, j as int, np_before);
        proof {
            assert(cells@[j as int]@ == cv[j as int]);
        }
        let ghost cell_fit: (Seq<char>, int) = if cv[j as int].len() > 0 {
            spec_fit_cell(cv[j as int], wv, total as int, np_before, j as int == i_last as int)
        } else {
            (Seq::<char>::empty(), np_before)
        };
        if cells[j].len() > 0 {
            fit_cell(&cells[j], words, total, np, j == i_last, &mut cur);
            proof {
                assert(cur@ == cur_0 + cell_fit.0);
                assert(*np as int == cell_fit.1);
            }
        } else {
            proof {
                assert(cur@ =~= cur_0 + cell_fit.0);
            }
        }
        cur.push(' ');
        proof {
            let w_next = spec_cells_walk(
                cv,
                i_last as int,
                wv,
                total as int,
                j + 1,
                cell_fit.1,
            );
            assert(w_here == (cell_fit.0 + seq![' '] + w_next.0, w_next.1));
            assert(cur@ =~= cur_0 + (cell_fit.0 + seq![' ']));
            assert(cur_0 + ((cell_fit.0 + seq![' ']) + w_next.0) =~= cur@ + w_next.0);
            assert(cur_0 + (cell_fit.0 + seq![' '] + w_next.0) =~= cur_0 + ((cell_fit.0
                + seq![' ']) + w_next.0));
        }
        j += 1;
    }
    proof {
        let w_end = spec_cells_walk(cv, i_last as int, wv, total as int, j as int, *np as int);
        assert(w_end == (Seq::<char>::empty(), *np as int));
        assert(cur@ + Seq::<char>::empty() =~= cur@);
        assert(full.0 == cur@);
        assert(full.1 == *np as int);
    }
    let trimmed = trim_end_chars(&cur);
    let ghost out_0 = out@;
    extend_chars(out, &trimmed);
    out.push('\n');
    proof {
        assert(out@ =~= out_0 + (spec_trim_end(full.0) + seq!['\n']));
    }
}

/// Folds one filler art line into the trailing comment and advances the
/// comment state; see `spec_filler_line`.
fn filler_line(line: &Vec<char>, status: &mut usize, cmt: &mut Vec<char>)
    requires
        *old(status) <= 2,
    ensures
        ({
            let r = spec_filler_line(line@, 0, *old(status) as int);
            final(cmt)@ == old(cmt)@ + r.0 && *final(status) as int == r.1 && *final(status) <= 2
        }),
{
    let ghost st0 = *old(status) as int;
    let ghost full = spec_filler_line(line@, 0, st0);
    let mut i: usize = 0;
    let ghost mut em: Seq<char> = Seq::empty();
    proof {
        assert(old(cmt)@ + em =~= old(cmt)@);
    }
    while i < line.len()
        invariant
            i <= line@.len(),
            *status <= 2,
            cmt@ == old(cmt)@ + em,
            full == spec_filler_line(line@, 0, st0),
            ({
                let r = spec_filler_line(line@, i as int, *status as int);
                full.0 == em + r.0 && full.1 == r.1
            }),
        decreases line@.len() - i,
    {
        let ghost r_here = spec_filler_line(line@, i as int, *status as int);
        let ch = line[i];
        if ch == ' ' || ch == '\t' {
            cmt.push(ch);
            proof {
                let r_next = spec_filler_line(line@, i + 1, *status as int);
                assert(r_here == (seq![ch] + r_next.0, r_next.1));
                assert(em + (seq![ch] + r_next.0) =~= (em + seq![ch]) + r_next.0);
                assert(cmt@ =~= old(cmt)@ + (em + seq![ch]));
                em = em + seq![ch];
            }
            i += 1;
        } else if *status == 0 {
            cmt.push('/');
            cmt.push('*');
            *status = 1;
            proof {
                let r_next = spec_filler_line(line@, i + 2, 1);
                assert(r_here == (seq!['/', '*'] + r_next.0, r_next.1));
                assert(em + (seq!['/', '*'] + r_next.0) =~= (em + seq!['/', '*']) + r_next.0);
                assert(cmt@ =~= old(cmt)@ + (em + seq!['/', '*']));
                em = em + seq!['/', '*'];
            }
            i += 1;
            if i < line.len() {
                i += 1;
            } else {
                proof {
                    assert(spec_filler_line(line@, i as int, 1) == spec_filler_line(
                        line@,
                        i + 1,
                        1,
                    ));
                }
            }
        } else if *status == 1 {
            cmt.push('*');
            *status = 2;
            proof {
                let r_next = spec_filler_line(line@, i + 1, 2);
                assert(r_here == (seq!['*'] + r_next.0, r_next.1));
                assert(em + (seq!['*'] + r_next.0) =~= (em + seq!['*']) + r_next.0);
                assert(cmt@ =~= old(cmt)@ + (em + seq!['*']));
                em = em + seq!['*'];
            }
            i += 1;
        } else {
            cmt.push(ch);
            proof {
                let r_next = spec_filler_line(line@, i + 1, *status as int);
                assert(r_here == (seq![ch] + r_next.0, r_next.1));
                assert(em + (seq![ch] + r_next.0) =~= (em + seq![ch]) + r_next.0);
                assert(cmt@ =~= old(cmt)@ + (em + seq![ch]));
                em = em + seq![ch];
            }
            i += 1;
        }
    }
    cmt.push('\n');
    proof {
        let r_end = spec_filler_line(line@, i as int, *status as int);
        assert(r_end == (seq!['\n'], *status as int));
        assert(em + seq!['\n'] =~= em + r_end.0);
        assert(cmt@ =~= old(cmt)@ + (em + seq!['\n']));
    }
}

/// Distributes the serialized code over the density grid, line by line, and
/// terminates the trailing comment; see `spec_code_to_art`. The grid is
/// expected to offer at least one row and the code at least one character;
/// a picture too small to absorb every code word ends with the leftover
/// words unplaced.
pub fn code_to_art(code: Vec<char>, ascii_art: Vec<char>) -> (res: Vec<char>)
    requires
        1 <= code@.len(),
        1 <= ascii_art@.len(),
    ensures
        res@ == spec_code_to_art(code@, ascii_art@),
{
    let lines_art = split_lines(&ascii_art);
    let ghost lv = views_of(lines_art@);
    proof {
        assert(lv.len() == spec_art_lines(ascii_art@).len());
        assert forall|i: int| 0 <= i < lv.len() implies lv[i] == spec_art_lines(ascii_art@)[i] by {
            assert(lines_art@[i]@ == spec_art_lines(ascii_art@)[i]);
        }
        assert(lv =~= spec_art_lines(ascii_art@));
    }
    let mut vec_code_wrds: Vec<Vec<char>> = Vec::new();
    chars_to_fill_vec(&code, '\n', &mut vec_code_wrds);
    let ghost wv = views_of(vec_code_wrds@);
    proof {
        lemma_split_len(code@, '\n');
        assert(wv.len() == spec_split(code@, '\n').len());
        assert forall|i: int| 0 <= i < wv.len() implies wv[i] == spec_split(code@, '\n')[i] by {
            assert(vec_code_wrds@[i]@ == spec_split(code@, '\n')[i]);
        }
        assert(wv =~= spec_split(code@, '\n'));
    }
    let nb_wrds_cur_line = vec_code_wrds.len() - 1;
    let ghost tot = nb_wrds_cur_line as int;
    let ghost full = spec_lines_fold(lv, wv, tot, 0, 0, 0);
    let mut string_final: Vec<char> = Vec::new();
    let mut final_cmt: Vec<char> = Vec::new();
    let mut nb_code_wrds_put: usize = 0;
    let mut final_cmt_status: usize = 0;
    let mut li: usize = 0;
    proof {
        assert(string_final@ + full.0 =~= full.0);
        assert(final_cmt@ + full.1 =~= full.1);
    }
    while li < lines_art.len()
        invariant
            lv == views_of(lines_art@),
            lv.len() == lines_art@.len(),
            wv == views_of(vec_code_wrds@),
            tot == wv.len() - 1,
            tot == nb_wrds_cur_line as int,
            nb_code_wrds_put <= nb_wrds_cur_line,
            final_cmt_status <= 2,
            li <= lines_art@.len(),
            full == spec_lines_fold(lv, wv, tot, 0, 0, 0),
            ({
                let r = spec_lines_fold(
                    lv,
                    wv,
                    tot,
                    li as int,
                    nb_code_wrds_put as int,
                    final_cmt_status as int,
                );
                full.0 == string_final@ + r.0 && full.1 == final_cmt@ + r.1 && full.2 == r.2
                    && full.3 == r.3
            }),
        decreases lines_art@.len() - li,
    {
        let ghost np_b = nb_code_wrds_put as int;
        let ghost st_b = final_cmt_status as int;
        let ghost r_here = spec_lines_fold(lv, wv, tot, li as int, np_b, st_b);
        let line = trim_end_chars(&lines_art[li]);
        proof {
            assert(lines_art@[li as int]@ == lv[li as int]);
            assert(line@ == spec_trim_end(lv[li as int]));
        }
        if nb_code_wrds_put != nb_wrds_cur_line {
            let ghost sf0 = string_final@;
            structural_line(
                &line,
                &vec_code_wrds,
                nb_wrds_cur_line,
                &mut nb_code_wrds_put,
                &mut string_final,
            );
            proof {
                let sl = spec_structural_line(line@, wv, tot, np_b);
                let r_next = spec_lines_fold(lv, wv, tot, li + 1, sl.1, st_b);
                assert(r_here == (sl.0 + r_next.0, r_next.1, r_next.2, r_next.3));
                assert(string_final@ == sf0 + sl.0);
                assert(sf0 + (sl.0 + r_next.0) =~= string_final@ + r_next.0);
            }
        } else {
            let ghost fc0 = final_cmt@;
            filler_line(&line, &mut final_cmt_status, &mut final_cmt);
            proof {
                let fl = spec_filler_line(line@, 0, st_b);
                let r_next = spec_lines_fold(lv, wv, tot, li + 1, np_b, fl.1);
                assert(r_here == (r_next.0, fl.0 + r_next.1, r_next.2, r_next.3));
                assert(final_cmt@ == fc0 + fl.0);
                assert(fc0 + (fl.0 + r_next.1) =~= final_cmt@ + r_next.1);
            }
        }
        li += 1;
    }
    proof {
        let r_end = spec_lines_fold(
            lv,
            wv,
            tot,
            li as int,
            nb_code_wrds_put as int,
            final_cmt_status as int,
        );
        assert(r_end == (
            Seq::<char>::empty(),
            Seq::<char>::empty(),
            nb_code_wrds_put as int,
            final_cmt_status as int,
        ));
        assert(string_final@ + Seq::<char>::empty() =~= string_final@);
        assert(final_cmt@ + Seq::<char>::empty() =~= final_cmt@);
        assert(full.0 == string_final@);
        assert(full.1 == final_cmt@);
        assert(full.3 == final_cmt_status as int);
    }
    extend_chars(&mut string_final, &final_cmt);
    proof {
        assert(string_final@ == full.0 + full.1);
    }
    let mut res = trim_end_chars(&string_final);
    let ghost t = res@;
    proof {
        assert(t == spec_trim_end(full.0 + full.1));
    }
    if final_cmt_status >= 1 {
        let _ = res.pop();
        proof {
            if t.len() > 0 {
                assert(res@ =~= spec_pop(t));
            } else {
                assert(res@ =~= spec_pop(t));
            }
        }
        let ghost t1 = res@;
        let _ = res.pop();
        proof {
            if t1.len() > 0 {
                assert(res@ =~= spec_pop(t1));
            } else {
                assert(res@ =~= spec_pop(t1));
            }
        }
        if final_cmt_status > 1 {
            res.push('*');
            res.push('/');
            proof {
                assert(res@ =~= spec_pop(spec_pop(t)) + seq!['*', '/']);
            }
        }
    }
    proof {
        assert(res@ == spec_finalize(full.0 + full.1, full.3));
    }
    res
}

} // verus!

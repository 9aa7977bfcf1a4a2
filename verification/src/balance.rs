//! Comment balance: counting block-comment openers and closers in the shape
//! fitter's output. Over inputs whose glyphs and code words carry no `/` or
//! `*` of their own, the fitter's synthesized fragments are the only comment
//! markers, and they come in matched pairs.

use vstd::prelude::*;

use crate::textops::is_ws;
use crate::textops::spec_split;
use crate::textops::spec_trim_end;
use crate::layout::spec_pack;
use crate::layout::rev_range;
use crate::layout::spec_fit_cell;
use crate::layout::spec_cells_walk;
use crate::layout::spec_structural_line;
use crate::layout::spec_filler_line;
use crate::layout::spec_lines_fold;

verus! {

/// How often the two-character pattern `a b` occurs in `s`, overlaps counted.
pub open spec fn count_pair(s: Seq<char>, a: char, b: char) -> int
    decreases s.len(),
{
    if s.len() < 2 {
        0
    } else {
        count_pair(s.drop_last(), a, b) + if s[s.len() - 2] == a && s.last() == b {
            1int
        } else {
            0int
        }
    }
}

/// `s` holds neither of the block-comment marker characters.
pub open spec fn no_marker_chars(s: Seq<char>) -> bool {
    forall|i: int| 0 <= i < s.len() ==> (#[trigger] s[i]) != '/' && s[i] != '*'
}

/// Pattern counting distributes over concatenation, up to the one pair that
/// may straddle the boundary.
pub proof fn lemma_count_concat(x: Seq<char>, y: Seq<char>, a: char, b: char)
    ensures
        count_pair(x + y, a, b) == count_pair(x, a, b) + count_pair(y, a, b) + (if x.len() > 0
            && y.len() > 0 && x.last() == a && y.first() == b {
            1int
        } else {
            0int
        }),
    decreases y.len(),
{
    if y.len() == 0 {
        assert(x + y =~= x);
    } else if y.len() == 1 {
        assert((x + y).drop_last() =~= x);
        if x.len() > 0 {
            assert((x + y)[(x + y).len() - 2] == x.last());
            assert((x + y).last() == y.first());
        }
    } else {
        lemma_count_concat(x, y.drop_last(), a, b);
        assert((x + y).drop_last() =~= x + y.drop_last());
        assert((x + y)[(x + y).len() - 2] == y[y.len() - 2]);
        assert((x + y).last() == y.last());
        assert(y.drop_last().first() == y.first());
    }
}

/// A text without marker characters holds no marker pattern.
pub proof fn lemma_count_no_marker(s: Seq<char>, a: char, b: char)
    requires
        a == '/' || a == '*',
        no_marker_chars(s),
    ensures
        count_pair(s, a, b) == 0,
    decreases s.len(),
{
    if s.len() >= 2 {
        lemma_count_no_marker(s.drop_last(), a, b);
        assert(s[s.len() - 2] != '/' && s[s.len() - 2] != '*');
    }
}

/// Trailing whitespace never takes part in a marker pattern, so trimming
/// keeps both counts.
pub proof fn lemma_count_trim_end(s: Seq<char>, a: char, b: char)
    requires
        a == '/' || a == '*',
        b == '/' || b == '*',
    ensures
        count_pair(spec_trim_end(s), a, b) == count_pair(s, a, b),
    decreases s.len(),
{
    if s.len() > 0 && is_ws(s.last()) {
        lemma_count_trim_end(s.drop_last(), a, b);
        if s.len() >= 2 {
            assert(s.last() != b);
        }
    }
}

/// The pieces a separator split yields hold only characters of the whole.
pub proof fn lemma_split_no_marker(s: Seq<char>, sep: char)
    requires
        no_marker_chars(s),
    ensures
        forall|i: int|
            0 <= i < spec_split(s, sep).len() ==> no_marker_chars(#[trigger] spec_split(s, sep)[i]),
    decreases s.len(),
{
    if s.len() > 0 {
        lemma_split_no_marker(s.drop_last(), sep);
        crate::textops::lemma_split_len(s.drop_last(), sep);
        assert(no_marker_chars(s.drop_last()));
        assert(s.last() != '/' && s.last() != '*');
        let r = spec_split(s.drop_last(), sep);
        if s.last() == sep {
            assert(spec_split(s, sep) == r.push(Seq::<char>::empty()));
            assert forall|i: int|
                0 <= i < spec_split(s, sep).len() implies no_marker_chars(
                #[trigger] spec_split(s, sep)[i],
            ) by {
                if i < r.len() {
                    assert(spec_split(s, sep)[i] == r[i]);
                } else {
                    assert(spec_split(s, sep)[i] == Seq::<char>::empty());
                }
            }
        } else {
            assert(spec_split(s, sep) == r.update(r.len() - 1, r.last().push(s.last())));
            assert forall|i: int|
                0 <= i < spec_split(s, sep).len() implies no_marker_chars(
                #[trigger] spec_split(s, sep)[i],
            ) by {
                if i == r.len() - 1 {
                    let piece = r.last().push(s.last());
                    assert(spec_split(s, sep)[i] == piece);
                    assert(no_marker_chars(r.last()));
                    assert forall|k: int|
                        0 <= k < piece.len() implies (#[trigger] piece[k]) != '/' && piece[k]
                        != '*' by {
                        if k < r.last().len() {
                            assert(piece[k] == r.last()[k]);
                        } else {
                            assert(piece[k] == s.last());
                        }
                    }
                } else {
                    assert(spec_split(s, sep)[i] == r[i]);
                    assert(no_marker_chars(r[i]));
                }
            }
        }
    }
}

/// Trimming keeps the absence of marker characters.
pub proof fn lemma_trim_no_marker(s: Seq<char>)
    requires
        no_marker_chars(s),
    ensures
        no_marker_chars(spec_trim_end(s)),
    decreases s.len(),
{
    if s.len() > 0 && is_ws(s.last()) {
        lemma_trim_no_marker(s.drop_last());
    }
}

/// A backward glyph run out of a marker-free cell is marker-free.
pub proof fn lemma_rev_range_no_marker(cell: Seq<char>, hi: int, lo: int)
    requires
        no_marker_chars(cell),
        0 <= lo,
        hi < cell.len(),
    ensures
        no_marker_chars(rev_range(cell, hi, lo)),
    decreases hi - lo,
{
    if hi > lo {
        lemma_rev_range_no_marker(cell, hi - 1, lo);
        assert(cell[hi] != '/' && cell[hi] != '*');
        assert(forall|i: int|
            0 <= i < rev_range(cell, hi, lo).len() ==> (#[trigger] rev_range(cell, hi, lo)[i])
                == (seq![cell[hi]] + rev_range(cell, hi - 1, lo))[i]);
    }
}

/// Marker-freedom survives concatenation.
pub proof fn lemma_no_marker_concat(x: Seq<char>, y: Seq<char>)
    requires
        no_marker_chars(x),
        no_marker_chars(y),
    ensures
        no_marker_chars(x + y),
{
    assert forall|i: int| 0 <= i < (x + y).len() implies ((#[trigger] (x + y)[i]) != '/' && (x
        + y)[i] != '*') by {
        if i < x.len() {
            assert((x + y)[i] == x[i]);
        } else {
            assert((x + y)[i] == y[i - x.len()]);
        }
    }
}

/// Word packing: the emitted text is marker-free when the words are, the
/// cursor stays within the budget, and the width never grows.
pub proof fn lemma_pack_facts(words: Seq<Seq<char>>, total: int, np: int, width: int)
    requires
        0 <= np <= total,
        total < words.len(),
        forall|i: int| 0 <= i < words.len() ==> no_marker_chars(#[trigger] words[i]),
    ensures
        ({
            let p = spec_pack(words, total, np, width);
            no_marker_chars(p.0) && np <= p.1 <= total && p.2 <= width
        }),
    decreases total - np,
{
    if words[np].len() + 1 < width && np < total {
        lemma_pack_facts(words, total, np + 1, width - (words[np].len() + 1));
        let rest = spec_pack(words, total, np + 1, width - (words[np].len() + 1));
        lemma_no_marker_concat(words[np], seq![' ']);
        lemma_no_marker_concat(words[np] + seq![' '], rest.0);
    }
}

/// The comment fragment of one cell opens exactly as many block comments as
/// it closes, over marker-free glyphs and words.
pub proof fn lemma_fit_cell_balance(
    cell: Seq<char>,
    words: Seq<Seq<char>>,
    total: int,
    np: int,
    is_last: bool,
)
    requires
        no_marker_chars(cell),
        0 <= np <= total,
        total < words.len(),
        forall|i: int| 0 <= i < words.len() ==> no_marker_chars(#[trigger] words[i]),
    ensures
        ({
            let f = spec_fit_cell(cell, words, total, np, is_last);
            count_pair(f.0, '/', '*') == count_pair(f.0, '*', '/') && np <= f.1 <= total
        }),
{
    lemma_pack_facts(words, total, np, cell.len() as int);
    let p = spec_pack(words, total, np, cell.len() as int);
    let w = p.2;
    lemma_count_no_marker(p.0, '/', '*');
    lemma_count_no_marker(p.0, '*', '/');
    if w > 4 {
        let a1 = seq!['/', '*'];
        let c1 = seq!['*', '/'];
        let inner = rev_range(cell, w - 2, 2);
        lemma_rev_range_no_marker(cell, w - 2, 2);
        lemma_count_no_marker(inner, '/', '*');
        lemma_count_no_marker(inner, '*', '/');
        assert(count_pair(a1.drop_last(), '/', '*') == 0);
        assert(count_pair(a1.drop_last(), '*', '/') == 0);
        assert(count_pair(c1.drop_last(), '/', '*') == 0);
        assert(count_pair(c1.drop_last(), '*', '/') == 0);
        assert(count_pair(a1, '/', '*') == 1);
        assert(count_pair(a1, '*', '/') == 0);
        assert(count_pair(c1, '/', '*') == 0);
        assert(count_pair(c1, '*', '/') == 1);
        lemma_count_concat(a1, inner, '/', '*');
        lemma_count_concat(a1, inner, '*', '/');
        lemma_count_concat(a1 + inner, c1, '/', '*');
        lemma_count_concat(a1 + inner, c1, '*', '/');
        if inner.len() > 0 {
            assert((a1 + inner).last() == inner.last());
            assert(inner.last() != '/' && inner.last() != '*');
            assert(inner.first() != '/' && inner.first() != '*');
        } else {
            assert(a1 + inner =~= a1);
        }
        let frag = a1 + inner + c1;
        assert(count_pair(frag, '/', '*') == 1);
        assert(count_pair(frag, '*', '/') == 1);
        lemma_count_concat(p.0, frag, '/', '*');
        lemma_count_concat(p.0, frag, '*', '/');
        if p.0.len() > 0 {
            assert(p.0.last() != '/' && p.0.last() != '*');
        }
        assert(spec_fit_cell(cell, words, total, np, is_last).0 == p.0 + frag);
    } else if w >= 2 && is_last {
        let a2 = seq!['/', '/'];
        let inner = rev_range(cell, w - 2, 0);
        lemma_rev_range_no_marker(cell, w - 2, 0);
        lemma_count_no_marker(inner, '/', '*');
        lemma_count_no_marker(inner, '*', '/');
        assert(count_pair(a2.drop_last(), '/', '*') == 0);
        assert(count_pair(a2.drop_last(), '*', '/') == 0);
        assert(count_pair(a2, '/', '*') == 0);
        assert(count_pair(a2, '*', '/') == 0);
        lemma_count_concat(a2, inner, '/', '*');
        lemma_count_concat(a2, inner, '*', '/');
        if inner.len() > 0 {
            assert(inner.first() != '/' && inner.first() != '*');
        }
        let frag = a2 + inner;
        assert(count_pair(frag, '/', '*') == 0);
        assert(count_pair(frag, '*', '/') == 0);
        lemma_count_concat(p.0, frag, '/', '*');
        lemma_count_concat(p.0, frag, '*', '/');
        if p.0.len() > 0 {
            assert(p.0.last() != '/' && p.0.last() != '*');
        }
        assert(spec_fit_cell(cell, words, total, np, is_last).0 == p.0 + frag);
    } else {
        lemma_count_concat(p.0, Seq::<char>::empty(), '/', '*');
        lemma_count_concat(p.0, Seq::<char>::empty(), '*', '/');
        assert(spec_fit_cell(cell, words, total, np, is_last).0 == p.0 + Seq::<char>::empty());
    }
}

/// The cell walk of one line stays balanced: fragments come in matched pairs
/// and the placeholder spaces keep them from touching.
pub proof fn lemma_walk_balance(
    cells: Seq<Seq<char>>,
    ilast: int,
    words: Seq<Seq<char>>,
    total: int,
    j: int,
    np: int,
)
    requires
        0 <= j,
        0 <= np <= total,
        total < words.len(),
        forall|i: int| 0 <= i < cells.len() ==> no_marker_chars(#[trigger] cells[i]),
        forall|i: int| 0 <= i < words.len() ==> no_marker_chars(#[trigger] words[i]),
    ensures
        ({
            let w = spec_cells_walk(cells, ilast, words, total, j, np);
            count_pair(w.0, '/', '*') == count_pair(w.0, '*', '/') && np <= w.1 <= total
        }),
    decreases cells.len() - j,
{
    if j >= cells.len() {
    } else {
        let cur: (Seq<char>, int) = if cells[j].len() > 0 {
            spec_fit_cell(cells[j], words, total, np, j == ilast)
        } else {
            (Seq::<char>::empty(), np)
        };
        if cells[j].len() > 0 {
            lemma_fit_cell_balance(cells[j], words, total, np, j == ilast);
        }
        lemma_walk_balance(cells, ilast, words, total, j + 1, cur.1);
        let rest = spec_cells_walk(cells, ilast, words, total, j + 1, cur.1);
        lemma_count_concat(cur.0, seq![' '], '/', '*');
        lemma_count_concat(cur.0, seq![' '], '*', '/');
        lemma_count_concat(cur.0 + seq![' '], rest.0, '/', '*');
        lemma_count_concat(cur.0 + seq![' '], rest.0, '*', '/');
        assert((cur.0 + seq![' ']).last() == ' ');
        assert(count_pair(seq![' '], '/', '*') == 0);
        assert(count_pair(seq![' '], '*', '/') == 0);
    }
}

/// One structural line is balanced, ends in a newline, and keeps the word
/// cursor within its budget.
pub proof fn lemma_structural_line_balance(
    line: Seq<char>,
    words: Seq<Seq<char>>,
    total: int,
    np: int,
)
    requires
        no_marker_chars(line),
        0 <= np <= total,
        total < words.len(),
        forall|i: int| 0 <= i < words.len() ==> no_marker_chars(#[trigger] words[i]),
    ensures
        ({
            let sl = spec_structural_line(line, words, total, np);
            count_pair(sl.0, '/', '*') == count_pair(sl.0, '*', '/') && np <= sl.1 <= total
                && sl.0.len() > 0 && sl.0.last() == '\n'
        }),
{
    let cells = spec_split(line, ' ');
    lemma_split_no_marker(line, ' ');
    lemma_walk_balance(cells, crate::textops::spec_last_nonempty(cells), words, total, 0, np);
    let w = spec_cells_walk(cells, crate::textops::spec_last_nonempty(cells), words, total, 0, np);
    lemma_count_trim_end(w.0, '/', '*');
    lemma_count_trim_end(w.0, '*', '/');
    lemma_count_concat(spec_trim_end(w.0), seq!['\n'], '/', '*');
    lemma_count_concat(spec_trim_end(w.0), seq!['\n'], '*', '/');
    assert(count_pair(seq!['\n'], '/', '*') == 0);
    assert(count_pair(seq!['\n'], '*', '/') == 0);
    assert((spec_trim_end(w.0) + seq!['\n']).last() == '\n');
}

/// The trailing-comment state never steps backward.
pub proof fn lemma_filler_status_mono(line: Seq<char>, i: int, status: int)
    requires
        0 <= i,
        0 <= status,
    ensures
        spec_filler_line(line, i, status).1 >= status,
    decreases line.len() + 2 - i,
{
    if i < line.len() {
        let ch = line[i];
        if ch == ' ' || ch == '\t' {
            lemma_filler_status_mono(line, i + 1, status);
        } else if status == 0 {
            lemma_filler_status_mono(line, i + 2, 1);
        } else if status == 1 {
            lemma_filler_status_mono(line, i + 1, 2);
        } else {
            lemma_filler_status_mono(line, i + 1, status);
        }
    }
}

/// A filler line that leaves the comment state closed emitted only whitespace
/// and newlines, never a marker.
pub proof fn lemma_filler_ws(line: Seq<char>, i: int)
    requires
        0 <= i,
        no_marker_chars(line),
        spec_filler_line(line, i, 0).1 == 0,
    ensures
        no_marker_chars(spec_filler_line(line, i, 0).0),
    decreases line.len() + 2 - i,
{
    if i >= line.len() {
        assert(no_marker_chars(seq!['\n']));
    } else {
        let ch = line[i];
        if ch == ' ' || ch == '\t' {
            lemma_filler_ws(line, i + 1);
            lemma_no_marker_concat(seq![ch], spec_filler_line(line, i + 1, 0).0);
        } else {
            lemma_filler_status_mono(line, i + 2, 1);
            assert(false);
        }
    }
}

/// The fold's comment state never steps backward either.
pub proof fn lemma_fold_status_mono(
    lines: Seq<Seq<char>>,
    words: Seq<Seq<char>>,
    total: int,
    j: int,
    np: int,
    status: int,
)
    requires
        0 <= j,
        0 <= status,
    ensures
        spec_lines_fold(lines, words, total, j, np, status).3 >= status,
    decreases lines.len() - j,
{
    if j < lines.len() {
        let l = spec_trim_end(lines[j]);
        if np != total {
            let sl = spec_structural_line(l, words, total, np);
            lemma_fold_status_mono(lines, words, total, j + 1, sl.1, status);
        } else {
            let fl = spec_filler_line(l, 0, status);
            lemma_filler_status_mono(l, 0, status);
            lemma_fold_status_mono(lines, words, total, j + 1, np, fl.1);
        }
    }
}

/// Every line of a fold that never opens the trailing comment is balanced,
/// and the trailing comment itself stays marker-free.
pub proof fn lemma_fold_balance(
    lines: Seq<Seq<char>>,
    words: Seq<Seq<char>>,
    total: int,
    j: int,
    np: int,
)
    requires
        0 <= j,
        0 <= np <= total,
        total < words.len(),
        forall|i: int| 0 <= i < lines.len() ==> no_marker_chars(#[trigger] lines[i]),
        forall|i: int| 0 <= i < words.len() ==> no_marker_chars(#[trigger] words[i]),
        spec_lines_fold(lines, words, total, j, np, 0).3 == 0,
    ensures
        ({
            let f = spec_lines_fold(lines, words, total, j, np, 0);
            count_pair(f.0, '/', '*') == count_pair(f.0, '*', '/') && no_marker_chars(f.1) && (
            f.0.len() == 0 || f.0.last() == '\n')
        }),
    decreases lines.len() - j,
{
    if j >= lines.len() {
        assert(no_marker_chars(Seq::<char>::empty()));
    } else {
        let l = spec_trim_end(lines[j]);
        lemma_trim_no_marker(lines[j]);
        if np != total {
            lemma_structural_line_balance(l, words, total, np);
            let sl = spec_structural_line(l, words, total, np);
            lemma_fold_balance(lines, words, total, j + 1, sl.1);
            let rest = spec_lines_fold(lines, words, total, j + 1, sl.1, 0);
            lemma_count_concat(sl.0, rest.0, '/', '*');
            lemma_count_concat(sl.0, rest.0, '*', '/');
            assert(sl.0.last() == '\n');
            if rest.0.len() > 0 {
                assert((sl.0 + rest.0).last() == rest.0.last());
            } else {
                assert(sl.0 + rest.0 =~= sl.0);
            }
        } else {
            let fl = spec_filler_line(l, 0, 0);
            lemma_filler_status_mono(l, 0, 0);
            lemma_fold_status_mono(lines, words, total, j + 1, np, fl.1);
            assert(fl.1 == 0);
            lemma_filler_ws(l, 0);
            lemma_fold_balance(lines, words, total, j + 1, np);
            let rest = spec_lines_fold(lines, words, total, j + 1, np, 0);
            lemma_no_marker_concat(fl.0, rest.1);
        }
    }
}

/// Comment balance: on a run whose art glyphs and code characters carry no
/// comment-marker characters of their own and whose picture rows are all
/// consumed structurally (the trailing comment never opens), the output holds
/// exactly as many block-comment openers as closers.
pub proof fn lemma_comment_balance(code: Seq<char>, art: Seq<char>)
    requires
        no_marker_chars(code),
        no_marker_chars(art),
        spec_lines_fold(
            crate::layout::spec_art_lines(art),
            spec_split(code, '\n'),
            spec_split(code, '\n').len() - 1,
            0,
            0,
            0,
        ).3 == 0,
    ensures
        count_pair(crate::layout::spec_code_to_art(code, art), '/', '*') == count_pair(
            crate::layout::spec_code_to_art(code, art),
            '*',
            '/',
        ),
{
    let words = spec_split(code, '\n');
    let total = words.len() - 1;
    crate::textops::lemma_split_len(code, '\n');
    lemma_split_no_marker(code, '\n');
    let lines = crate::layout::spec_art_lines(art);
    if art.len() > 0 && art.last() == '\n' {
        assert(no_marker_chars(art.drop_last())) by {
            assert(forall|i: int|
                0 <= i < art.drop_last().len() ==> (#[trigger] art.drop_last()[i]) == art[i]);
        }
        lemma_split_no_marker(art.drop_last(), '\n');
    } else if art.len() > 0 {
        lemma_split_no_marker(art, '\n');
    }
    lemma_fold_balance(lines, words, total, 0, 0);
    let f = spec_lines_fold(lines, words, total, 0, 0, 0);
    lemma_count_concat(f.0, f.1, '/', '*');
    lemma_count_concat(f.0, f.1, '*', '/');
    lemma_count_no_marker(f.1, '/', '*');
    lemma_count_no_marker(f.1, '*', '/');
    lemma_count_trim_end(f.0 + f.1, '/', '*');
    lemma_count_trim_end(f.0 + f.1, '*', '/');
    assert(crate::layout::spec_code_to_art(code, art) == spec_trim_end(f.0 + f.1));
}

} // verus!

//! Character-sequence groundwork: the whitespace alphabet, the non-whitespace
//! projection of a text, splitting a text on a separator, trimming, and the
//! subsequence relation used to state token preservation.

use vstd::prelude::*;

verus! {

/// The whitespace alphabet of the token pipeline: space, newline, tab.
pub open spec fn is_ws(c: char) -> bool {
    c == ' ' || c == '\n' || c == '\t'
}

/// Runtime test for the whitespace alphabet.
pub fn ws_char(c: char) -> (b: bool)
    ensures
        b == is_ws(c),
{
    c == ' ' || c == '\n' || c == '\t'
}

/// The subsequence of `s` made of its non-whitespace characters, in order.
pub open spec fn nws(s: Seq<char>) -> Seq<char>
    decreases s.len(),
{
    if s.len() == 0 {
        Seq::empty()
    } else if is_ws(s.last()) {
        nws(s.drop_last())
    } else {
        nws(s.drop_last()).push(s.last())
    }
}

/// Extending a prefix by one character extends its non-whitespace projection
/// by that character exactly when the character is not whitespace.
pub proof fn lemma_nws_take_step(s: Seq<char>, k: int)
    requires
        0 <= k < s.len(),
    ensures
        nws(s.take(k + 1)) == if is_ws(s[k]) {
            nws(s.take(k))
        } else {
            nws(s.take(k)).push(s[k])
        },
{
    assert(s.take(k + 1).drop_last() =~= s.take(k));
    assert(s.take(k + 1).last() == s[k]);
}

/// The whole text is its own length-`len` prefix.
pub proof fn lemma_nws_take_full(s: Seq<char>)
    ensures
        nws(s.take(s.len() as int)) == nws(s),
{
    assert(s.take(s.len() as int) =~= s);
}

/// No character of the non-whitespace projection is whitespace.
pub proof fn lemma_nws_no_ws(s: Seq<char>)
    ensures
        forall|i: int| 0 <= i < nws(s).len() ==> !is_ws(#[trigger] nws(s)[i]),
    decreases s.len(),
{
    if s.len() > 0 {
        lemma_nws_no_ws(s.drop_last());
        let d = nws(s.drop_last());
        if !is_ws(s.last()) {
            assert(nws(s) == d.push(s.last()));
            assert(forall|i: int| 0 <= i < d.len() ==> #[trigger] d.push(s.last())[i] == d[i]);
            assert(d.push(s.last())[d.len() as int] == s.last());
        }
    }
}

/// The non-whitespace projection distributes over concatenation.
pub proof fn lemma_nws_concat(a: Seq<char>, b: Seq<char>)
    ensures
        nws(a + b) == nws(a) + nws(b),
    decreases b.len(),
{
    if b.len() == 0 {
        assert(a + b =~= a);
        assert(nws(a) + b =~= nws(a));
        assert(nws(a) + nws(b) =~= nws(a));
    } else {
        lemma_nws_concat(a, b.drop_last());
        assert((a + b).drop_last() =~= a + b.drop_last());
        assert((a + b).last() == b.last());
        if is_ws(b.last()) {
            assert(nws(a) + nws(b) =~= nws(a) + nws(b.drop_last()));
        } else {
            assert(nws(a) + nws(b) =~= (nws(a) + nws(b.drop_last())).push(b.last()));
        }
    }
}

/// The projection of a prefix is a prefix of the projection.
pub proof fn lemma_nws_take_prefix(s: Seq<char>, j: int)
    requires
        0 <= j <= s.len(),
    ensures
        nws(s.take(j)).is_prefix_of(nws(s)),
    decreases s.len() - j,
{
    if j == s.len() {
        assert(s.take(j) =~= s);
        assert(nws(s).is_prefix_of(nws(s)));
    } else {
        lemma_nws_take_step(s, j);
        lemma_nws_take_prefix(s, j + 1);
        if is_ws(s[j]) {
        } else {
            assert(nws(s.take(j)).is_prefix_of(nws(s.take(j + 1))));
        }
    }
}

/// A text without whitespace is its own non-whitespace projection.
pub proof fn lemma_nws_id_nonws(s: Seq<char>)
    requires
        forall|i: int| 0 <= i < s.len() ==> !is_ws(#[trigger] s[i]),
    ensures
        nws(s) == s,
    decreases s.len(),
{
    if s.len() > 0 {
        lemma_nws_id_nonws(s.drop_last());
        assert(nws(s.drop_last()).push(s.last()) =~= s);
    }
}

/// A text of whitespace alone has an empty non-whitespace projection.
pub proof fn lemma_nws_all_ws(s: Seq<char>)
    requires
        forall|i: int| 0 <= i < s.len() ==> is_ws(#[trigger] s[i]),
    ensures
        nws(s) == Seq::<char>::empty(),
    decreases s.len(),
{
    if s.len() > 0 {
        lemma_nws_all_ws(s.drop_last());
    }
}

/// `a` occurs inside `b` in order, possibly with other characters between.
pub open spec fn is_subseq_of(a: Seq<char>, b: Seq<char>) -> bool
    decreases a.len() + b.len(),
{
    if a.len() == 0 {
        true
    } else if b.len() == 0 {
        false
    } else if a.first() == b.first() {
        is_subseq_of(a.drop_first(), b.drop_first())
    } else {
        is_subseq_of(a, b.drop_first())
    }
}

/// A subsequence stays one under a new leading character.
pub proof fn lemma_subseq_cons(a: Seq<char>, b: Seq<char>, c: char)
    requires
        is_subseq_of(a, b),
    ensures
        is_subseq_of(a, seq![c] + b),
    decreases b.len(), 1nat,
{
    let cb = seq![c] + b;
    assert(cb.len() > 0 && cb.first() == c);
    assert(cb.drop_first() =~= b);
    if a.len() == 0 {
    } else if a.first() == c {
        lemma_subseq_drop_left(a, b);
    } else {
    }
}

/// Dropping the head of a subsequence keeps it a subsequence.
pub proof fn lemma_subseq_drop_left(a: Seq<char>, b: Seq<char>)
    requires
        is_subseq_of(a, b),
        a.len() > 0,
    ensures
        is_subseq_of(a.drop_first(), b),
    decreases b.len(), 0nat,
{
    if b.len() > 0 {
        if a.first() == b.first() {
            lemma_subseq_cons(a.drop_first(), b.drop_first(), b.first());
            assert(seq![b.first()] + b.drop_first() =~= b);
        } else {
            lemma_subseq_drop_left(a, b.drop_first());
            lemma_subseq_cons(a.drop_first(), b.drop_first(), b.first());
            assert(seq![b.first()] + b.drop_first() =~= b);
        }
    }
}

/// Every text is a subsequence of itself.
pub proof fn lemma_subseq_refl(a: Seq<char>)
    ensures
        is_subseq_of(a, a),
    decreases a.len(),
{
    if a.len() > 0 {
        lemma_subseq_refl(a.drop_first());
    }
}

/// A subsequence survives any text glued on the left of its host.
pub proof fn lemma_subseq_grow_left(a: Seq<char>, c: Seq<char>, b: Seq<char>)
    requires
        is_subseq_of(a, b),
    ensures
        is_subseq_of(a, c + b),
    decreases c.len(),
{
    if c.len() == 0 {
        assert(c + b =~= b);
    } else {
        lemma_subseq_grow_left(a, c.drop_first(), b);
        lemma_subseq_cons(a, c.drop_first() + b, c.first());
        assert(seq![c.first()] + (c.drop_first() + b) =~= c + b);
    }
}

/// Subsequences compose across concatenation.
pub proof fn lemma_subseq_concat(a1: Seq<char>, a2: Seq<char>, b1: Seq<char>, b2: Seq<char>)
    requires
        is_subseq_of(a1, b1),
        is_subseq_of(a2, b2),
    ensures
        is_subseq_of(a1 + a2, b1 + b2),
    decreases b1.len() + a1.len(),
{
    if a1.len() == 0 {
        assert(a1 + a2 =~= a2);
        lemma_subseq_grow_left(a2, b1, b2);
    } else if b1.len() == 0 {
    } else if a1.first() == b1.first() {
        lemma_subseq_concat(a1.drop_first(), a2, b1.drop_first(), b2);
        assert((a1 + a2).drop_first() =~= a1.drop_first() + a2);
        assert((b1 + b2).drop_first() =~= b1.drop_first() + b2);
        assert((a1 + a2).first() == (b1 + b2).first());
    } else {
        lemma_subseq_concat(a1, a2, b1.drop_first(), b2);
        assert((b1 + b2).drop_first() =~= b1.drop_first() + b2);
        assert((a1 + a2).first() != (b1 + b2).first());
    }
}

/// A subsequence survives any text glued on the right of its host.
pub proof fn lemma_subseq_grow_right(a: Seq<char>, b: Seq<char>, c: Seq<char>)
    requires
        is_subseq_of(a, b),
    ensures
        is_subseq_of(a, b + c),
{
    lemma_subseq_concat(a, Seq::empty(), b, c);
    assert(a + Seq::<char>::empty() =~= a);
}

/// A prefix is a subsequence.
pub proof fn lemma_prefix_subseq(a: Seq<char>, b: Seq<char>)
    requires
        a.is_prefix_of(b),
    ensures
        is_subseq_of(a, b),
{
    lemma_subseq_refl(a);
    lemma_subseq_grow_right(a, a, b.skip(a.len() as int));
    assert(a + b.skip(a.len() as int) =~= b);
}

/// Subsequence is transitive.
pub proof fn lemma_subseq_trans(a: Seq<char>, b: Seq<char>, c: Seq<char>)
    requires
        is_subseq_of(a, b),
        is_subseq_of(b, c),
    ensures
        is_subseq_of(a, c),
    decreases c.len(),
{
    if b.len() == 0 {
    } else if c.len() == 0 {
    } else if b.first() == c.first() {
        if a.len() == 0 {
        } else if a.first() == b.first() {
            lemma_subseq_trans(a.drop_first(), b.drop_first(), c.drop_first());
        } else {
            lemma_subseq_trans(a, b.drop_first(), c.drop_first());
            lemma_subseq_drop_left(a, c.drop_first());
            if a.first() == c.first() {
            } else {
            }
        }
    } else {
        lemma_subseq_trans(a, b, c.drop_first());
        lemma_subseq_cons(a, c.drop_first(), c.first());
        assert(seq![c.first()] + c.drop_first() =~= c);
    }
}

/// The non-whitespace projection is a subsequence of the text.
pub proof fn lemma_nws_subseq(s: Seq<char>)
    ensures
        is_subseq_of(nws(s), s),
    decreases s.len(),
{
    if s.len() > 0 {
        lemma_nws_subseq(s.drop_last());
        if is_ws(s.last()) {
            lemma_subseq_grow_right(nws(s), s.drop_last(), seq![s.last()]);
        } else {
            lemma_subseq_refl(seq![s.last()]);
            lemma_subseq_concat(nws(s.drop_last()), seq![s.last()], s.drop_last(), seq![s.last()]);
            assert(nws(s.drop_last()) + seq![s.last()] =~= nws(s));
        }
        assert(s.drop_last() + seq![s.last()] =~= s);
    }
}

/// The pieces of `s` between occurrences of `sep`, in order; always at least
/// one piece, and an empty piece for each leading, trailing or doubled
/// separator.
pub open spec fn spec_split(s: Seq<char>, sep: char) -> Seq<Seq<char>>
    decreases s.len(),
{
    if s.len() == 0 {
        seq![Seq::<char>::empty()]
    } else if s.last() == sep {
        spec_split(s.drop_last(), sep).push(Seq::<char>::empty())
    } else {
        let r = spec_split(s.drop_last(), sep);
        r.update(r.len() - 1, r.last().push(s.last()))
    }
}

/// Splitting yields at least one piece.
pub proof fn lemma_split_len(s: Seq<char>, sep: char)
    ensures
        spec_split(s, sep).len() >= 1,
    decreases s.len(),
{
    if s.len() > 0 {
        lemma_split_len(s.drop_last(), sep);
    }
}

/// Splits `chars` on `separator` into `vec_to_fill`, replacing its previous
/// contents: one piece per separator-free run, empty pieces included.
pub fn chars_to_fill_vec(chars: &Vec<char>, separator: char, vec_to_fill: &mut Vec<Vec<char>>)
    ensures
        final(vec_to_fill)@.len() == spec_split(chars@, separator).len(),
        forall|i: int|
            0 <= i < final(vec_to_fill)@.len() ==> #[trigger] final(vec_to_fill)@[i]@ == spec_split(
                chars@,
                separator,
            )[i],
{
    vec_to_fill.clear();
    vec_to_fill.push(Vec::new());
    let mut j: usize = 0;
    while j < chars.len()
        invariant
            j <= chars@.len(),
            vec_to_fill@.len() == spec_split(chars@.take(j as int), separator).len(),
            forall|i: int|
                0 <= i < vec_to_fill@.len() ==> #[trigger] vec_to_fill@[i]@ == spec_split(
                    chars@.take(j as int),
                    separator,
                )[i],
        decreases chars@.len() - j,
    {
        let c = chars[j];
        proof {
            lemma_split_len(chars@.take(j as int), separator);
            assert(chars@.take(j + 1).drop_last() =~= chars@.take(j as int));
            assert(chars@.take(j + 1).last() == chars@[j as int]);
        }
        if c == separator {
            vec_to_fill.push(Vec::new());
        } else {
            let mut piece = vec_to_fill.pop().unwrap();
            piece.push(c);
            vec_to_fill.push(piece);
            proof {
                let ss = spec_split(chars@.take(j as int), separator);
                assert(spec_split(chars@.take(j + 1), separator) =~= ss.update(
                    ss.len() - 1,
                    ss.last().push(chars@[j as int]),
                ));
            }
        }
        j += 1;
    }
    proof {
        assert(chars@.take(chars@.len() as int) =~= chars@);
    }
}

/// The sequences a vector of character vectors stands for.
pub open spec fn views_of(s: Seq<Vec<char>>) -> Seq<Seq<char>> {
    s.map_values(|v: Vec<char>| v@)
}

/// Index of the last non-empty piece, or 0 when every piece is empty.
pub open spec fn spec_last_nonempty(cells: Seq<Seq<char>>) -> int
    decreases cells.len(),
{
    if cells.len() <= 1 {
        0
    } else if cells.last().len() > 0 {
        cells.len() - 1
    } else {
        spec_last_nonempty(cells.drop_last())
    }
}

/// Index of the last non-empty piece of `words`, or 0 when every piece is
/// empty.
pub fn get_last_nwhitespace_index(words: &Vec<Vec<char>>) -> (r: usize)
    requires
        words@.len() >= 1,
    ensures
        r < words@.len(),
        forall|k: int| r < k < words@.len() ==> #[trigger] words@[k]@.len() == 0,
        words@[r as int]@.len() == 0 ==> r == 0,
        r as int == spec_last_nonempty(views_of(words@)),
{
    let ghost cells = views_of(words@);
    proof {
        assert(cells.len() == words@.len());
        assert(cells.take(cells.len() as int) =~= cells);
    }
    let mut i: usize = words.len() - 1;
    while words[i].len() == 0 && i > 0
        invariant
            cells == views_of(words@),
            cells.len() == words@.len(),
            i < words@.len(),
            forall|k: int| i < k < words@.len() ==> #[trigger] words@[k]@.len() == 0,
            spec_last_nonempty(cells) == spec_last_nonempty(cells.take(i + 1)),
        decreases i,
    {
        proof {
            assert(cells.take(i + 1).last() == cells[i as int]);
            assert(cells[i as int] == words@[i as int]@);
            assert(cells.take(i + 1).drop_last() =~= cells.take(i as int));
        }
        i -= 1;
    }
    proof {
        assert(cells.take(i + 1).last() == cells[i as int]);
        if words@[i as int]@.len() == 0 {
            assert(i == 0);
            assert(spec_last_nonempty(cells.take(1)) == 0);
        } else {
            assert(spec_last_nonempty(cells.take(i + 1)) == i);
        }
    }
    i
}

/// `s` with every trailing whitespace character removed.
pub open spec fn spec_trim_end(s: Seq<char>) -> Seq<char>
    decreases s.len(),
{
    if s.len() == 0 {
        s
    } else if is_ws(s.last()) {
        spec_trim_end(s.drop_last())
    } else {
        s
    }
}

/// The copy of `s[start..end]`.
pub fn subrange_chars(s: &Vec<char>, start: usize, end: usize) -> (r: Vec<char>)
    requires
        start <= end <= s@.len(),
    ensures
        r@ == s@.subrange(start as int, end as int),
{
    let mut r: Vec<char> = Vec::new();
    let mut k: usize = start;
    while k < end
        invariant
            start <= k <= end <= s@.len(),
            r@ == s@.subrange(start as int, k as int),
        decreases end - k,
    {
        r.push(s[k]);
        proof {
            assert(s@.subrange(start as int, k + 1) =~= s@.subrange(start as int, k as int).push(
                s@[k as int],
            ));
        }
        k += 1;
    }
    r
}

/// A fresh copy of `s` with trailing whitespace removed.
pub fn trim_end_chars(s: &Vec<char>) -> (r: Vec<char>)
    ensures
        r@ == spec_trim_end(s@),
{
    let mut k: usize = s.len();
    proof {
        assert(s@.take(k as int) =~= s@);
    }
    while k > 0 && ws_char(s[k - 1])
        invariant
            k <= s@.len(),
            spec_trim_end(s@) == spec_trim_end(s@.take(k as int)),
        decreases k,
    {
        proof {
            assert(s@.take(k as int).drop_last() =~= s@.take(k - 1));
            assert(s@.take(k as int).last() == s@[k - 1]);
        }
        k -= 1;
    }
    proof {
        if k > 0 {
            assert(s@.take(k as int).last() == s@[k - 1]);
        }
        assert(spec_trim_end(s@.take(k as int)) =~= s@.take(k as int));
    }
    subrange_chars(s, 0, k)
}

} // verus!

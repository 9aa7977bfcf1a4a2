//! Whitespace rectifier: replays the canonical text's non-whitespace
//! characters over a roughly reconstructed text, keeping the rough text's own
//! whitespace and line-break layout, and appending any canonical content the
//! rough text had no room for.

use vstd::prelude::*;

use crate::textops::is_ws;
use crate::textops::ws_char;
use crate::textops::nws;
use crate::textops::lemma_nws_take_step;
use crate::textops::lemma_nws_take_full;
use crate::textops::lemma_nws_take_prefix;
use crate::textops::lemma_nws_no_ws;
use crate::textops::lemma_nws_id_nonws;
use crate::textops::lemma_nws_concat;

verus! {

/// Number of non-whitespace characters strictly before position `k` of `s`.
pub open spec fn nws_rank(s: Seq<char>, k: int) -> int {
    nws(s.take(k)).len() as int
}

/// `r` with its `n`-th non-whitespace character overwritten by the `n`-th
/// non-whitespace character of `c`, for every `n` both texts reach; whitespace
/// positions are untouched.
pub open spec fn spec_substitute(c: Seq<char>, r: Seq<char>) -> Seq<char> {
    Seq::new(
        r.len(),
        |k: int|
            if is_ws(r[k]) {
                r[k]
            } else if nws_rank(r, k) < nws(c).len() {
                nws(c)[nws_rank(r, k)]
            } else {
                r[k]
            },
    )
}

/// The rectified text: the substitution above, then the canonical
/// non-whitespace characters that found no position in `r`, appended verbatim.
pub open spec fn spec_rectify(c: Seq<char>, r: Seq<char>) -> Seq<char> {
    let m = if nws(r).len() <= nws(c).len() {
        nws(r).len() as int
    } else {
        nws(c).len() as int
    };
    spec_substitute(c, r) + nws(c).skip(m)
}

/// What the non-whitespace projection of a substituted prefix is: the
/// canonical projection as far as the rough text's ranks reach into it, and
/// the rough text's own surplus past that.
pub proof fn lemma_substitute_nws(c: Seq<char>, r: Seq<char>, j: int)
    requires
        0 <= j <= r.len(),
    ensures
        nws_rank(r, j) <= nws(c).len() ==> nws(spec_substitute(c, r).take(j)) == nws(c).take(
            nws_rank(r, j),
        ),
        nws_rank(r, j) > nws(c).len() ==> nws(spec_substitute(c, r).take(j)) == nws(c) + nws(
            r.take(j),
        ).skip(nws(c).len() as int),
    decreases j,
{
    let sub = spec_substitute(c, r);
    let ncl = nws(c).len() as int;
    if j == 0 {
        assert(r.take(0) =~= Seq::<char>::empty());
        assert(sub.take(0) =~= Seq::<char>::empty());
        assert(nws(c).take(0) =~= Seq::<char>::empty());
    } else {
        lemma_substitute_nws(c, r, j - 1);
        lemma_nws_take_step(r, j - 1);
        lemma_nws_take_step(sub, j - 1);
        let rk = nws_rank(r, j - 1);
        if is_ws(r[j - 1]) {
            assert(sub[j - 1] == r[j - 1]);
            assert(nws_rank(r, j) == rk);
            assert(nws(r.take(j)) == nws(r.take(j - 1)));
            assert(nws(sub.take(j)) == nws(sub.take(j - 1)));
        } else {
            assert(nws(r.take(j)) == nws(r.take(j - 1)).push(r[j - 1]));
            assert(nws_rank(r, j) == rk + 1);
            if rk < ncl {
                assert(sub[j - 1] == nws(c)[rk]);
                lemma_nws_no_ws(c);
                assert(!is_ws(sub[j - 1]));
                assert(nws(sub.take(j)) == nws(sub.take(j - 1)).push(nws(c)[rk]));
                assert(nws(c).take(rk).push(nws(c)[rk]) =~= nws(c).take(rk + 1));
                if rk + 1 > ncl {
                } else {
                }
            } else {
                assert(sub[j - 1] == r[j - 1]);
                assert(nws(sub.take(j)) == nws(sub.take(j - 1)).push(r[j - 1]));
                if rk == ncl {
                    assert(nws(sub.take(j - 1)) == nws(c).take(ncl));
                    assert(nws(c).take(ncl) =~= nws(c));
                    assert(nws(r.take(j - 1)).len() == rk);
                    assert(nws(r.take(j)).skip(ncl) =~= seq![r[j - 1]]);
                    assert(nws(c).push(r[j - 1]) =~= nws(c) + nws(r.take(j)).skip(ncl));
                } else {
                    assert(nws(sub.take(j - 1)) == nws(c) + nws(r.take(j - 1)).skip(ncl));
                    assert(nws(r.take(j)).skip(ncl) =~= nws(r.take(j - 1)).skip(ncl).push(
                        r[j - 1],
                    ));
                    assert((nws(c) + nws(r.take(j - 1)).skip(ncl)).push(r[j - 1]) =~= nws(c) + nws(
                        r.take(j),
                    ).skip(ncl));
                }
            }
        }
    }
}

/// Rectifier content fidelity: when the rough and canonical texts carry the
/// same number of non-whitespace characters, rectification makes the
/// non-whitespace sequence exactly the canonical one, at the rough text's own
/// length and with the rough text's own line breaks.
pub proof fn lemma_rectify_content_fidelity(c: Seq<char>, r: Seq<char>)
    requires
        nws(c).len() == nws(r).len(),
    ensures
        spec_rectify(c, r).len() == r.len(),
        nws(spec_rectify(c, r)) == nws(c),
        forall|k: int|
            0 <= k < r.len() ==> ((#[trigger] spec_rectify(c, r)[k] == '\n') <==> (r[k] == '\n')),
{
    let sub = spec_substitute(c, r);
    let ncl = nws(c).len() as int;
    assert(nws(c).skip(ncl) =~= Seq::<char>::empty());
    assert(spec_rectify(c, r) =~= sub);
    lemma_nws_take_full(r);
    lemma_substitute_nws(c, r, r.len() as int);
    assert(nws_rank(r, r.len() as int) == ncl);
    assert(nws(sub.take(sub.len() as int)) == nws(c).take(ncl));
    lemma_nws_take_full(sub);
    assert(nws(c).take(ncl) =~= nws(c));
    assert forall|k: int| 0 <= k < r.len() implies ((#[trigger] spec_rectify(c, r)[k] == '\n')
        <==> (r[k] == '\n')) by {
        if !is_ws(r[k]) {
            lemma_nws_take_prefix(r, k);
            if nws_rank(r, k) < ncl {
                lemma_nws_no_ws(c);
                assert(!is_ws(sub[k]));
            }
        }
    }
}

/// The canonical non-whitespace sequence is a prefix of the rectified text's
/// non-whitespace sequence, whatever the rough text was.
pub proof fn lemma_rectify_nws_prefix(c: Seq<char>, r: Seq<char>)
    ensures
        nws(c).is_prefix_of(nws(spec_rectify(c, r))),
{
    let sub = spec_substitute(c, r);
    let ncl = nws(c).len() as int;
    let p = nws(r).len() as int;
    let m: int = if p <= ncl {
        p
    } else {
        ncl
    };
    let tail = nws(c).skip(m);
    lemma_nws_concat(sub, tail);
    lemma_nws_no_ws(c);
    lemma_nws_id_nonws(tail);
    lemma_nws_take_full(r);
    lemma_nws_take_full(sub);
    lemma_substitute_nws(c, r, r.len() as int);
    assert(nws_rank(r, r.len() as int) == p);
    if p <= ncl {
        assert(nws(sub) == nws(c).take(p));
        assert(nws(spec_rectify(c, r)) =~= nws(c).take(p) + nws(c).skip(p));
        assert(nws(c).take(p) + nws(c).skip(p) =~= nws(c));
        assert(nws(spec_rectify(c, r)).take(ncl) =~= nws(c));
    } else {
        assert(nws(sub) == nws(c) + nws(r).skip(ncl));
        assert(tail =~= Seq::<char>::empty());
        assert(nws(spec_rectify(c, r)) =~= nws(c) + nws(r).skip(ncl));
        assert(nws(spec_rectify(c, r)).take(ncl) =~= nws(c));
    }
}

/// Walks the canonical and rough texts with two cursors, skipping whitespace
/// runs in both, and overwrites each non-whitespace character of the rough
/// text with the canonical one at the same non-whitespace rank; canonical
/// content left over once the rough text is exhausted is appended verbatim.
pub fn rectify_text(correct_text: &Vec<char>, extracted_text: &mut Vec<char>)
    ensures
        final(extracted_text)@ == spec_rectify(correct_text@, old(extracted_text)@),
{
    let ghost c = correct_text@;
    let ghost r0 = old(extracted_text)@;
    let len1 = correct_text.len();
    let len2 = extracted_text.len();
    let mut i1: usize = 0;
    let mut i2: usize = 0;
    proof {
        assert(c.take(0) =~= Seq::<char>::empty());
        assert(r0.take(0) =~= Seq::<char>::empty());
    }
    while i1 < len1 && i2 < len2
        invariant
            c == correct_text@,
            len1 == c.len(),
            len2 == r0.len(),
            i1 <= len1,
            i2 <= len2,
            extracted_text@.len() == r0.len(),
            nws(c.take(i1 as int)).len() == nws(r0.take(i2 as int)).len(),
            forall|k: int| i2 <= k < r0.len() ==> extracted_text@[k] == r0[k],
            forall|k: int|
                0 <= k < i2 ==> extracted_text@[k] == #[trigger] spec_substitute(c, r0)[k],
        decreases len1 - i1 + len2 - i2,
    {
        let ghost i1_entry = i1 as int;
        let ghost i2_entry = i2 as int;
        while i1 < len1 && ws_char(correct_text[i1])
            invariant
                c == correct_text@,
                len1 == c.len(),
                i1_entry <= i1 as int,
                i1 <= len1,
                nws(c.take(i1 as int)).len() == nws(r0.take(i2 as int)).len(),
            decreases len1 - i1,
        {
            proof {
                lemma_nws_take_step(c, i1 as int);
            }
            i1 += 1;
        }
        while i2 < len2 && ws_char(extracted_text[i2])
            invariant
                len2 == r0.len(),
                i2_entry <= i2 as int,
                i2 <= len2,
                extracted_text@.len() == r0.len(),
                nws(c.take(i1 as int)).len() == nws(r0.take(i2 as int)).len(),
                forall|k: int| i2 <= k < r0.len() ==> extracted_text@[k] == r0[k],
                forall|k: int|
                    0 <= k < i2 ==> extracted_text@[k] == #[trigger] spec_substitute(c, r0)[k],
            decreases len2 - i2,
        {
            proof {
                lemma_nws_take_step(r0, i2 as int);
                assert(extracted_text@[i2 as int] == r0[i2 as int]);
                assert(is_ws(r0[i2 as int]));
                assert(spec_substitute(c, r0)[i2 as int] == r0[i2 as int]);
            }
            i2 += 1;
        }
        if i2 < len2 && i1 < len1 {
            let ghost rk = nws_rank(r0, i2 as int);
            proof {
                assert(!is_ws(c[i1 as int]));
                assert(extracted_text@[i2 as int] == r0[i2 as int]);
                assert(!is_ws(r0[i2 as int]));
                lemma_nws_take_step(c, i1 as int);
                lemma_nws_take_prefix(c, i1 + 1);
                assert(nws(c.take(i1 + 1)) == nws(c.take(i1 as int)).push(c[i1 as int]));
                assert(nws(c.take(i1 + 1)).len() == rk + 1);
                assert(rk + 1 <= nws(c).len());
                assert(nws(c.take(i1 + 1)).is_prefix_of(nws(c)));
                assert(nws(c)[rk] == nws(c.take(i1 + 1))[rk]);
                assert(nws(c)[rk] == c[i1 as int]);
                assert(spec_substitute(c, r0)[i2 as int] == c[i1 as int]);
                lemma_nws_take_step(r0, i2 as int);
            }
            extracted_text[i2] = correct_text[i1];
            i1 += 1;
            i2 += 1;
        }
    }
    proof {
        let sub = spec_substitute(c, r0);
        if i2 == len2 {
            lemma_nws_take_full(r0);
        } else {
            assert(i1 == len1);
            lemma_nws_take_full(c);
            assert forall|k: int| i2 <= k < r0.len() implies extracted_text@[k] == sub[k] by {
                if !is_ws(r0[k]) {
                    lemma_nws_take_prefix(r0.take(k), i2 as int);
                    assert(r0.take(k).take(i2 as int) =~= r0.take(i2 as int));
                    assert(nws_rank(r0, k) >= nws(r0.take(i2 as int)).len());
                    assert(nws_rank(r0, k) >= nws(c).len());
                }
            }
        }
        assert(extracted_text@ =~= sub);
    }
    let ghost m_a = nws(c.take(i1 as int)).len() as int;
    let ghost i1_a = i1 as int;
    proof {
        assert(nws(c.take(i1_a)).skip(m_a) =~= Seq::<char>::empty());
        assert(extracted_text@ =~= spec_substitute(c, r0) + nws(c.take(i1_a)).skip(m_a));
    }
    while i1 < len1
        invariant
            c == correct_text@,
            len1 == c.len(),
            i1_a <= i1 as int <= len1,
            m_a == nws(c.take(i1_a)).len(),
            nws(c.take(i1_a)).len() <= nws(c.take(i1 as int)).len(),
            extracted_text@ == spec_substitute(c, r0) + nws(c.take(i1 as int)).skip(m_a),
        decreases len1 - i1,
    {
        proof {
            lemma_nws_take_step(c, i1 as int);
        }
        if !ws_char(correct_text[i1]) {
            extracted_text.push(correct_text[i1]);
            proof {
                assert(nws(c.take(i1 + 1)) == nws(c.take(i1 as int)).push(c[i1 as int]));
                assert(nws(c.take(i1 + 1)).skip(m_a) =~= nws(c.take(i1 as int)).skip(m_a).push(
                    c[i1 as int],
                ));
                assert((spec_substitute(c, r0) + nws(c.take(i1 as int)).skip(m_a)).push(
                    c[i1 as int],
                ) =~= spec_substitute(c, r0) + nws(c.take(i1 + 1)).skip(m_a));
            }
        }
        i1 += 1;
    }
    proof {
        lemma_nws_take_full(c);
        let ncl = nws(c).len() as int;
        let p = nws(r0).len() as int;
        let m: int = if p <= ncl {
            p
        } else {
            ncl
        };
        lemma_nws_take_prefix(c, i1_a);
        if i2 == len2 {
            lemma_nws_take_full(r0);
            assert(m_a == p);
            assert(m_a <= ncl);
        } else {
            assert(i1_a == len1);
            assert(m_a == ncl);
            lemma_nws_take_prefix(r0, i2 as int);
            assert(nws(r0.take(i2 as int)).len() <= p);
            assert(m_a <= p);
        }
        assert(m_a == m);
        assert(extracted_text@ == spec_substitute(c, r0) + nws(c).skip(m));
    }
}

} // verus!

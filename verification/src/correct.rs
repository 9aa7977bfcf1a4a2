//! Alignment corrector: walks adjacent-character pairs of the original text
//! and of a roughly reconstructed text in lock-step. Agreeing pairs pass
//! through; where the streams diverge on one of the two-character operators
//! `<=`, `>=`, `==`, the operator is re-emitted whole between line breaks, so
//! a later word split can never cut it in half; any other divergence accepts
//! the rough pair unchanged.

use vstd::prelude::*;

verus! {

/// The two-character operators that must never be split.
pub open spec fn is_exception(a: char, b: char) -> bool {
    (a == '<' && b == '=') || (a == '>' && b == '=') || (a == '=' && b == '=')
}

/// Runtime test for the operator exceptions.
pub fn exception_pair(a: char, b: char) -> (x: bool)
    ensures
        x == is_exception(a, b),
{
    (a == '<' && b == '=') || (a == '>' && b == '=') || (a == '=' && b == '=')
}

/// The adjacent-character pairs of both texts agree at position `i`.
pub open spec fn pair_match(c: Seq<char>, r: Seq<char>, i: int) -> bool {
    c[i] == r[i] && c[i + 1] == r[i + 1]
}

/// The pair streams diverge at `i` on an operator exception of the original.
pub open spec fn exc_at(c: Seq<char>, r: Seq<char>, i: int) -> bool {
    !pair_match(c, r, i) && is_exception(c[i], c[i + 1])
}

/// How many lock-step comparisons the walk makes: it stops one pair short of
/// the original's pair stream, or when the rough pair stream runs out.
pub open spec fn cc_steps(c: Seq<char>, r: Seq<char>) -> int {
    if c.len() - 2 <= r.len() - 1 {
        c.len() - 2
    } else {
        r.len() - 1
    }
}

/// What one comparison emits: the original's second pair character on
/// agreement, the whole operator followed by a line break on an exception
/// divergence, the rough pair's second character otherwise.
pub open spec fn cc_chunk(c: Seq<char>, r: Seq<char>, i: int) -> Seq<char> {
    if pair_match(c, r, i) {
        seq![c[i + 1]]
    } else if is_exception(c[i], c[i + 1]) {
        seq![c[i], c[i + 1], '\n']
    } else {
        seq![r[i + 1]]
    }
}

/// The output after `i` comparisons: each one appends its chunk, and an
/// exception divergence first turns the character just before the operator
/// into a line break.
pub open spec fn cc_upto(c: Seq<char>, r: Seq<char>, i: int) -> Seq<char>
    decreases i,
{
    if i <= 0 {
        seq![r[0]]
    } else {
        let prev = cc_upto(c, r, i - 1);
        let prev2 = if exc_at(c, r, i - 1) {
            prev.update(prev.len() - 1, '\n')
        } else {
            prev
        };
        prev2 + cc_chunk(c, r, i - 1)
    }
}

/// The corrected text: the full walk, closed by the original character one
/// past the last compared pair.
pub open spec fn spec_correct(c: Seq<char>, r: Seq<char>) -> Seq<char> {
    cc_upto(c, r, cc_steps(c, r)).push(c[cc_steps(c, r) + 1])
}

/// Walks overlapping adjacent-character pairs of `code` and `bad_code` in
/// lock-step and repairs split operator exceptions; see `spec_correct`.
pub fn correct_exceptions(code: &Vec<char>, bad_code: &Vec<char>) -> (out: Vec<char>)
    requires
        code@.len() >= 2,
        bad_code@.len() >= 1,
    ensures
        out@ == spec_correct(code@, bad_code@),
{
    let mut out: Vec<char> = Vec::new();
    out.push(bad_code[0]);
    let mut i: usize = 0;
    let mut j: usize = 0;
    while i < code.len() - 2 && j < bad_code.len() - 1
        invariant
            code@.len() >= 2,
            bad_code@.len() >= 1,
            j == i,
            i as int <= cc_steps(code@, bad_code@),
            out@ == cc_upto(code@, bad_code@, i as int),
            out@.len() >= 1,
        decreases code@.len() - i,
    {
        let ghost prev = out@;
        if code[i] == bad_code[j] && code[i + 1] == bad_code[j + 1] {
            out.push(code[i + 1]);
            proof {
                assert(pair_match(code@, bad_code@, i as int));
                assert(out@ =~= prev + cc_chunk(code@, bad_code@, i as int));
            }
        } else if exception_pair(code[i], code[i + 1]) {
            let k = out.len() - 1;
            out[k] = '\n';
            out.push(code[i]);
            out.push(code[i + 1]);
            out.push('\n');
            proof {
                assert(exc_at(code@, bad_code@, i as int));
                assert(out@ =~= prev.update(prev.len() - 1, '\n') + cc_chunk(
                    code@,
                    bad_code@,
                    i as int,
                ));
            }
        } else {
            out.push(bad_code[j + 1]);
            proof {
                assert(!pair_match(code@, bad_code@, i as int));
                assert(!exc_at(code@, bad_code@, i as int));
                assert(out@ =~= prev + cc_chunk(code@, bad_code@, i as int));
            }
        }
        i += 1;
        j += 1;
    }
    proof {
        assert(i as int == cc_steps(code@, bad_code@));
    }
    out.push(code[i + 1]);
    out
}

/// The walk under no exception divergence: it reproduces the rough text's
/// first `i + 1` characters.
proof fn lemma_cc_upto_no_exc(c: Seq<char>, r: Seq<char>, i: int)
    requires
        c.len() >= 2,
        r.len() >= 1,
        0 <= i <= cc_steps(c, r),
        forall|j: int| 0 <= j < i ==> !exc_at(c, r, j),
    ensures
        cc_upto(c, r, i) == r.take(i + 1),
    decreases i,
{
    if i == 0 {
        assert(cc_upto(c, r, 0) =~= r.take(1));
    } else {
        lemma_cc_upto_no_exc(c, r, i - 1);
        assert(!exc_at(c, r, i - 1));
        if pair_match(c, r, i - 1) {
            assert(cc_chunk(c, r, i - 1) == seq![c[i]]);
            assert(c[i] == r[i]);
        } else {
            assert(cc_chunk(c, r, i - 1) == seq![r[i]]);
        }
        assert(r.take(i) + seq![r[i]] =~= r.take(i + 1));
    }
}

/// Correction idempotence, on a rough text of the original's length in which
/// the walk finds no exception split: a second run of the corrector over its
/// own output changes nothing.
pub proof fn lemma_correct_idempotent(c: Seq<char>, r: Seq<char>)
    requires
        c.len() >= 2,
        r.len() == c.len(),
        forall|j: int| 0 <= j < cc_steps(c, r) ==> !exc_at(c, r, j),
    ensures
        spec_correct(c, spec_correct(c, r)) == spec_correct(c, r),
{
    let n = c.len() as int;
    let steps = cc_steps(c, r);
    assert(steps == n - 2);
    lemma_cc_upto_no_exc(c, r, steps);
    let o = spec_correct(c, r);
    assert(o == r.take(n - 1).push(c[n - 1]));
    assert(o.len() == n);
    assert(forall|k: int| 0 <= k < n - 1 ==> o[k] == r[k]);
    assert(o[n - 1] == c[n - 1]);
    let steps2 = cc_steps(c, o);
    assert(steps2 == n - 2);
    assert forall|j: int| 0 <= j < steps2 implies !exc_at(c, o, j) by {
        assert(o[j] == r[j]);
        assert(o[j + 1] == r[j + 1]);
        assert(!exc_at(c, r, j));
    }
    lemma_cc_upto_no_exc(c, o, steps2);
    assert(spec_correct(c, o) == o.take(n - 1).push(c[n - 1]));
    assert(o.take(n - 1) =~= r.take(n - 1));
    assert(spec_correct(c, o) == o);
}

/// A rough text that agrees with the original everywhere passes through the
/// corrector unchanged: no split is found and none is introduced.
pub proof fn lemma_correct_agreeing_fixed(c: Seq<char>)
    requires
        c.len() >= 2,
    ensures
        spec_correct(c, c) == c,
{
    let n = c.len() as int;
    let steps = cc_steps(c, c);
    assert(steps == n - 2);
    assert forall|j: int| 0 <= j < steps implies !exc_at(c, c, j) by {
        assert(pair_match(c, c, j));
    }
    lemma_cc_upto_no_exc(c, c, steps);
    assert(spec_correct(c, c) == c.take(n - 1).push(c[n - 1]));
    assert(c.take(n - 1).push(c[n - 1]) =~= c);
}

} // verus!

//! Syntax serializer: renders a parsed syntax tree back into a canonical,
//! newline-separated token text. Comments are dropped, string literals and
//! attributes pass verbatim, type expressions stay atomic, and grouped token
//! trees are rebuilt child by child with comma-newline separators, then
//! repaired by the alignment corrector and the whitespace rectifier.

use vstd::prelude::*;

use crate::correct::correct_exceptions;
use crate::correct::spec_correct;
use crate::rectify::rectify_text;
use crate::rectify::spec_rectify;
use crate::textops::subrange_chars;
use crate::textops::is_ws;
use crate::textops::nws;
use crate::textops::lemma_nws_all_ws;
use crate::textops::lemma_nws_concat;
use crate::textops::lemma_nws_subseq;

verus! {

/// The node categories the renderer distinguishes.
#[derive(Clone, Copy, PartialEq, Eq, Structural, Debug)]
pub enum NodeKind {
    LineComment,
    BlockComment,
    StringLiteral,
    InnerAttributeItem,
    TypeParameters,
    GenericType,
    Lifetime,
    ReferenceType,
    TokenTree,
    Identifier,
    Other,
}

/// One node of the parsed tree: a category, a span into the source text, and
/// the ordered child nodes.
#[derive(Debug)]
pub struct SyntaxNode {
    pub kind: NodeKind,
    pub start: usize,
    pub end: usize,
    pub children: Vec<SyntaxNode>,
}

/// Well-formedness of a node over a source of `len` characters: spans lie
/// inside the source and inside the parent, children come in order, and a
/// token tree has at least an opening and a closing delimiter, every one of
/// its children carrying at least one character.
pub open spec fn wf_node(n: SyntaxNode, len: nat) -> bool
    decreases n,
{
    &&& n.start <= n.end <= len
    &&& forall|i: int| 0 <= i < n.children@.len() ==> wf_node(#[trigger] n.children@[i], len)
    &&& forall|i: int|
        0 <= i < n.children@.len() ==> n.start <= (#[trigger] n.children@[i]).start
            && n.children@[i].end <= n.end
    &&& forall|i: int|
        0 <= i < n.children@.len() - 1 ==> (#[trigger] n.children@[i]).end <= n.children@[i
            + 1].start
    &&& (n.kind == NodeKind::TokenTree ==> n.children@.len() >= 1 && n.end - n.start >= 2
        && forall|i: int|
        0 <= i < n.children@.len() ==> (#[trigger] n.children@[i]).start < n.children@[i].end)
}

/// The source text under a node's span.
pub open spec fn span_text(code: Seq<char>, n: SyntaxNode) -> Seq<char> {
    code.subrange(n.start as int, n.end as int)
}

/// A lone delimiter character, which ends a token tree's child walk.
pub open spec fn is_delim_text(t: Seq<char>) -> bool {
    t.len() == 1 && (t[0] == '(' || t[0] == ')' || t[0] == '[' || t[0] == ']')
}

/// A reference was taken right at or before this position, so the walk must
/// restore the `&` that span arithmetic loses.
pub open spec fn amp_at(code: Seq<char>, pos: int) -> bool {
    code[pos - 1] == '&' || code[pos] == '&'
}

/// The comma-newline separator follows a child unless it is one of the last
/// two, or it is an identifier immediately followed by another token tree (a
/// call chain that must not be split).
pub open spec fn tt_separator(n: SyntaxNode, i: int) -> Seq<char> {
    if i < n.children@.len() - 2 && !(n.children@[i].kind == NodeKind::Identifier
        && n.children@[i + 1].kind == NodeKind::TokenTree) {
        seq![',', '\n']
    } else {
        Seq::empty()
    }
}

/// What the token-tree walk emits from child `i` on: a restored `&` where one
/// was lost, then nothing more if the child is a bare delimiter, else the
/// child's rendering, its separator, and the rest of the walk.
pub open spec fn spec_tt_children(code: Seq<char>, n: SyntaxNode, i: int) -> Seq<char>
    decreases n, n.children@.len() + 1 - i,
{
    if i < 1 || i >= n.children@.len() {
        Seq::empty()
    } else {
        let child = n.children@[i];
        let amp: Seq<char> = if amp_at(code, child.start as int) {
            seq!['&']
        } else {
            Seq::empty()
        };
        if is_delim_text(span_text(code, child)) {
            amp
        } else {
            amp + spec_render(code, child) + tt_separator(n, i) + spec_tt_children(code, n, i + 1)
        }
    }
}

/// The rough text of a token tree before repair: the opening delimiter, the
/// child walk, and the closing child on a line of its own.
pub open spec fn spec_tt_rough(code: Seq<char>, n: SyntaxNode) -> Seq<char>
    decreases n, n.children@.len() + 1,
{
    span_text(code, n.children@[0]) + spec_tt_children(code, n, 1) + seq!['\n'] + span_text(
        code,
        n.children@[n.children@.len() - 1],
    ) + seq!['\n']
}

/// The repaired rendering of a token tree: the rough child walk, passed
/// through the alignment corrector and the whitespace rectifier against the
/// tree's own span text.
#[verifier::opaque]
pub open spec fn spec_tt_render(code: Seq<char>, n: SyntaxNode) -> Seq<char>
    decreases n, n.children@.len() + 2,
{
    spec_rectify(span_text(code, n), spec_correct(span_text(code, n), spec_tt_rough(code, n)))
}

/// One non-delimiter step of the token-tree walk, unfolded.
pub proof fn lemma_tt_children_step(code: Seq<char>, n: SyntaxNode, i: int)
    requires
        1 <= i < n.children@.len(),
        !is_delim_text(span_text(code, n.children@[i])),
    ensures
        spec_tt_children(code, n, i) == (if amp_at(code, n.children@[i].start as int) {
            seq!['&']
        } else {
            Seq::<char>::empty()
        }) + spec_render(code, n.children@[i]) + tt_separator(n, i) + spec_tt_children(
            code,
            n,
            i + 1,
        ),
{
}

/// One loop step of the token-tree walk, lifted to the accumulated rough
/// text.
pub proof fn lemma_tt_walk_step(
    code: Seq<char>,
    n: SyntaxNode,
    i: int,
    rough_0: Seq<char>,
    rough_now: Seq<char>,
    target: Seq<char>,
)
    requires
        1 <= i < n.children@.len(),
        !is_delim_text(span_text(code, n.children@[i])),
        rough_now == rough_0 + (if amp_at(code, n.children@[i].start as int) {
            seq!['&']
        } else {
            Seq::<char>::empty()
        }) + spec_render(code, n.children@[i]) + tt_separator(n, i),
        target == rough_0 + spec_tt_children(code, n, i),
    ensures
        target == rough_now + spec_tt_children(code, n, i + 1),
{
    lemma_tt_children_step(code, n, i);
    let amp: Seq<char> = if amp_at(code, n.children@[i].start as int) {
        seq!['&']
    } else {
        Seq::<char>::empty()
    };
    assert(rough_0 + (amp + spec_render(code, n.children@[i]) + tt_separator(n, i)
        + spec_tt_children(code, n, i + 1)) =~= ((rough_0 + amp) + spec_render(
        code,
        n.children@[i],
    ) + tt_separator(n, i)) + spec_tt_children(code, n, i + 1));
    assert(rough_now =~= (rough_0 + amp) + spec_render(code, n.children@[i]) + tt_separator(n, i));
}

/// The concatenated renderings of the children from `i` on.
pub open spec fn spec_structural_children(code: Seq<char>, n: SyntaxNode, i: int) -> Seq<char>
    decreases n, n.children@.len() - i,
{
    if i < 0 || i >= n.children@.len() {
        Seq::empty()
    } else {
        spec_render(code, n.children@[i]) + spec_structural_children(code, n, i + 1)
    }
}

/// The canonical rendering of a node: comments vanish, literals and
/// attributes pass verbatim, type expressions stay atomic with a trailing
/// space, token trees are rebuilt and then repaired by the corrector and the
/// rectifier, leaves land on their own line, and every other node is the
/// concatenation of its children.
pub open spec fn spec_render(code: Seq<char>, n: SyntaxNode) -> Seq<char>
    decreases n, n.children@.len() + 3,
{
    match n.kind {
        NodeKind::LineComment => Seq::empty(),
        NodeKind::BlockComment => Seq::empty(),
        NodeKind::StringLiteral => span_text(code, n),
        NodeKind::InnerAttributeItem => span_text(code, n) + seq!['\n'],
        NodeKind::TypeParameters => span_text(code, n) + seq![' '],
        NodeKind::GenericType => span_text(code, n) + seq![' '],
        NodeKind::Lifetime => span_text(code, n) + seq![' '],
        NodeKind::ReferenceType => span_text(code, n) + seq![' '],
        NodeKind::TokenTree => spec_tt_render(code, n),
        _ => {
            if n.children@.len() == 0 {
                span_text(code, n) + seq!['\n']
            } else {
                spec_structural_children(code, n, 0)
            }
        },
    }
}

/// Appends a copy of `src` to `dst`.
pub fn extend_chars(dst: &mut Vec<char>, src: &Vec<char>)
    ensures
        final(dst)@ == old(dst)@ + src@,
{
    let mut k: usize = 0;
    proof {
        assert(old(dst)@ + src@.take(0) =~= old(dst)@);
    }
    while k < src.len()
        invariant
            k <= src@.len(),
            dst@ == old(dst)@ + src@.take(k as int),
        decreases src@.len() - k,
    {
        dst.push(src[k]);
        proof {
            assert((old(dst)@ + src@.take(k as int)).push(src@[k as int]) =~= old(dst)@ + src@.take(
                k + 1,
            ));
        }
        k += 1;
    }
    proof {
        assert(src@.take(src@.len() as int) =~= src@);
    }
}

/// Renders a well-formed syntax tree into its canonical token text.
#[verifier::rlimit(100)]
#[verifier::spinoff_prover]
pub fn ast_2_string(code: &Vec<char>, root: &SyntaxNode) -> (out: Vec<char>)
    requires
        wf_node(*root, code@.len()),
    ensures
        out@ == spec_render(code@, *root),
    decreases *root,
{
    match root.kind {
        NodeKind::LineComment => Vec::new(),
        NodeKind::BlockComment => Vec::new(),
        NodeKind::StringLiteral => subrange_chars(code, root.start, root.end),
        NodeKind::InnerAttributeItem => {
            let mut v = subrange_chars(code, root.start, root.end);
            v.push('\n');
            proof {
                assert(v@ =~= span_text(code@, *root) + seq!['\n']);
            }
            v
        },
        NodeKind::TypeParameters | NodeKind::GenericType | NodeKind::Lifetime
            | NodeKind::ReferenceType => {
            let mut v = subrange_chars(code, root.start, root.end);
            v.push(' ');
            proof {
                assert(v@ =~= span_text(code@, *root) + seq![' ']);
            }
            v
        },
        NodeKind::TokenTree => {
            let nb = root.children.len();
            let first = &root.children[0];
            let mut rough = subrange_chars(code, first.start, first.end);
            let ghost target = span_text(code@, root.children@[0]) + spec_tt_children(
                code@,
                *root,
                1,
            );
            let mut i: usize = 1;
            let mut done: bool = false;
            while i < nb && !done
                invariant
                    wf_node(*root, code@.len()),
                    root.kind == NodeKind::TokenTree,
                    nb == root.children@.len(),
                    1 <= i <= nb,
                    target == span_text(code@, root.children@[0]) + spec_tt_children(
                        code@,
                        *root,
                        1,
                    ),
                    !done ==> target == rough@ + spec_tt_children(code@, *root, i as int),
                    done ==> target == rough@,
                decreases nb - i, (if done { 0int } else { 1int }),
            {
                let ghost child_g = root.children@[i as int];
                proof {
                    assert(wf_node(child_g, code@.len()));
                    assert(root.children@[i - 1].end <= child_g.start);
                    assert(root.children@[i - 1].start < root.children@[i - 1].end);
                    assert(child_g.start < child_g.end);
                    assert(child_g.end <= root.end);
                    assert(1 <= child_g.start < code@.len());
                }
                let cs = root.children[i].start;
                let ghost amp: Seq<char> = if amp_at(code@, child_g.start as int) {
                    seq!['&']
                } else {
                    Seq::<char>::empty()
                };
                let ghost rough_0 = rough@;
                if code[cs - 1] == '&' || code[cs] == '&' {
                    rough.push('&');
                    proof {
                        assert(rough@ =~= rough_0 + amp);
                    }
                } else {
                    proof {
                        assert(rough@ =~= rough_0 + amp);
                    }
                }
                let child = &root.children[i];
                let one_char = child.end - child.start == 1;
                let c0 = code[child.start];
                let delim = one_char && (c0 == '(' || c0 == ')' || c0 == '[' || c0 == ']');
                proof {
                    assert(span_text(code@, child_g).len() == child_g.end - child_g.start);
                    if one_char {
                        assert(span_text(code@, child_g)[0] == code@[child_g.start as int]);
                    }
                    assert(delim == is_delim_text(span_text(code@, child_g)));
                }
                if delim {
                    done = true;
                    proof {
                        assert(spec_tt_children(code@, *root, i as int) == amp);
                    }
                } else {
                    let rendered = ast_2_string(code, child);
                    let ghost rough_1 = rough@;
                    extend_chars(&mut rough, &rendered);
                    proof {
                        assert(rough@ == rough_1 + spec_render(code@, child_g));
                    }
                    let ghost rough_2 = rough@;
                    let mut sep_empty = true;
                    if nb >= 2 && i < nb - 2 {
                        let ki = root.children[i].kind;
                        let kn = root.children[i + 1].kind;
                        let chain = match ki {
                            NodeKind::Identifier => match kn {
                                NodeKind::TokenTree => true,
                                _ => false,
                            },
                            _ => false,
                        };
                        if !chain {
                            rough.push(',');
                            rough.push('\n');
                            sep_empty = false;
                        }
                    }
                    proof {
                        if sep_empty {
                            assert(tt_separator(*root, i as int) == Seq::<char>::empty());
                        } else {
                            assert(tt_separator(*root, i as int) == seq![',', '\n']);
                        }
                        assert(rough@ =~= rough_2 + tt_separator(*root, i as int));
                        assert(rough@ == rough_0 + amp + spec_render(code@, child_g)
                            + tt_separator(*root, i as int)) by {
                            assert((rough_0 + amp) + spec_render(code@, child_g) + tt_separator(
                                *root,
                                i as int,
                            ) =~= rough_0 + amp + spec_render(code@, child_g) + tt_separator(
                                *root,
                                i as int,
                            ));
                        }
                        lemma_tt_walk_step(code@, *root, i as int, rough_0, rough@, target);
                    }
                    i += 1;
                }
            }
            proof {
                if !done {
                    assert(spec_tt_children(code@, *root, i as int) == Seq::<char>::empty());
                    assert(rough@ + Seq::<char>::empty() =~= rough@);
                }
                assert(rough@ == target);
            }
            rough.push('\n');
            let last = &root.children[nb - 1];
            let closing = subrange_chars(code, last.start, last.end);
            extend_chars(&mut rough, &closing);
            rough.push('\n');
            proof {
                assert(rough@ =~= spec_tt_rough(code@, *root));
            }
            let span_vec = subrange_chars(code, root.start, root.end);
            proof {
                assert(span_vec@.len() >= 2);
                assert(span_text(code@, root.children@[0]).len() >= 1);
                assert(rough@.len() >= 1);
            }
            let mut corrected = correct_exceptions(&span_vec, &rough);
            rectify_text(&span_vec, &mut corrected);
            proof {
                reveal(spec_tt_render);
                assert(corrected@ == spec_tt_render(code@, *root));
            }
            corrected
        },
        NodeKind::Identifier | NodeKind::Other => {
            if root.children.len() == 0 {
                let mut v = subrange_chars(code, root.start, root.end);
                v.push('\n');
                proof {
                    assert(v@ =~= span_text(code@, *root) + seq!['\n']);
                }
                v
            } else {
                let nb = root.children.len();
                let mut out: Vec<char> = Vec::new();
                let mut i: usize = 0;
                proof {
                    assert(out@ + spec_structural_children(code@, *root, 0)
                        =~= spec_structural_children(code@, *root, 0));
                }
                while i < nb
                    invariant
                        wf_node(*root, code@.len()),
                        nb == root.children@.len(),
                        i <= nb,
                        spec_structural_children(code@, *root, 0) == out@
                            + spec_structural_children(code@, *root, i as int),
                    decreases nb - i,
                {
                    let ghost child_g = root.children@[i as int];
                    proof {
                        assert(wf_node(child_g, code@.len()));
                    }
                    let rendered = ast_2_string(code, &root.children[i]);
                    let ghost out_0 = out@;
                    extend_chars(&mut out, &rendered);
                    proof {
                        assert(spec_structural_children(code@, *root, i as int) == spec_render(
                            code@,
                            child_g,
                        ) + spec_structural_children(code@, *root, i + 1));
                        assert(out_0 + (spec_render(code@, child_g) + spec_structural_children(
                            code@,
                            *root,
                            i + 1,
                        )) =~= out@ + spec_structural_children(code@, *root, i + 1));
                    }
                    i += 1;
                }
                proof {
                    assert(spec_structural_children(code@, *root, nb as int)
                        == Seq::<char>::empty());
                    assert(out@ + Seq::<char>::empty() =~= out@);
                }
                out
            }
        },
    }
}

/// No node of the tree is a comment node.
pub open spec fn no_comment_nodes(n: SyntaxNode) -> bool
    decreases n,
{
    &&& n.kind != NodeKind::LineComment
    &&& n.kind != NodeKind::BlockComment
    &&& forall|i: int| 0 <= i < n.children@.len() ==> no_comment_nodes(#[trigger] n.children@[i])
}

/// In every node that renders as the concatenation of its children, the
/// stretches of the span that no child covers hold only whitespace, as they
/// do in a tree a parser built over the source.
pub open spec fn gaps_all_ws(code: Seq<char>, n: SyntaxNode) -> bool
    decreases n,
{
    &&& ((n.kind == NodeKind::Identifier || n.kind == NodeKind::Other) && n.children@.len() > 0
        ==> {
        let m = n.children@.len();
        &&& (forall|k: int|
            n.start <= k < n.children@[0].start ==> is_ws(#[trigger] code[k]))
        &&& (forall|i: int, k: int|
            0 <= i < m - 1 && (#[trigger] n.children@[i]).end <= k < n.children@[i + 1].start
                ==> is_ws(#[trigger] code[k]))
        &&& (forall|k: int| n.children@[m - 1].end <= k < n.end ==> is_ws(#[trigger] code[k]))
    })
    &&& forall|i: int| 0 <= i < n.children@.len() ==> gaps_all_ws(code, #[trigger] n.children@[i])
}

/// Token preservation along the child walk of a structural node, from child
/// `i` on: the non-whitespace text between `pos` and the node's end is a
/// subsequence of the children's concatenated renderings.
#[verifier::rlimit(100)]
#[verifier::spinoff_prover]
proof fn lemma_structural_preservation(code: Seq<char>, n: SyntaxNode, i: int, pos: int)
    requires
        wf_node(n, code.len()),
        no_comment_nodes(n),
        gaps_all_ws(code, n),
        n.kind == NodeKind::Identifier || n.kind == NodeKind::Other,
        n.children@.len() > 0,
        0 <= i <= n.children@.len(),
        0 <= n.start <= pos,
        i < n.children@.len() ==> pos <= n.children@[i].start,
        i == n.children@.len() ==> pos <= n.end,
        forall|k: int|
            pos <= k < (if i < n.children@.len() {
                n.children@[i].start as int
            } else {
                n.end as int
            }) ==> is_ws(#[trigger] code[k]),
    ensures
        crate::textops::is_subseq_of(
            nws(code.subrange(pos, n.end as int)),
            spec_structural_children(code, n, i),
        ),
    decreases n, n.children@.len() - i,
{
    let m = n.children@.len() as int;
    if i == m {
        let region = code.subrange(pos, n.end as int);
        assert forall|k: int| 0 <= k < region.len() implies is_ws(#[trigger] region[k]) by {
            assert(region[k] == code[pos + k]);
        }
        lemma_nws_all_ws(region);
        assert(spec_structural_children(code, n, i) == Seq::<char>::empty());
    } else {
        let child = n.children@[i];
        assert(wf_node(child, code.len()));
        assert(no_comment_nodes(child));
        assert(gaps_all_ws(code, child));
        let cspan = code.subrange(child.start as int, child.end as int);
        let rest = code.subrange(child.end as int, n.end as int);
        lemma_region_nws(code, pos, child.start as int, child.end as int, n.end as int);
        lemma_token_preservation(code, child);
        assert(cspan == span_text(code, child));
        if i + 1 < m {
            assert(n.children@[i].end <= n.children@[i + 1].start);
        }
        lemma_structural_preservation(code, n, i + 1, child.end as int);
        crate::textops::lemma_subseq_concat(
            nws(cspan),
            nws(rest),
            spec_render(code, child),
            spec_structural_children(code, n, i + 1),
        );
        assert(spec_structural_children(code, n, i) == spec_render(code, child)
            + spec_structural_children(code, n, i + 1));
    }
}

/// The non-whitespace text of a region whose lead-in holds only whitespace
/// splits at the two cut points.
proof fn lemma_region_nws(code: Seq<char>, pos: int, a: int, b: int, end: int)
    requires
        0 <= pos <= a <= b <= end <= code.len(),
        forall|k: int| pos <= k < a ==> is_ws(#[trigger] code[k]),
    ensures
        nws(code.subrange(pos, end)) == nws(code.subrange(a, b)) + nws(code.subrange(b, end)),
{
    let gap = code.subrange(pos, a);
    let cspan = code.subrange(a, b);
    let rest = code.subrange(b, end);
    assert(code.subrange(pos, end) =~= gap + cspan + rest);
    assert forall|k: int| 0 <= k < gap.len() implies is_ws(#[trigger] gap[k]) by {
        assert(gap[k] == code[pos + k]);
    }
    lemma_nws_all_ws(gap);
    lemma_nws_concat(gap + cspan, rest);
    lemma_nws_concat(gap, cspan);
    assert(nws(gap) + nws(cspan) =~= nws(cspan));
}

/// Token preservation: over a well-formed tree without comment nodes, every
/// non-whitespace character of the node's source span appears in the
/// serializer's output, in its original relative order.
#[verifier::rlimit(100)]
#[verifier::spinoff_prover]
pub proof fn lemma_token_preservation(code: Seq<char>, n: SyntaxNode)
    requires
        wf_node(n, code.len()),
        no_comment_nodes(n),
        gaps_all_ws(code, n),
    ensures
        crate::textops::is_subseq_of(nws(span_text(code, n)), spec_render(code, n)),
    decreases n, n.children@.len() + 1,
{
    let sp = span_text(code, n);
    match n.kind {
        NodeKind::LineComment => {
        },
        NodeKind::BlockComment => {
        },
        NodeKind::StringLiteral => {
            lemma_nws_subseq(sp);
        },
        NodeKind::InnerAttributeItem => {
            lemma_nws_subseq(sp);
            crate::textops::lemma_subseq_grow_right(nws(sp), sp, seq!['\n']);
        },
        NodeKind::TypeParameters | NodeKind::GenericType | NodeKind::Lifetime
            | NodeKind::ReferenceType => {
            lemma_nws_subseq(sp);
            crate::textops::lemma_subseq_grow_right(nws(sp), sp, seq![' ']);
        },
        NodeKind::TokenTree => {
            reveal(spec_tt_render);
            let corr = spec_correct(sp, spec_tt_rough(code, n));
            crate::rectify::lemma_rectify_nws_prefix(sp, corr);
            let rendered = crate::rectify::spec_rectify(sp, corr);
            crate::textops::lemma_prefix_subseq(nws(sp), nws(rendered));
            lemma_nws_subseq(rendered);
            crate::textops::lemma_subseq_trans(nws(sp), nws(rendered), rendered);
        },
        NodeKind::Identifier | NodeKind::Other => {
            if n.children@.len() == 0 {
                lemma_nws_subseq(sp);
                crate::textops::lemma_subseq_grow_right(nws(sp), sp, seq!['\n']);
            } else {
                lemma_structural_preservation(code, n, 0, n.start as int);
                assert(sp == code.subrange(n.start as int, n.end as int));
            }
        },
    }
}

} // verus!

use code_art::correct::correct_exceptions;
use code_art::density::get_str_ascii;
use code_art::density::pixels_to_ascii;
use code_art::density::Pixel;
use code_art::layout::code_to_art;
use code_art::rectify::rectify_text;
use code_art::syntax::ast_2_string;
use code_art::syntax::NodeKind;
use code_art::syntax::SyntaxNode;
use code_art::textops::chars_to_fill_vec;
use code_art::textops::get_last_nwhitespace_index;
use code_art::textops::trim_end_chars;

fn chars(s: &str) -> Vec<char> {
    s.chars().collect()
}

fn text(v: &Vec<char>) -> String {
    v.iter().collect()
}

fn leaf(kind: NodeKind, start: usize, end: usize) -> SyntaxNode {
    SyntaxNode { kind, start, end, children: Vec::new() }
}

fn node(kind: NodeKind, start: usize, end: usize, children: Vec<SyntaxNode>) -> SyntaxNode {
    SyntaxNode { kind, start, end, children }
}

fn pixel(r: u8, g: u8, b: u8, a: u8) -> Pixel {
    Pixel { r, g, b, a }
}

/// The syntax tree a parser yields for `fn main(){let x=1;}`.
fn main_fn_tree() -> SyntaxNode {
    let params = node(
        NodeKind::Other,
        7,
        9,
        vec![leaf(NodeKind::Other, 7, 8), leaf(NodeKind::Other, 8, 9)],
    );
    let let_decl = node(
        NodeKind::Other,
        10,
        18,
        vec![
            leaf(NodeKind::Other, 10, 13),
            leaf(NodeKind::Identifier, 14, 15),
            leaf(NodeKind::Other, 15, 16),
            leaf(NodeKind::Other, 16, 17),
            leaf(NodeKind::Other, 17, 18),
        ],
    );
    let block = node(
        NodeKind::Other,
        9,
        19,
        vec![leaf(NodeKind::Other, 9, 10), let_decl, leaf(NodeKind::Other, 18, 19)],
    );
    let function = node(
        NodeKind::Other,
        0,
        19,
        vec![
            leaf(NodeKind::Other, 0, 2),
            leaf(NodeKind::Identifier, 3, 7),
            params,
            block,
        ],
    );
    node(NodeKind::Other, 0, 19, vec![function])
}

#[test]
fn palette_glyphs() {
    assert_eq!(get_str_ascii(0), ' ');
    assert_eq!(get_str_ascii(31), ' ');
    assert_eq!(get_str_ascii(32), '.');
    assert_eq!(get_str_ascii(100), '=');
    assert_eq!(get_str_ascii(287), '#');
}

#[test]
fn density_transparent_is_blank_and_white_is_densest() {
    let img = vec![
        vec![pixel(255, 255, 255, 255), pixel(0, 0, 0, 0)],
        vec![pixel(0, 0, 0, 0), pixel(0, 0, 0, 0)],
    ];
    let art = pixels_to_ascii(&img, 1);
    assert_eq!(text(&art), "# \n");
}

#[test]
fn density_vertical_stride_is_double() {
    let row = vec![pixel(255, 255, 255, 255), pixel(255, 255, 255, 255)];
    let img = vec![row.clone(), row.clone(), row.clone(), row.clone()];
    let art = pixels_to_ascii(&img, 1);
    assert_eq!(text(&art), "##\n##\n");
}

#[test]
fn splitting_keeps_empty_pieces() {
    let mut out: Vec<Vec<char>> = Vec::new();
    chars_to_fill_vec(&chars("a,b,,c"), ',', &mut out);
    let pieces: Vec<String> = out.iter().map(text).collect();
    assert_eq!(pieces, vec!["a", "b", "", "c"]);
    chars_to_fill_vec(&chars("x,"), ',', &mut out);
    let pieces: Vec<String> = out.iter().map(text).collect();
    assert_eq!(pieces, vec!["x", ""]);
    chars_to_fill_vec(&chars(""), ',', &mut out);
    assert_eq!(out.len(), 1);
    assert!(out[0].is_empty());
}

#[test]
fn last_nonempty_piece_index() {
    let words = vec![chars("a"), chars(""), chars("b"), chars("")];
    assert_eq!(get_last_nwhitespace_index(&words), 2);
    let empty = vec![chars(""), chars("")];
    assert_eq!(get_last_nwhitespace_index(&empty), 0);
}

#[test]
fn trimming_removes_trailing_whitespace_only() {
    assert_eq!(text(&trim_end_chars(&chars("ab \t\n"))), "ab");
    assert_eq!(text(&trim_end_chars(&chars(" a b"))), " a b");
    assert_eq!(text(&trim_end_chars(&chars("  \n"))), "");
}

#[test]
fn corrector_splits_operator_across_line_break() {
    let out = correct_exceptions(&chars("a<=b"), &chars("a<,\n=b"));
    assert_eq!(text(&out), "a\n<=\nb");
}

#[test]
fn corrector_keeps_agreeing_text() {
    let out = correct_exceptions(&chars("ab"), &chars("ab"));
    assert_eq!(text(&out), "ab");
    let out = correct_exceptions(&chars("hello"), &chars("hello"));
    assert_eq!(text(&out), "hello");
}

#[test]
fn corrector_idempotent_without_exceptions() {
    let code = chars("abcd");
    let once = correct_exceptions(&code, &chars("axcd"));
    let twice = correct_exceptions(&code, &once);
    assert_eq!(text(&once), "axcd");
    assert_eq!(text(&twice), text(&once));
}

#[test]
fn rectifier_replays_content_keeps_layout() {
    let mut rough = chars("q\nw e");
    rectify_text(&chars("a=b"), &mut rough);
    assert_eq!(text(&rough), "a\n= b");
}

#[test]
fn rectifier_appends_leftover_content() {
    let mut rough = chars("x");
    rectify_text(&chars("abc"), &mut rough);
    assert_eq!(text(&rough), "abc");
}

#[test]
fn serializer_flattens_main_fn() {
    let code = chars("fn main(){let x=1;}");
    let out = ast_2_string(&code, &main_fn_tree());
    assert_eq!(text(&out), "fn\nmain\n(\n)\n{\nlet\nx\n=\n1\n;\n}\n");
}

#[test]
fn serializer_preserves_tokens_in_order() {
    let code = chars("fn main(){let x=1;}");
    let out = ast_2_string(&code, &main_fn_tree());
    let kept: String = text(&out).chars().filter(|c| !c.is_whitespace()).collect();
    assert_eq!(kept, "fnmain(){letx=1;}");
}

#[test]
fn serializer_repairs_token_tree() {
    let code = chars("(a)");
    let tree = node(
        NodeKind::TokenTree,
        0,
        3,
        vec![
            leaf(NodeKind::Other, 0, 1),
            leaf(NodeKind::Identifier, 1, 2),
            leaf(NodeKind::Other, 2, 3),
        ],
    );
    let out = ast_2_string(&code, &tree);
    assert_eq!(text(&out), "(a)");
}

#[test]
fn serializer_drops_comments_keeps_literals() {
    // source: "//c\n\"s\""
    let code = chars("//c\n\"s\"");
    let tree = node(
        NodeKind::Other,
        0,
        7,
        vec![leaf(NodeKind::LineComment, 0, 3), leaf(NodeKind::StringLiteral, 4, 7)],
    );
    let out = ast_2_string(&code, &tree);
    assert_eq!(text(&out), "\"s\"");
}

#[test]
fn fitter_places_all_words_in_wide_cell() {
    let code = chars("fn\nmain\n(\n)\n{\nlet\nx\n=\n1\n;\n}\n");
    let art = chars("##############################\n");
    let out = code_to_art(code, art);
    assert_eq!(text(&out), "fn main ( ) { let x = 1 ; } //");
}

#[test]
fn fitter_end_to_end_tiny_image() {
    let source = chars("fn main(){let x=1;}");
    let words = ast_2_string(&source, &main_fn_tree());
    let img = vec![
        vec![pixel(0, 0, 0, 255), pixel(0, 0, 0, 0)],
        vec![pixel(0, 0, 0, 0), pixel(0, 0, 0, 0)],
    ];
    let art = pixels_to_ascii(&img, 1);
    // one non-blank cell for the opaque black pixel, blanks elsewhere
    assert_eq!(text(&art), ". \n");
    let out = code_to_art(words, art);
    // the single one-glyph cell offers no room for a word and no comment
    // filler is fabricated for it
    assert!(!text(&out).contains('/'));
    assert!(!text(&out).contains('*'));
}

#[test]
fn fitter_block_fragment_is_closed() {
    // a word budget of zero turns every art line into trailing comment
    let code = chars("x");
    let out = code_to_art(code, chars("ab\ncd\n"));
    assert_eq!(text(&out), "/*\n*/");
}

#[test]
fn fitter_withdraws_unfilled_comment_opening() {
    let code = chars("x");
    let out = code_to_art(code, chars("a\n"));
    assert_eq!(text(&out), "");
}

#[test]
fn fitter_comment_balance() {
    let samples = vec![
        ("x", "ab\ncd\n"),
        ("x", "a\n"),
        ("x", "  \n zz \n"),
        ("fn\nmain\n(\n)\n{\nlet\nx\n=\n1\n;\n}\n", "########\n########\n########\n"),
    ];
    for (c, a) in samples {
        let out = text(&code_to_art(chars(c), chars(a)));
        let opens = out.match_indices("/*").count();
        let closes = out.match_indices("*/").count();
        assert_eq!(opens, closes, "unbalanced comments in {:?}", out);
    }
}

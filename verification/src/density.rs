//! Density mapper: turns per-pixel colour values into a grid of ASCII glyphs,
//! one glyph per sampled pixel, row by row. A fully transparent pixel is
//! blank; any other pixel maps through a fixed 9-level palette by the average
//! of its colour channels.

use vstd::prelude::*;

verus! {

/// One pixel's colour channels and alpha, as plain values.
#[derive(Clone, Copy, PartialEq, Eq, Structural, Debug)]
pub struct Pixel {
    pub r: u8,
    pub g: u8,
    pub b: u8,
    pub a: u8,
}

/// The intensity a pixel contributes: 0 when fully transparent, otherwise 32
/// plus a third of each colour channel.
pub open spec fn pixel_intent(p: Pixel) -> int {
    if p.a == 0 {
        0
    } else {
        32 + p.r as int / 3 + p.g as int / 3 + p.b as int / 3
    }
}

/// The fixed 9-level palette, indexed by brightness level.
pub open spec fn glyph_of_level(level: int) -> char {
    if level == 0 {
        ' '
    } else if level == 1 {
        '.'
    } else if level == 2 {
        '~'
    } else if level == 3 {
        '='
    } else if level == 4 {
        '+'
    } else if level == 5 {
        '0'
    } else if level == 6 {
        '8'
    } else {
        if level == 7 {
            '@'
        } else {
            '#'
        }
    }
}

/// The palette glyph of an intensity: one level for each run of 32.
pub open spec fn glyph_of_intent(intent: int) -> char {
    glyph_of_level(intent / 32)
}

/// The palette glyph of an intensity, as executable code.
pub fn get_str_ascii(intent: usize) -> (c: char)
    requires
        intent < 288,
    ensures
        c == glyph_of_intent(intent as int),
{
    let level = intent / 32;
    if level == 0 {
        ' '
    } else if level == 1 {
        '.'
    } else if level == 2 {
        '~'
    } else if level == 3 {
        '='
    } else if level == 4 {
        '+'
    } else if level == 5 {
        '0'
    } else if level == 6 {
        '8'
    } else if level == 7 {
        '@'
    } else {
        '#'
    }
}

/// One art row: the glyphs of every `scale`-th pixel from `x` on, closed by a
/// newline.
pub open spec fn spec_art_row(row: Seq<Pixel>, scale: int, x: int) -> Seq<char>
    decreases row.len() + scale - x
        when scale >= 1 && 0 <= x
{
    if x >= row.len() {
        seq!['\n']
    } else {
        seq![glyph_of_intent(pixel_intent(row[x]))] + spec_art_row(row, scale, x + scale)
    }
}

/// The art rows of every `2 * scale`-th pixel row from `y` on, concatenated:
/// the vertical stride is twice the horizontal one, to make up for character
/// cells being taller than wide.
pub open spec fn spec_art_rows(rows: Seq<Seq<Pixel>>, scale: int, y: int) -> Seq<char>
    decreases rows.len() + 2 * scale - y
        when scale >= 1 && 0 <= y
{
    if y >= rows.len() {
        Seq::empty()
    } else {
        spec_art_row(rows[y], scale, 0) + spec_art_rows(rows, scale, y + 2 * scale)
    }
}

/// The pixel rows as mathematical sequences.
pub open spec fn rows_view(pixels: Seq<Vec<Pixel>>) -> Seq<Seq<Pixel>> {
    pixels.map_values(|v: Vec<Pixel>| v@)
}

/// Renders the sampled density grid of a pixel matrix: one glyph per sampled
/// pixel, one newline-terminated line per sampled row.
pub fn pixels_to_ascii(pixels: &Vec<Vec<Pixel>>, scale: usize) -> (art: Vec<char>)
    requires
        1 <= scale,
        pixels@.len() + 2 * scale <= usize::MAX,
        forall|i: int| 0 <= i < pixels@.len() ==> (#[trigger] pixels@[i]@.len()) + scale
            <= usize::MAX,
    ensures
        art@ == spec_art_rows(rows_view(pixels@), scale as int, 0),
{
    let ghost rows = rows_view(pixels@);
    let mut art: Vec<char> = Vec::new();
    let mut y: usize = 0;
    while y < pixels.len()
        invariant
            rows == rows_view(pixels@),
            rows.len() == pixels@.len(),
            1 <= scale,
            pixels@.len() + 2 * scale <= usize::MAX,
            forall|i: int| 0 <= i < pixels@.len() ==> (#[trigger] pixels@[i]@.len()) + scale
                <= usize::MAX,
            spec_art_rows(rows, scale as int, 0) == art@ + spec_art_rows(
                rows,
                scale as int,
                y as int,
            ),
        decreases pixels@.len() + 2 * scale - y,
    {
        let row = &pixels[y];
        proof {
            assert(rows[y as int] == row@);
            assert(spec_art_rows(rows, scale as int, y as int) == spec_art_row(
                rows[y as int],
                scale as int,
                0,
            ) + spec_art_rows(rows, scale as int, y as int + 2 * scale as int));
            assert(art@ + (spec_art_row(rows[y as int], scale as int, 0) + spec_art_rows(
                rows,
                scale as int,
                y as int + 2 * scale as int,
            )) =~= art@ + spec_art_row(rows[y as int], scale as int, 0) + spec_art_rows(
                rows,
                scale as int,
                y as int + 2 * scale as int,
            ));
        }
        let mut x: usize = 0;
        while x < row.len()
            invariant
                rows == rows_view(pixels@),
                rows.len() == pixels@.len(),
                1 <= scale,
                y < pixels@.len(),
                row@ == rows[y as int],
                row@.len() + scale <= usize::MAX,
                spec_art_rows(rows, scale as int, 0) == art@ + spec_art_row(
                    rows[y as int],
                    scale as int,
                    x as int,
                ) + spec_art_rows(rows, scale as int, y as int + 2 * scale as int),
            decreases row@.len() + scale - x,
        {
            let p = row[x];
            let intent: usize = if p.a == 0 {
                0
            } else {
                32 + (p.r / 3 + p.g / 3 + p.b / 3) as usize
            };
            proof {
                assert(intent as int == pixel_intent(row@[x as int]));
            }
            let g = get_str_ascii(intent);
            let ghost art_prev = art@;
            art.push(g);
            proof {
                let rrest = spec_art_row(rows[y as int], scale as int, x as int + scale as int);
                let tail = spec_art_rows(rows, scale as int, y as int + 2 * scale as int);
                assert(spec_art_row(rows[y as int], scale as int, x as int) == seq![g] + rrest);
                assert(art@ =~= art_prev + seq![g]);
                assert(art_prev + (seq![g] + rrest) + tail =~= art@ + rrest + tail);
            }
            x += scale;
        }
        let ghost art_line = art@;
        art.push('\n');
        proof {
            let tail = spec_art_rows(rows, scale as int, y as int + 2 * scale as int);
            assert(spec_art_row(rows[y as int], scale as int, x as int) == seq!['\n']);
            assert(art@ =~= art_line + seq!['\n']);
            assert(art_line + seq!['\n'] + tail =~= art@ + tail);
        }
        y += scale;
        y += scale;
    }
    proof {
        assert(spec_art_rows(rows, scale as int, y as int) == Seq::<char>::empty());
        assert(art@ + Seq::<char>::empty() =~= art@);
    }
    art
}

/// Density mapping determinism: a fully transparent pixel always maps to the
/// blank glyph, and a fully opaque pixel whose channel average is pure white
/// always maps to the densest glyph, whatever the rest of the image holds.
pub proof fn lemma_density_mapping_determinism(p: Pixel)
    ensures
        p.a == 0 ==> glyph_of_intent(pixel_intent(p)) == ' ',
        p.a != 0 && p.r == 255 && p.g == 255 && p.b == 255 ==> glyph_of_intent(pixel_intent(p))
            == '#',
{
}

} // verus!

//! From glyph bitmaps to lines of characters.

use vstd::prelude::*;
use crate::font_file;
use crate::profile;
use crate::profile::RasterProfile;
use crate::text;

verus! {

/// One glyph at one size.
pub struct Glyph {
    /// The width of the bitmap.
    pub width: usize,
    /// The height of the bitmap.
    pub height: usize,
    /// The advance width, rounded up to whole pixels.
    pub advance: usize,
    /// The coverage of each pixel, row by row from the top left.
    pub bitmap: Vec<u8>,
}

/// The larger of two numbers.
pub open spec fn max(a: int, b: int) -> int {
    if a < b {
        b
    } else {
        a
    }
}

/// The smaller of two numbers.
pub open spec fn min(a: int, b: int) -> int {
    if a < b {
        a
    } else {
        b
    }
}

/// The characters of `t` that are drawn with a glyph: all but the spaces.
pub open spec fn ink(t: Seq<char>) -> Seq<char>
    decreases t.len(),
{
    if t.len() == 0 {
        t
    } else if t.last() == ' ' {
        ink(t.drop_last())
    } else {
        ink(t.drop_last()).push(t.last())
    }
}

/// How far the pen goes on after a glyph: one more than its advance or its width,
/// whichever is larger.
pub open spec fn glyph_step(g: Glyph) -> int {
    min(max(g.advance as int, g.width as int) + 1, usize::MAX as int)
}

/// The glyph of the character at position `i`, which is no space.
pub open spec fn glyph_at(t: Seq<char>, g: Seq<Glyph>, i: int) -> Glyph {
    g[ink(t.subrange(0, i)).len() as int]
}

/// The pen's place before the character at position `i`.
pub open spec fn pen(t: Seq<char>, g: Seq<Glyph>, space: int, i: int) -> int
    decreases i,
{
    if i <= 0 {
        0
    } else if t[i - 1] == ' ' {
        pen(t, g, space, i - 1) + space + 1
    } else {
        pen(t, g, space, i - 1) + glyph_step(glyph_at(t, g, i - 1))
    }
}

/// The width of the canvas of a line.
pub open spec fn line_width(t: Seq<char>, g: Seq<Glyph>, space: int) -> int {
    max(pen(t, g, space, t.len() as int), 1)
}

/// The height of the canvas of a line: that of its highest glyph that has pixels.
pub open spec fn line_height(g: Seq<Glyph>) -> int
    decreases g.len(),
{
    if g.len() == 0 {
        1
    } else if g.last().width > 0 {
        max(line_height(g.drop_last()), g.last().height as int)
    } else {
        line_height(g.drop_last())
    }
}

/// What a pixel becomes when a glyph is drawn over it. The glyph's left edge is at `x0`,
/// and it stands in the middle of the canvas's height; the stronger coverage stays.
pub open spec fn paint(g: Glyph, x0: int, height: int, x: int, y: int, before: int) -> int {
    let y0 = (height - g.height) / 2;
    if x0 <= x < x0 + g.width && y0 <= y < y0 + g.height {
        max(before, g.bitmap@[(y - y0) * g.width + (x - x0)] as int)
    } else {
        before
    }
}

/// The coverage of the pixel at `x`, `y` once the first `i` characters are drawn.
pub open spec fn coverage(
    t: Seq<char>,
    g: Seq<Glyph>,
    space: int,
    i: int,
    x: int,
    y: int,
) -> int
    decreases i,
{
    if i <= 0 {
        0
    } else {
        let before = coverage(t, g, space, i - 1, x, y);
        if t[i - 1] == ' ' {
            before
        } else {
            paint(
                glyph_at(t, g, i - 1),
                pen(t, g, space, i - 1),
                line_height(g),
                x,
                y,
                before,
            )
        }
    }
}

/// The character of a ramp for a coverage between 0 and 255.
pub open spec fn shade(ramp: Seq<char>, value: int) -> char {
    ramp[value * (ramp.len() - 1) / 255]
}

/// `s` without the spaces at its end.
pub open spec fn without_spaces_at_end(s: Seq<char>) -> Seq<char>
    decreases s.len(),
{
    if s.len() > 0 && s.last() == ' ' {
        without_spaces_at_end(s.drop_last())
    } else {
        s
    }
}

/// The characters of one row of the canvas.
pub open spec fn row(
    t: Seq<char>,
    g: Seq<Glyph>,
    space: int,
    ramp: Seq<char>,
    y: int,
) -> Seq<char> {
    without_spaces_at_end(
        Seq::new(
            line_width(t, g, space) as nat,
            |x: int| shade(ramp, coverage(t, g, space, t.len() as int, x, y)),
        ),
    )
}

/// A line of text with nothing to see on it.
pub open spec fn blank(s: Seq<char>) -> bool {
    text::trim(s).len() == 0
}

/// `ls` without the blank lines at its start.
pub open spec fn without_blank_start(ls: Seq<Seq<char>>) -> Seq<Seq<char>>
    decreases ls.len(),
{
    if ls.len() > 0 && blank(ls[0]) {
        without_blank_start(ls.subrange(1, ls.len() as int))
    } else {
        ls
    }
}

/// `ls` without the blank lines at its end.
pub open spec fn without_blank_end(ls: Seq<Seq<char>>) -> Seq<Seq<char>>
    decreases ls.len(),
{
    if ls.len() > 0 && blank(ls.last()) {
        without_blank_end(ls.drop_last())
    } else {
        ls
    }
}

/// `ls` without the blank lines at both ends, and one empty line where none is left.
pub open spec fn trimmed_vertically(ls: Seq<Seq<char>>) -> Seq<Seq<char>> {
    let rest = without_blank_end(without_blank_start(ls));
    if rest.len() == 0 {
        seq![Seq::empty()]
    } else {
        rest
    }
}

/// The rows of characters that show one line of text.
pub open spec fn line_art(
    t: Seq<char>,
    g: Seq<Glyph>,
    space: int,
    ramp: Seq<char>,
) -> Seq<Seq<char>> {
    if t.len() == 0 {
        seq![Seq::empty()]
    } else {
        trimmed_vertically(
            Seq::new(line_height(g) as nat, |y: int| row(t, g, space, ramp, y)),
        )
    }
}

/// There is a glyph for each character but the spaces, each has all of its pixels, and the
/// canvas is no larger than memory can be.
pub open spec fn line_fits(t: Seq<char>, g: Seq<Glyph>, space: int) -> bool {
    &&& g.len() == ink(t).len()
    &&& forall|j: int| 0 <= j < g.len() ==> complete(#[trigger] g[j])
    &&& line_width(t, g, space) * line_height(g) <= isize::MAX
}

/// A glyph that has all of its pixels.
pub open spec fn complete(g: Glyph) -> bool {
    g.width * g.height <= g.bitmap@.len()
}

/// `ink` of one character more.
proof fn lemma_ink_step(t: Seq<char>, i: int)
    requires
        0 <= i < t.len(),
    ensures
        ink(t.subrange(0, i + 1)) == if t[i] == ' ' {
            ink(t.subrange(0, i))
        } else {
            ink(t.subrange(0, i)).push(t[i])
        },
{
    assert(t.subrange(0, i + 1).drop_last() == t.subrange(0, i));
}

/// A part of a text has no more ink than a longer part.
proof fn lemma_ink_grows(t: Seq<char>, i: int, j: int)
    requires
        0 <= i <= j <= t.len(),
    ensures
        ink(t.subrange(0, i)).len() <= ink(t.subrange(0, j)).len(),
    decreases j - i,
{
    if i < j {
        lemma_ink_step(t, j - 1);
        lemma_ink_grows(t, i, j - 1);
    }
}

/// The character at position `i`, which is no space, has a glyph.
proof fn lemma_glyph_there(t: Seq<char>, i: int)
    requires
        0 <= i < t.len(),
        t[i] != ' ',
    ensures
        ink(t.subrange(0, i)).len() < ink(t).len(),
{
    lemma_ink_step(t, i);
    lemma_ink_grows(t, i + 1, t.len() as int);
    assert(t.subrange(0, t.len() as int) == t);
}

/// The pen never goes back.
proof fn lemma_pen_grows(t: Seq<char>, g: Seq<Glyph>, space: int, i: int, j: int)
    requires
        0 <= i <= j,
        0 <= space,
    ensures
        0 <= pen(t, g, space, i) <= pen(t, g, space, j),
    decreases j,
{
    if i < j {
        lemma_pen_grows(t, g, space, i, j - 1);
    } else if j > 0 {
        lemma_pen_grows(t, g, space, i - 1, j - 1);
    }
}

/// The line is at least one pixel high, and as high as each glyph that has pixels.
proof fn lemma_line_height(g: Seq<Glyph>)
    ensures
        1 <= line_height(g),
        forall|j: int|
            0 <= j < g.len() && g[j].width > 0 ==> (#[trigger] g[j]).height <= line_height(g),
    decreases g.len(),
{
    if g.len() > 0 {
        lemma_line_height(g.drop_last());
        assert forall|j: int| 0 <= j < g.len() && g[j].width > 0 implies (
        #[trigger] g[j]).height <= line_height(g) by {
            if j < g.len() - 1 {
                assert(g.drop_last()[j] == g[j]);
            }
        }
    }
}

/// The characters of a line that need a glyph, in order.
pub fn ink_chars(line: &str) -> (r: Vec<char>)
    ensures
        r@ == ink(line@),
{
    let chars = text::chars_of(line);
    let mut out: Vec<char> = Vec::new();
    let mut i: usize = 0;
    while i < chars.len()
        invariant
            i <= chars.len(),
            out@ == ink(chars@.subrange(0, i as int)),
        decreases chars.len() - i,
    {
        proof {
            lemma_ink_step(chars@, i as int);
        }
        if chars[i] != ' ' {
            out.push(chars[i]);
        }
        i = i + 1;
    }
    assert(chars@.subrange(0, chars.len() as int) == chars@);
    out
}

/// How far the pen goes on after a glyph.
fn step_after(glyph: &Glyph) -> (r: usize)
    ensures
        r == glyph_step(*glyph),
{
    let advance: usize = glyph.advance.saturating_add(1);
    let width: usize = glyph.width.saturating_add(1);
    if advance < width {
        width
    } else {
        advance
    }
}

/// The height of the canvas of a line.
fn height_of(glyphs: &Vec<Glyph>) -> (r: usize)
    ensures
        r == line_height(glyphs@),
{
    let mut height: usize = 1;
    let mut j: usize = 0;
    while j < glyphs.len()
        invariant
            j <= glyphs.len(),
            height == line_height(glyphs@.subrange(0, j as int)),
        decreases glyphs.len() - j,
    {
        let ghost part = glyphs@.subrange(0, j + 1);
        assert(part.drop_last() == glyphs@.subrange(0, j as int));
        if glyphs[j].width > 0 && glyphs[j].height > height {
            height = glyphs[j].height;
        }
        j = j + 1;
    }
    assert(glyphs@.subrange(0, glyphs.len() as int) == glyphs@);
    height
}

/// Where each character of a line starts, and, as the last entry, where the line ends.
fn pen_places(chars: &Vec<char>, glyphs: &Vec<Glyph>, space: usize) -> (r: Vec<usize>)
    requires
        line_fits(chars@, glyphs@, space as int),
    ensures
        r.len() == chars.len() + 1,
        forall|i: int| 0 <= i <= chars.len() ==> r[i] == pen(chars@, glyphs@, space as int, i),
{
    let ghost t = chars@;
    let ghost g = glyphs@;
    let mut places: Vec<usize> = Vec::new();
    let mut at: usize = 0;
    let mut j: usize = 0;
    let mut i: usize = 0;
    places.push(0);
    while i < chars.len()
        invariant
            i <= chars.len(),
            t == chars@,
            g == glyphs@,
            line_fits(t, g, space as int),
            j == ink(t.subrange(0, i as int)).len(),
            at == pen(t, g, space as int, i as int),
            places.len() == i + 1,
            forall|k: int| 0 <= k <= i ==> places[k] == pen(t, g, space as int, k),
        decreases chars.len() - i,
    {
        proof {
            lemma_ink_step(t, i as int);
            lemma_pen_grows(t, g, space as int, i + 1, t.len() as int);
            lemma_line_fits_bounds(t, g, space as int);
        }
        if chars[i] == ' ' {
            at = at + (space + 1);
        } else {
            proof {
                lemma_glyph_there(t, i as int);
            }
            assert(j < glyphs.len());
            at = at + step_after(&glyphs[j]);
            j = j + 1;
        }
        places.push(at);
        i = i + 1;
    }
    places
}

/// The sizes of a canvas that fits are within what a `usize` holds.
proof fn lemma_line_fits_bounds(t: Seq<char>, g: Seq<Glyph>, space: int)
    requires
        line_fits(t, g, space),
    ensures
        1 <= line_width(t, g, space) <= isize::MAX,
        1 <= line_height(g) <= isize::MAX,
        pen(t, g, space, t.len() as int) <= isize::MAX,
{
    lemma_line_height(g);
    let w = line_width(t, g, space);
    let h = line_height(g);
    assert(w <= w * h && h <= w * h) by (nonlinear_arith)
        requires
            1 <= w,
            1 <= h,
    ;
}

/// Whether a line with these glyphs can be drawn.
pub fn can_rasterize_line(line: &str, glyphs: &Vec<Glyph>, space: usize) -> (r: bool)
    ensures
        r == line_fits(line@, glyphs@, space as int),
{
    let chars = text::chars_of(line);
    let ghost t = chars@;
    let ghost g = glyphs@;
    let ghost sp = space as int;
    let limit: usize = isize::MAX as usize;
    let needed: usize = ink_chars(line).len();
    if glyphs.len() != needed {
        return false;
    }
    let mut j: usize = 0;
    while j < glyphs.len()
        invariant
            j <= glyphs.len(),
            g == glyphs@,
            forall|k: int| 0 <= k < j ==> complete(#[trigger] g[k]),
        decreases glyphs.len() - j,
    {
        let area: u128 = pixels(glyphs[j].width, glyphs[j].height);
        if area > glyphs[j].bitmap.len() as u128 {
            assert(!complete(g[j as int]));
            return false;
        }
        j = j + 1;
    }
    let height: usize = height_of(glyphs);
    let mut at: usize = 0;
    let mut n: usize = 0;
    let mut i: usize = 0;
    proof {
        lemma_line_height(g);
    }
    while i < chars.len()
        invariant
            i <= chars.len(),
            t == chars@,
            g == glyphs@,
            sp == space,
            limit == isize::MAX,
            g.len() == ink(t).len(),
            1 <= height == line_height(g),
            t == line@,
            n == ink(t.subrange(0, i as int)).len(),
            at == pen(t, g, sp, i as int),
            at <= limit,
        decreases chars.len() - i,
    {
        proof {
            lemma_ink_step(t, i as int);
            lemma_pen_grows(t, g, sp, i + 1, t.len() as int);
        }
        let step: usize = if chars[i] == ' ' {
            space.saturating_add(1)
        } else {
            proof {
                lemma_glyph_there(t, i as int);
            }
            assert(n < glyphs.len());
            n = n + 1;
            step_after(&glyphs[n - 1])
        };
        if step > limit - at {
            proof {
                lemma_wide_line(t, g, sp, i + 1);
            }
            return false;
        }
        at = at + step;
        i = i + 1;
    }
    let width: usize = if at == 0 {
        1
    } else {
        at
    };
    pixels(width, height) <= limit as u128
}

/// A line whose pen goes past the limit does not fit.
proof fn lemma_wide_line(t: Seq<char>, g: Seq<Glyph>, space: int, i: int)
    requires
        0 <= i <= t.len(),
        0 <= space,
        pen(t, g, space, i) > isize::MAX,
    ensures
        !line_fits(t, g, space),
{
    lemma_pen_grows(t, g, space, i, t.len() as int);
    if line_fits(t, g, space) {
        lemma_line_fits_bounds(t, g, space);
    }
}

/// The number of pixels of an area.
fn pixels(width: usize, height: usize) -> (r: u128)
    ensures
        r == width * height,
{
    assert(0 <= width * height <= u64::MAX * u64::MAX) by (nonlinear_arith)
        requires
            0 <= width <= u64::MAX,
            0 <= height <= u64::MAX,
    ;
    width as u128 * height as u128
}

/// The place of a pixel in the canvas gives back its row and column.
proof fn lemma_place(width: int, x: int, y: int)
    requires
        0 <= x < width,
        0 <= y,
    ensures
        (y * width + x) / width == y,
        (y * width + x) % width == x,
{
    vstd::arithmetic::div_mod::lemma_fundamental_div_mod_converse(y * width + x, width, y, x);
}

/// A pixel inside an area has its place below the area's size.
proof fn lemma_place_below(width: int, height: int, x: int, y: int)
    requires
        0 <= x < width,
        0 <= y < height,
    ensures
        0 <= y * width + x < width * height,
{
    assert(0 <= y * width + x < width * height) by (nonlinear_arith)
        requires
            0 <= x < width,
            0 <= y < height,
    ;
}

/// Whether the pixel at `x`, `y` of a glyph comes before the one at `col`, `line`.
spec fn drawn(x: int, y: int, col: int, line: int) -> bool {
    y < line || (y == line && x < col)
}

/// Draws a glyph over the canvas.
fn paint_glyph(canvas: &mut Vec<u8>, width: usize, height: usize, glyph: &Glyph, x0: usize)
    requires
        complete(*glyph),
        old(canvas).len() == width * height,
        1 <= width,
        x0 + glyph.width <= width,
        glyph.width > 0 ==> glyph.height <= height,
    ensures
        final(canvas).len() == old(canvas).len(),
        forall|p: int|
            0 <= p < old(canvas).len() ==> (#[trigger] final(canvas)[p]) == paint(
                *glyph,
                x0 as int,
                height as int,
                p % (width as int),
                p / (width as int),
                old(canvas)[p] as int,
            ),
{
    if glyph.width == 0 {
        return ;
    }
    let y0: usize = (height - glyph.height) / 2;
    let ghost start = canvas@;
    let ghost w = width as int;
    let ghost g = *glyph;
    let mut line: usize = 0;
    while line < glyph.height
        invariant
            line <= glyph.height,
            g == *glyph,
            complete(g),
            w == width,
            1 <= width,
            0 < glyph.width,
            x0 + glyph.width <= width,
            glyph.height <= height,
            y0 == (height - glyph.height) / 2,
            canvas.len() == start.len() == width * height,
            forall|p: int|
                0 <= p < start.len() ==> (#[trigger] canvas[p]) == if drawn(
                    p % w - x0,
                    p / w - y0,
                    0,
                    line as int,
                ) {
                    paint(g, x0 as int, height as int, p % w, p / w, start[p] as int)
                } else {
                    start[p] as int
                },
        decreases glyph.height - line,
    {
        let mut col: usize = 0;
        while col < glyph.width
            invariant
                col <= glyph.width,
                line < glyph.height,
                g == *glyph,
                complete(g),
                w == width,
                1 <= width,
                x0 + glyph.width <= width,
                glyph.height <= height,
                y0 == (height - glyph.height) / 2,
                canvas.len() == start.len() == width * height,
                forall|p: int|
                    0 <= p < start.len() ==> (#[trigger] canvas[p]) == if drawn(
                        p % w - x0,
                        p / w - y0,
                        col as int,
                        line as int,
                    ) {
                        paint(g, x0 as int, height as int, p % w, p / w, start[p] as int)
                    } else {
                        start[p] as int
                    },
            decreases glyph.width - col,
        {
            let ghost before = canvas@;
            let ghost x = x0 + col;
            let ghost y = y0 + line;
            proof {
                lemma_place_below(g.width as int, g.height as int, col as int, line as int);
                assert(g.bitmap@.len() == glyph.bitmap.len());
                lemma_place_below(w, height as int, x, y);
                lemma_place(w, x, y);
                assert(0 <= line * glyph.width && 0 <= y * width) by (nonlinear_arith)
                    requires
                        0 <= line,
                        0 <= glyph.width,
                        0 <= y,
                        0 <= width,
                ;
            }
            let from: usize = line * glyph.width + col;
            let to: usize = (y0 + line) * width + (x0 + col);
            let value: u8 = glyph.bitmap[from];
            if canvas[to] < value {
                canvas[to] = value;
            }
            assert forall|p: int| 0 <= p < start.len() implies (#[trigger] canvas[p]) == if drawn(
                p % w - x0,
                p / w - y0,
                col + 1,
                line as int,
            ) {
                paint(g, x0 as int, height as int, p % w, p / w, start[p] as int)
            } else {
                start[p] as int
            } by {
                assert(before[p] == if drawn(p % w - x0, p / w - y0, col as int, line as int) {
                    paint(g, x0 as int, height as int, p % w, p / w, start[p] as int)
                } else {
                    start[p] as int
                });
                vstd::arithmetic::div_mod::lemma_fundamental_div_mod(p, w);
                if p % w == x && p / w == y {
                    assert(p == to) by (nonlinear_arith)
                        requires
                            p == w * (p / w) + p % w,
                            p % w == x,
                            p / w == y,
                            to == y * w + x,
                    ;
                }
            }
            col = col + 1;
        }
        assert forall|p: int| 0 <= p < start.len() implies (#[trigger] canvas[p]) == if drawn(
            p % w - x0,
            p / w - y0,
            0,
            line + 1,
        ) {
            paint(g, x0 as int, height as int, p % w, p / w, start[p] as int)
        } else {
            start[p] as int
        } by {}
        line = line + 1;
    }
}

/// The canvas of a line: the coverage of each pixel, row by row.
fn canvas_of(chars: &Vec<char>, glyphs: &Vec<Glyph>, space: usize) -> (r: (usize, usize, Vec<u8>))
    requires
        line_fits(chars@, glyphs@, space as int),
    ensures
        r.0 == line_width(chars@, glyphs@, space as int),
        r.1 == line_height(glyphs@),
        r.2.len() == r.0 * r.1,
        forall|p: int|
            0 <= p < r.2.len() ==> (#[trigger] r.2[p]) == coverage(
                chars@,
                glyphs@,
                space as int,
                chars.len() as int,
                p % (r.0 as int),
                p / (r.0 as int),
            ),
{
    let ghost t = chars@;
    let ghost g = glyphs@;
    let ghost sp = space as int;
    let places = pen_places(chars, glyphs, space);
    let end: usize = places[chars.len()];
    let width: usize = if end == 0 {
        1
    } else {
        end
    };
    let height: usize = height_of(glyphs);
    proof {
        lemma_line_fits_bounds(t, g, sp);
        lemma_line_height(g);
        lemma_pen_grows(t, g, sp, 0, t.len() as int);
        assert(0 <= width * height) by (nonlinear_arith)
            requires
                0 <= width,
                0 <= height,
        ;
    }
    let mut canvas: Vec<u8> = vec![0u8; width * height];
    let mut j: usize = 0;
    let mut i: usize = 0;
    while i < chars.len()
        invariant
            i <= chars.len(),
            t == chars@,
            g == glyphs@,
            sp == space,
            line_fits(t, g, sp),
            places.len() == chars.len() + 1,
            forall|k: int| 0 <= k <= chars.len() ==> places[k] == pen(t, g, sp, k),
            j == ink(t.subrange(0, i as int)).len(),
            width == line_width(t, g, sp),
            height == line_height(g),
            1 <= width,
            canvas.len() == width * height,
            forall|p: int|
                0 <= p < canvas.len() ==> (#[trigger] canvas[p]) == coverage(
                    t,
                    g,
                    sp,
                    i as int,
                    p % (width as int),
                    p / (width as int),
                ),
        decreases chars.len() - i,
    {
        proof {
            lemma_ink_step(t, i as int);
        }
        if chars[i] != ' ' {
            proof {
                lemma_glyph_there(t, i as int);
                lemma_line_height(g);
                lemma_pen_grows(t, g, sp, i + 1, t.len() as int);
                assert(j < glyphs.len());
                assert(glyph_at(t, g, i as int) == g[j as int]);
                lemma_pen_grows(t, g, sp, i as int, i as int);
                assert(complete(g[j as int]));
                assert(places[i as int] + g[j as int].width <= width) by {
                    assert(pen(t, g, sp, i + 1) == pen(t, g, sp, i as int) + glyph_step(
                        g[j as int],
                    ));
                }
            }
            paint_glyph(&mut canvas, width, height, &glyphs[j], places[i]);
            j = j + 1;
        }
        i = i + 1;
    }
    (width, height, canvas)
}

/// One row of the canvas as characters, without the spaces at its end.
fn row_of(canvas: &Vec<u8>, width: usize, y: usize, ramp: &Vec<char>) -> (r: String)
    requires
        0 < ramp.len() <= 70,
        y * width + width <= canvas.len(),
    ensures
        r@ == without_spaces_at_end(
            Seq::new(
                width as nat,
                |x: int| shade(ramp@, canvas[y * width + x] as int),
            ),
        ),
{
    let ghost full = Seq::new(
        width as nat,
        |x: int| shade(ramp@, canvas[y * width + x] as int),
    );
    let mut line: Vec<char> = Vec::new();
    let mut x: usize = 0;
    proof {
        assert(0 <= y * width) by (nonlinear_arith)
            requires
                0 <= y,
                0 <= width,
        ;
        assert(canvas.len() <= usize::MAX);
    }
    let first: usize = y * width;
    while x < width
        invariant
            x <= width,
            first == y * width,
            first + width <= canvas.len(),
            0 < ramp.len() <= 70,
            full == Seq::new(
                width as nat,
                |x: int| shade(ramp@, canvas[y * width + x] as int),
            ),
            line@ == full.subrange(0, x as int),
        decreases width - x,
    {
        let value: usize = canvas[first + x] as usize;
        let top: usize = ramp.len() - 1;
        proof {
            lemma_shade_index(value as int, top as int);
        }
        line.push(ramp[value * top / 255]);
        assert(line@ == full.subrange(0, x + 1));
        x = x + 1;
    }
    assert(full.subrange(0, width as int) == full);
    let mut end: usize = width;
    while end > 0 && line[end - 1] == ' '
        invariant
            end <= width == line.len(),
            line@ == full,
            without_spaces_at_end(full) == without_spaces_at_end(full.subrange(0, end as int)),
        decreases end,
    {
        assert(full.subrange(0, end as int).drop_last() == full.subrange(0, end - 1));
        end = end - 1;
    }
    text::text_of(&line, 0, end)
}

/// The place of a shade in its ramp is inside the ramp.
proof fn lemma_shade_index(value: int, top: int)
    requires
        0 <= value <= 255,
        0 <= top < 70,
    ensures
        0 <= value * top <= 255 * 70,
        0 <= value * top / 255 <= top,
{
    assert(0 <= value * top <= 255 * top) by (nonlinear_arith)
        requires
            0 <= value <= 255,
            0 <= top,
    ;
}

/// Whether a line has nothing to see on it.
fn is_blank(line: &str) -> (r: bool)
    ensures
        r == blank(line@),
{
    let chars = text::chars_of(line);
    let (from, to) = text::trim_bounds(&chars);
    from == to
}

/// The lines without the blank ones at both ends; one empty line where all are blank.
pub fn trim_vertical(lines: Vec<String>) -> (r: Vec<String>)
    ensures
        text::texts(r@) == trimmed_vertically(text::texts(lines@)),
{
    let ghost ls = text::texts(lines@);
    let n: usize = lines.len();
    let mut from: usize = 0;
    assert(ls.subrange(0, n as int) == ls);
    while from < n && is_blank(lines[from].as_str())
        invariant
            from <= n == lines.len(),
            ls == text::texts(lines@),
            without_blank_start(ls) == without_blank_start(ls.subrange(from as int, n as int)),
        decreases n - from,
    {
        assert(ls.subrange(from as int, n as int).subrange(1, (n - from) as int) == ls.subrange(
            from + 1,
            n as int,
        ));
        from = from + 1;
    }
    assert(without_blank_start(ls) == ls.subrange(from as int, n as int));
    let ghost tail = without_blank_start(ls);
    let mut to: usize = n;
    while to > from && is_blank(lines[to - 1].as_str())
        invariant
            from <= to <= n == lines.len(),
            ls == text::texts(lines@),
            without_blank_end(tail) == without_blank_end(ls.subrange(from as int, to as int)),
        decreases to,
    {
        assert(ls.subrange(from as int, to as int).drop_last() == ls.subrange(
            from as int,
            to - 1,
        ));
        to = to - 1;
    }
    assert(without_blank_end(tail) == ls.subrange(from as int, to as int));
    let mut out: Vec<String> = Vec::new();
    if from == to {
        out.push(String::new());
        assert(text::texts(out@) == seq![Seq::<char>::empty()]);
        return out;
    }
    let mut i: usize = from;
    while i < to
        invariant
            from <= i <= to <= n == lines.len(),
            ls == text::texts(lines@),
            text::texts(out@) == ls.subrange(from as int, i as int),
        decreases to - i,
    {
        let ghost before = text::texts(out@);
        out.push(lines[i].clone());
        assert(text::texts(out@) == before.push(ls[i as int]));
        i = i + 1;
    }
    out
}

/// The rows of characters that show one line of text.
///
/// `glyphs` holds, in order, a glyph for each character of the line that is no space;
/// `space` is how far a space moves the pen, less one.
pub fn rasterize_line(
    line: &str,
    glyphs: &Vec<Glyph>,
    space: usize,
    profile: RasterProfile,
) -> (r: Vec<String>)
    requires
        line_fits(line@, glyphs@, space as int),
    ensures
        text::texts(r@) == line_art(
            line@,
            glyphs@,
            space as int,
            profile::profile_ramp(profile),
        ),
{
    let chars = text::chars_of(line);
    if chars.len() == 0 {
        let mut out: Vec<String> = Vec::new();
        out.push(String::new());
        assert(text::texts(out@) == seq![Seq::<char>::empty()]);
        return out;
    }
    let ghost t = chars@;
    let ghost g = glyphs@;
    let ghost sp = space as int;
    let ramp = text::chars_of(profile.ramp());
    let (width, height, canvas) = canvas_of(&chars, glyphs, space);
    proof {
        profile::law_ramp_size(profile);
        lemma_line_fits_bounds(t, g, sp);
    }
    let ghost rows = Seq::new(height as nat, |y: int| row(t, g, sp, ramp@, y));
    let mut out: Vec<String> = Vec::new();
    let mut y: usize = 0;
    while y < height
        invariant
            y <= height,
            t == line@,
            g == glyphs@,
            sp == space,
            0 < ramp.len() <= 70,
            1 <= width == line_width(t, g, sp),
            height == line_height(g),
            canvas.len() == width * height,
            forall|p: int|
                0 <= p < canvas.len() ==> (#[trigger] canvas[p]) == coverage(
                    t,
                    g,
                    sp,
                    t.len() as int,
                    p % (width as int),
                    p / (width as int),
                ),
            rows == Seq::new(height as nat, |y: int| row(t, g, sp, ramp@, y)),
            text::texts(out@) == rows.subrange(0, y as int),
        decreases height - y,
    {
        let ghost before = text::texts(out@);
        assert(y * width + width <= width * height) by (nonlinear_arith)
            requires
                y < height,
                0 <= width,
        ;
        out.push(row_of(&canvas, width, y, &ramp));
        proof {
            let shown = Seq::new(
                width as nat,
                |x: int| shade(ramp@, canvas[y * width + x] as int),
            );
            let wanted = Seq::new(
                line_width(t, g, sp) as nat,
                |x: int| shade(ramp@, coverage(t, g, sp, t.len() as int, x, y as int)),
            );
            assert forall|x: int| 0 <= x < width implies shown[x] == wanted[x] by {
                lemma_place(width as int, x, y as int);
                lemma_place_below(width as int, height as int, x, y as int);
                assert(canvas[y * width + x] == coverage(t, g, sp, t.len() as int, x, y as int));
            }
            assert(shown == wanted);
            assert(rows[y as int] == row(t, g, sp, ramp@, y as int));
            assert(text::texts(out@) == before.push(rows[y as int]));
        }
        y = y + 1;
    }
    assert(rows.subrange(0, height as int) == rows);
    trim_vertical(out)
}

/// The glyphs of each line.
pub open spec fn glyph_lists(v: Seq<Vec<Glyph>>) -> Seq<Seq<Glyph>> {
    Seq::new(v.len(), |i: int| v[i]@)
}

/// The rows that show several lines of text, with an empty row between each two of them.
pub open spec fn text_rows(
    ls: Seq<Seq<char>>,
    gs: Seq<Seq<Glyph>>,
    space: int,
    ramp: Seq<char>,
) -> Seq<Seq<char>>
    decreases ls.len(),
{
    if ls.len() == 0 {
        Seq::empty()
    } else if ls.len() == 1 {
        line_art(ls[0], gs[0], space, ramp)
    } else {
        text_rows(ls.drop_last(), gs.drop_last(), space, ramp) + seq![Seq::empty()] + line_art(
            ls.last(),
            gs.last(),
            space,
            ramp,
        )
    }
}

/// The sprite of a text: its rows without the blank ones at both ends, as one string.
pub open spec fn text_art(
    content: Seq<char>,
    gs: Seq<Seq<Glyph>>,
    space: int,
    ramp: Seq<char>,
) -> Seq<char> {
    text::join(
        trimmed_vertically(text_rows(text::lines(content), gs, space, ramp)),
        "\n"@,
    )
}

/// There is a list of glyphs for each line of the text, and each line fits.
pub open spec fn text_fits(content: Seq<char>, gs: Seq<Seq<Glyph>>, space: int) -> bool {
    &&& gs.len() == text::lines(content).len()
    &&& forall|i: int|
        0 <= i < gs.len() ==> line_fits(#[trigger] text::lines(content)[i], gs[i], space)
}

/// For each line of a text the characters that need a glyph.
pub fn glyph_requests(content: &str) -> (r: Vec<Vec<char>>)
    ensures
        r.len() == text::lines(content@).len(),
        forall|i: int|
            0 <= i < r.len() ==> (#[trigger] r[i])@ == ink(text::lines(content@)[i]),
{
    let lines = text::lines_of(content);
    let mut out: Vec<Vec<char>> = Vec::new();
    let mut i: usize = 0;
    while i < lines.len()
        invariant
            i <= lines.len(),
            text::texts(lines@) == text::lines(content@),
            out.len() == i,
            forall|k: int| 0 <= k < i ==> (#[trigger] out[k])@ == ink(text::lines(content@)[k]),
        decreases lines.len() - i,
    {
        assert(text::texts(lines@)[i as int] == lines[i as int]@);
        out.push(ink_chars(lines[i].as_str()));
        i = i + 1;
    }
    out
}

/// Whether a text with these glyphs can be drawn.
pub fn can_rasterize_text(content: &str, glyphs: &Vec<Vec<Glyph>>, space: usize) -> (r: bool)
    ensures
        r == text_fits(content@, glyph_lists(glyphs@), space as int),
{
    let lines = text::lines_of(content);
    let ghost ls = text::lines(content@);
    let ghost gs = glyph_lists(glyphs@);
    if glyphs.len() != lines.len() {
        return false;
    }
    let mut i: usize = 0;
    while i < lines.len()
        invariant
            i <= lines.len() == glyphs.len(),
            ls == text::lines(content@),
            ls == text::texts(lines@),
            gs == glyph_lists(glyphs@),
            forall|k: int| 0 <= k < i ==> line_fits(#[trigger] ls[k], gs[k], space as int),
        decreases lines.len() - i,
    {
        assert(ls[i as int] == lines[i as int]@ && gs[i as int] == glyphs[i as int]@);
        if !can_rasterize_line(lines[i].as_str(), &glyphs[i], space) {
            return false;
        }
        i = i + 1;
    }
    true
}

/// The sprite of a text. `glyphs` holds for each line the glyphs of `glyph_requests`, and
/// `space` is how far a space moves the pen, less one.
pub fn rasterize_text_to_ascii(
    content: &str,
    glyphs: &Vec<Vec<Glyph>>,
    space: usize,
    profile: RasterProfile,
) -> (r: String)
    requires
        text_fits(content@, glyph_lists(glyphs@), space as int),
    ensures
        r@ == text_art(
            content@,
            glyph_lists(glyphs@),
            space as int,
            profile::profile_ramp(profile),
        ),
{
    let lines = text::lines_of(content);
    let ghost ls = text::lines(content@);
    let ghost gs = glyph_lists(glyphs@);
    let ghost sp = space as int;
    let ghost ramp = profile::profile_ramp(profile);
    let mut rows: Vec<String> = Vec::new();
    let mut i: usize = 0;
    assert(text::texts(rows@) == Seq::<Seq<char>>::empty());
    while i < lines.len()
        invariant
            i <= lines.len() == glyphs.len(),
            text_fits(content@, gs, sp),
            sp == space,
            ramp == profile::profile_ramp(profile),
            ls == text::lines(content@),
            ls == text::texts(lines@),
            gs == glyph_lists(glyphs@),
            text::texts(rows@) == if i == 0 || i == lines.len() {
                text_rows(ls.subrange(0, i as int), gs.subrange(0, i as int), sp, ramp)
            } else {
                text_rows(ls.subrange(0, i as int), gs.subrange(0, i as int), sp, ramp).push(
                    Seq::empty(),
                )
            },
        decreases lines.len() - i,
    {
        let ghost before = text::texts(rows@);
        let ghost part = ls.subrange(0, i + 1);
        let ghost some = gs.subrange(0, i + 1);
        assert(part.drop_last() == ls.subrange(0, i as int));
        assert(some.drop_last() == gs.subrange(0, i as int));
        assert(ls[i as int] == lines[i as int]@ && gs[i as int] == glyphs[i as int]@);
        let mut rendered = rasterize_line(lines[i].as_str(), &glyphs[i], space, profile);
        let ghost art = text::texts(rendered@);
        rows.append(&mut rendered);
        assert(text::texts(rows@) == before + art);
        assert(text::texts(rows@) == text_rows(part, some, sp, ramp));
        let ghost middle = text::texts(rows@);
        if i + 1 < lines.len() {
            rows.push(String::new());
            assert(text::texts(rows@) == middle.push(Seq::empty()));
        }
        i = i + 1;
    }
    assert(ls.subrange(0, ls.len() as int) == ls);
    assert(gs.subrange(0, gs.len() as int) == gs);
    text::join_texts(&trim_vertical(rows), "\n")
}

/// The font of the `fontdue` crate.
#[verifier::external_type_specification]
#[verifier::external_body]
pub struct ExFont(fontdue::Font);

/// What is wrong with the bytes of a font, in the words of `fontdue::Font::from_bytes`; `None`
/// where it makes a font of them.
pub uninterp spec fn font_defect(data: Seq<u8>) -> Option<Seq<char>>;

/// The characters that the bytes of a font map to glyphs, and the numbers of the glyphs, as
/// `fontdue::Font::from_bytes` reads them.
pub uninterp spec fn chars_in(data: Seq<u8>) -> Map<char, int>;

/// The characters that a font maps to glyphs, and the numbers of the glyphs: what
/// `fontdue::Font::chars` shows of it.
pub uninterp spec fn font_chars(font: fontdue::Font) -> Map<char, int>;

/// `fontdue::Font::from_bytes` with the default settings. Whether it makes a font of the
/// bytes, what it says where it does not, and which characters the font maps to which glyphs
/// depends on the bytes alone. Of the font nothing else is said: its outlines are
/// floating-point numbers.
///
/// It adds up counts and places of the file without a test, so bytes are left out in which
/// such a sum does not fit, and a build with overflow checks panics: in the list of faces, the
/// directory of tables, and the tables `cmap`, `sbix`, `COLR`, `GSUB` and `OS/2`. So are those
/// with a table `CFF `, whose programs it runs while it counts their stems; those whose `GSUB`
/// table has an extension of an extension, which it follows without end; those whose full
/// name does not consist of whole characters of UTF-16, which it takes for granted; files of
/// 2 GiB and more; and machines with short addresses. How long it takes and how much memory it
/// needs is not said.
#[verifier::external_body]
fn font_from_bytes(data: &[u8]) -> (r: Result<fontdue::Font, String>)
    requires
        font_file::can_be_parsed(data@),
    ensures
        match r {
            Ok(font) => font_defect(data@) is None && font_chars(font) == chars_in(data@),
            Err(reason) => font_defect(data@) == Some(reason@),
        },
{
    match fontdue::Font::from_bytes(data, fontdue::FontSettings::default()) {
        Ok(font) => Ok(font),
        Err(reason) => Err(reason.to_owned()),
    }
}

/// Bytes that are no font.
#[derive(Debug)]
pub struct FontDefect {
    /// What is wrong with them.
    pub reason: String,
}

impl FontDefect {
    /// The error in words.
    pub fn message(&self) -> (r: String)
        ensures
            r@ == "failed to parse font bytes: "@ + self.reason@,
    {
        let mut out = String::new();
        out.append("failed to parse font bytes: ");
        out.append(self.reason.as_str());
        out
    }
}

/// Makes a font of the bytes of a font file.
pub fn parse_font(data: &[u8]) -> (r: Result<fontdue::Font, FontDefect>)
    requires
        font_file::can_be_parsed(data@),
    ensures
        match r {
            Ok(font) => font_defect(data@) is None && font_chars(font) == chars_in(data@),
            Err(e) => font_defect(data@) == Some(e.reason@),
        },
{
    match font_from_bytes(data) {
        Ok(font) => Ok(font),
        Err(reason) => Err(FontDefect { reason }),
    }
}

/// What is left after cutting spaces off is a part of the text, from its start, that does
/// not end in a space.
proof fn lemma_without_spaces_at_end(s: Seq<char>)
    ensures
        without_spaces_at_end(s).len() <= s.len(),
        without_spaces_at_end(s) == s.subrange(0, without_spaces_at_end(s).len() as int),
        without_spaces_at_end(s).len() > 0 ==> without_spaces_at_end(s).last() != ' ',
        forall|i: int| without_spaces_at_end(s).len() <= i < s.len() ==> #[trigger] s[i] == ' ',
    decreases s.len(),
{
    if s.len() > 0 && s.last() == ' ' {
        let rest = s.drop_last();
        lemma_without_spaces_at_end(rest);
        assert forall|i: int| without_spaces_at_end(s).len() <= i < s.len() implies #[trigger] s[i]
            == ' ' by {
            if i < s.len() - 1 {
                assert(rest[i] == s[i]);
            }
        }
    }
}

/// What is left after cutting blank lines off the start are lines of the text, and the
/// first of them is not blank.
proof fn lemma_without_blank_start(ls: Seq<Seq<char>>)
    ensures
        without_blank_start(ls).len() <= ls.len(),
        without_blank_start(ls) == ls.subrange(
            ls.len() - without_blank_start(ls).len(),
            ls.len() as int,
        ),
        without_blank_start(ls).len() > 0 ==> !blank(without_blank_start(ls)[0]),
        forall|i: int| 0 <= i < ls.len() - without_blank_start(ls).len() ==> blank(#[trigger] ls[i]),
    decreases ls.len(),
{
    if ls.len() > 0 && blank(ls[0]) {
        let rest = ls.subrange(1, ls.len() as int);
        lemma_without_blank_start(rest);
        assert forall|i: int|
            0 <= i < ls.len() - without_blank_start(ls).len() implies blank(#[trigger] ls[i]) by {
            if i > 0 {
                assert(blank(rest[i - 1]));
            }
        }
    }
}

/// What is left after cutting blank lines off the end are lines of the text, and the last
/// of them is not blank.
proof fn lemma_without_blank_end(ls: Seq<Seq<char>>)
    ensures
        without_blank_end(ls).len() <= ls.len(),
        without_blank_end(ls) == ls.subrange(0, without_blank_end(ls).len() as int),
        without_blank_end(ls).len() > 0 ==> !blank(without_blank_end(ls).last()),
        forall|i: int| without_blank_end(ls).len() <= i < ls.len() ==> blank(#[trigger] ls[i]),
    decreases ls.len(),
{
    if ls.len() > 0 && blank(ls.last()) {
        let rest = ls.drop_last();
        lemma_without_blank_end(rest);
        assert forall|i: int|
            without_blank_end(ls).len() <= i < ls.len() implies blank(#[trigger] ls[i]) by {
            if i < ls.len() - 1 {
                assert(blank(rest[i]));
            }
        }
    }
}

/// The lines before the place `from` and those from the place `to` on are blank.
pub open spec fn blank_outside(ls: Seq<Seq<char>>, from: int, to: int) -> bool {
    forall|i: int| 0 <= i < from || to <= i < ls.len() ==> blank(#[trigger] ls[i])
}

/// Trimming leaves a single empty line where all lines are blank. Else it leaves lines of the
/// text one after the other, of which neither the first nor the last is blank, and cuts off
/// only blank ones.
pub proof fn law_trimmed_lines(ls: Seq<Seq<char>>)
    ensures
        trimmed_vertically(ls).len() > 0,
        blank_outside(ls, 0, 0) ==> trimmed_vertically(ls) == seq![Seq::<char>::empty()],
        !blank_outside(ls, 0, 0) ==> {
            &&& !blank(trimmed_vertically(ls)[0])
            &&& !blank(trimmed_vertically(ls).last())
            &&& exists|from: int, to: int|
                0 <= from <= to <= ls.len() && blank_outside(ls, from, to) && trimmed_vertically(ls)
                    == #[trigger] ls.subrange(from, to)
        },
{
    lemma_without_blank_start(ls);
    let tail = without_blank_start(ls);
    lemma_without_blank_end(tail);
    let rest = without_blank_end(tail);
    let from = ls.len() - tail.len();
    let to = from + rest.len();
    assert(rest == ls.subrange(from, to));
    assert forall|i: int| 0 <= i < from || to <= i < ls.len() implies blank(#[trigger] ls[i]) by {
        if i >= to {
            assert(ls[i] == tail[i - from]);
        }
    }
    if rest.len() > 0 {
        assert(rest[0] == tail[0]);
        assert(rest[0] == ls[from]);
    }
}

/// Trimming lines that were trimmed changes nothing.
pub proof fn law_trimming_lines_twice(ls: Seq<Seq<char>>)
    ensures
        trimmed_vertically(trimmed_vertically(ls)) == trimmed_vertically(ls),
{
    law_trimmed_lines(ls);
    let once = trimmed_vertically(ls);
    if once == seq![Seq::<char>::empty()] {
        assert(blank(once[0]));
        let none = Seq::<Seq<char>>::empty();
        assert(once.subrange(1, 1) == none);
        assert(without_blank_start(none) == none);
        assert(without_blank_end(none) == none);
    }
}

/// The coverage of a pixel is a byte, and drawing more characters never lessens it.
pub proof fn law_coverage_only_grows(
    t: Seq<char>,
    g: Seq<Glyph>,
    space: int,
    i: int,
    j: int,
    x: int,
    y: int,
)
    requires
        0 <= i <= j,
    ensures
        0 <= coverage(t, g, space, i, x, y) <= coverage(t, g, space, j, x, y) <= 255,
    decreases j,
{
    if i < j {
        law_coverage_only_grows(t, g, space, i, j - 1, x, y);
    } else if j > 0 {
        law_coverage_only_grows(t, g, space, i - 1, j - 1, x, y);
    }
}

/// Each glyph lies within its line's canvas, and at least one column is free between it
/// and whatever stands to its right.
pub proof fn law_glyphs_keep_apart(t: Seq<char>, g: Seq<Glyph>, space: int, i: int, j: int)
    requires
        line_fits(t, g, space),
        0 <= space,
        0 <= i < j <= t.len(),
        t[i] != ' ',
    ensures
        0 <= pen(t, g, space, i),
        pen(t, g, space, i) + glyph_at(t, g, i).width < pen(t, g, space, j) <= line_width(
            t,
            g,
            space,
        ),
{
    lemma_pen_grows(t, g, space, 0, i);
    lemma_pen_grows(t, g, space, i + 1, j);
    lemma_pen_grows(t, g, space, j, t.len() as int);
    lemma_line_fits_bounds(t, g, space);
}

/// The pixel at `x`, `y` lies in the bitmap of the glyph of the character at position `i`.
pub open spec fn lies_in(t: Seq<char>, g: Seq<Glyph>, space: int, i: int, x: int, y: int) -> bool {
    let e = glyph_at(t, g, i);
    let x0 = pen(t, g, space, i);
    let y0 = (line_height(g) - e.height) / 2;
    t[i] != ' ' && x0 <= x < x0 + e.width && y0 <= y < y0 + e.height
}

/// What the bitmap of the glyph of the character at position `i` holds for the pixel at
/// `x`, `y`.
pub open spec fn own_coverage(
    t: Seq<char>,
    g: Seq<Glyph>,
    space: int,
    i: int,
    x: int,
    y: int,
) -> int {
    let e = glyph_at(t, g, i);
    let x0 = pen(t, g, space, i);
    let y0 = (line_height(g) - e.height) / 2;
    e.bitmap@[(y - y0) * e.width + (x - x0)] as int
}

proof fn lemma_coverage_of_own(
    t: Seq<char>,
    g: Seq<Glyph>,
    space: int,
    n: int,
    i: int,
    x: int,
    y: int,
)
    requires
        line_fits(t, g, space),
        0 <= space,
        0 <= i < t.len(),
        0 <= n <= t.len(),
        lies_in(t, g, space, i, x, y),
    ensures
        coverage(t, g, space, n, x, y) == if i < n {
            own_coverage(t, g, space, i, x, y)
        } else {
            0
        },
    decreases n,
{
    if n > 0 {
        let k = n - 1;
        lemma_coverage_of_own(t, g, space, k, i, x, y);
        if t[k] != ' ' {
            if k < i {
                law_glyphs_keep_apart(t, g, space, k, i);
            } else if i < k {
                law_glyphs_keep_apart(t, g, space, i, k);
            }
        }
    }
}

proof fn lemma_coverage_of_none(t: Seq<char>, g: Seq<Glyph>, space: int, n: int, x: int, y: int)
    requires
        forall|i: int| 0 <= i < n ==> !#[trigger] lies_in(t, g, space, i, x, y),
    ensures
        coverage(t, g, space, n, x, y) == 0,
    decreases n,
{
    if n > 0 {
        lemma_coverage_of_none(t, g, space, n - 1, x, y);
        assert(!lies_in(t, g, space, n - 1, x, y));
    }
}

/// Each pixel of a glyph shows at its place with the coverage that the glyph gives it, and
/// every other pixel has none.
pub proof fn law_pixels_are_those_of_the_glyphs(
    t: Seq<char>,
    g: Seq<Glyph>,
    space: int,
    x: int,
    y: int,
)
    requires
        line_fits(t, g, space),
        0 <= space,
    ensures
        forall|i: int|
            0 <= i < t.len() && #[trigger] lies_in(t, g, space, i, x, y) ==> coverage(
                t,
                g,
                space,
                t.len() as int,
                x,
                y,
            ) == own_coverage(t, g, space, i, x, y),
        (forall|i: int| 0 <= i < t.len() ==> !#[trigger] lies_in(t, g, space, i, x, y))
            ==> coverage(t, g, space, t.len() as int, x, y) == 0,
{
    assert forall|i: int|
        0 <= i < t.len() && #[trigger] lies_in(t, g, space, i, x, y) implies coverage(
        t,
        g,
        space,
        t.len() as int,
        x,
        y,
    ) == own_coverage(t, g, space, i, x, y) by {
        lemma_coverage_of_own(t, g, space, t.len() as int, i, x, y);
    }
    if forall|i: int| 0 <= i < t.len() ==> !#[trigger] lies_in(t, g, space, i, x, y) {
        lemma_coverage_of_none(t, g, space, t.len() as int, x, y);
    }
}

/// No coverage gives the first character of a ramp, full coverage the last, and a stronger
/// coverage never an earlier one.
pub proof fn law_shades_follow_the_ramp(p: RasterProfile, v: int, w: int)
    requires
        0 <= v <= w <= 255,
    ensures
        shade(profile::profile_ramp(p), 0) == profile::profile_ramp(p)[0],
        shade(profile::profile_ramp(p), 255) == profile::profile_ramp(p).last(),
        0 <= v * (profile::profile_ramp(p).len() - 1) / 255 <= w * (profile::profile_ramp(p).len()
            - 1) / 255 < profile::profile_ramp(p).len(),
{
    profile::law_ramp_size(p);
    let top = profile::profile_ramp(p).len() - 1;
    lemma_shade_index(v, top);
    lemma_shade_index(w, top);
    assert(v * top <= w * top) by (nonlinear_arith)
        requires
            0 <= v <= w,
            0 <= top,
    ;
}

/// A row is no wider than its canvas, does not end in a space, and holds characters of the
/// ramp only.
pub proof fn law_row(t: Seq<char>, g: Seq<Glyph>, space: int, p: RasterProfile, y: int)
    ensures
        ({
            let r = row(t, g, space, profile::profile_ramp(p), y);
            &&& r.len() <= line_width(t, g, space)
            &&& r.len() > 0 ==> r.last() != ' '
            &&& forall|x: int|
                0 <= x < r.len() ==> profile::profile_ramp(p).contains(#[trigger] r[x])
        }),
{
    let ramp = profile::profile_ramp(p);
    let full = Seq::new(
        line_width(t, g, space) as nat,
        |x: int| shade(ramp, coverage(t, g, space, t.len() as int, x, y)),
    );
    let r = row(t, g, space, ramp, y);
    lemma_without_spaces_at_end(full);
    assert forall|x: int| 0 <= x < r.len() implies ramp.contains(#[trigger] r[x]) by {
        let v = coverage(t, g, space, t.len() as int, x, y);
        law_coverage_only_grows(t, g, space, 0, t.len() as int, x, y);
        law_shades_follow_the_ramp(p, v, v);
        assert(r[x] == full[x]);
        assert(r[x] == ramp[v * (ramp.len() - 1) / 255]);
    }
}

/// The rows of a line of text are one empty row, or rows that end in no space and hold
/// characters of the ramp only; they are never more than the line is high.
pub proof fn law_line_art(t: Seq<char>, g: Seq<Glyph>, space: int, p: RasterProfile, k: int)
    requires
        0 <= k < line_art(t, g, space, profile::profile_ramp(p)).len(),
    ensures
        ({
            let art = line_art(t, g, space, profile::profile_ramp(p));
            &&& 1 <= art.len() <= line_height(g)
            &&& art[k].len() <= line_width(t, g, space)
            &&& art[k].len() > 0 ==> art[k].last() != ' '
            &&& forall|x: int|
                0 <= x < art[k].len() ==> profile::profile_ramp(p).contains(#[trigger] art[k][x])
        }),
{
    let ramp = profile::profile_ramp(p);
    lemma_line_height(g);
    if t.len() > 0 {
        let rows = Seq::new(line_height(g) as nat, |y: int| row(t, g, space, ramp, y));
        law_trimmed_lines(rows);
        let art = trimmed_vertically(rows);
        if art != seq![Seq::<char>::empty()] {
            let (from, to) = choose|from: int, to: int|
                0 <= from <= to <= rows.len() && art == #[trigger] rows.subrange(from, to);
            assert(art[k] == rows[from + k]);
            law_row(t, g, space, p, from + k);
        }
    }
}

/// A row that holds characters of a ramp only and does not end in a space.
pub open spec fn clean(r: Seq<char>, ramp: Seq<char>) -> bool {
    &&& r.len() > 0 ==> r.last() != ' '
    &&& forall|x: int| 0 <= x < r.len() ==> ramp.contains(#[trigger] r[x])
}

proof fn lemma_text_rows_are_clean(
    ls: Seq<Seq<char>>,
    gs: Seq<Seq<Glyph>>,
    space: int,
    p: RasterProfile,
)
    requires
        gs.len() == ls.len(),
    ensures
        forall|k: int|
            0 <= k < text_rows(ls, gs, space, profile::profile_ramp(p)).len() ==> clean(
                #[trigger] text_rows(ls, gs, space, profile::profile_ramp(p))[k],
                profile::profile_ramp(p),
            ),
    decreases ls.len(),
{
    let ramp = profile::profile_ramp(p);
    let rows = text_rows(ls, gs, space, ramp);
    if ls.len() > 0 {
        let art = line_art(ls.last(), gs.last(), space, ramp);
        let n = rows.len() - art.len();
        assert forall|k: int| 0 <= k < art.len() implies clean(#[trigger] art[k], ramp) by {
            law_line_art(ls.last(), gs.last(), space, p, k);
        }
        if ls.len() > 1 {
            let before = text_rows(ls.drop_last(), gs.drop_last(), space, ramp);
            lemma_text_rows_are_clean(ls.drop_last(), gs.drop_last(), space, p);
            assert forall|k: int| 0 <= k < rows.len() implies clean(#[trigger] rows[k], ramp) by {
                if k < before.len() {
                    assert(rows[k] == before[k]);
                } else if k > before.len() {
                    assert(rows[k] == art[k - n]);
                }
            }
        }
    }
}

/// A sprite is empty, or its lines are the rows that show the text: each holds characters
/// of the ramp only and ends in no space, and neither the first nor the last is blank.
pub proof fn law_sprite_lines(
    content: Seq<char>,
    gs: Seq<Seq<Glyph>>,
    space: int,
    p: RasterProfile,
)
    requires
        gs.len() == text::lines(content).len(),
    ensures
        ({
            let ramp = profile::profile_ramp(p);
            let rows = trimmed_vertically(text_rows(text::lines(content), gs, space, ramp));
            let art = text_art(content, gs, space, ramp);
            art.len() == 0 || {
                &&& text::lines(art) == rows
                &&& !blank(rows[0]) && !blank(rows.last())
                &&& forall|k: int| 0 <= k < rows.len() ==> clean(#[trigger] rows[k], ramp)
            }
        }),
{
    let ramp = profile::profile_ramp(p);
    let all = text_rows(text::lines(content), gs, space, ramp);
    let rows = trimmed_vertically(all);
    lemma_text_rows_are_clean(text::lines(content), gs, space, p);
    law_trimmed_lines(all);
    if rows != seq![Seq::<char>::empty()] {
        let (from, to) = choose|from: int, to: int|
            0 <= from <= to <= all.len() && rows == #[trigger] all.subrange(from, to);
        assert forall|k: int| 0 <= k < rows.len() implies clean(#[trigger] rows[k], ramp)
            && text::line_like(rows[k]) by {
            assert(rows[k] == all[from + k]);
            assert forall|x: int| 0 <= x < rows[k].len() implies rows[k][x] != '\n' && rows[k][x]
                != '\r' by {
                let c = rows[k][x];
                assert(ramp.contains(c));
                let i = choose|i: int| 0 <= i < ramp.len() && ramp[i] == c;
                profile::law_ramp_is_printable(p, i);
            }
        }
        assert(rows.last().len() > 0) by {
            assert(!blank(rows.last()));
        }
        text::law_lines_read_back(rows);
    }
}

/// A line is blank where all of its characters are white space.
pub proof fn law_blank(s: Seq<char>)
    ensures
        blank(s) <==> forall|i: int| 0 <= i < s.len() ==> text::white_space(#[trigger] s[i]),
{
    text::law_trim_leaves_nothing(s);
}

/// A glyph is asked for each character but the space, in order, for each part of a text by
/// itself.
pub proof fn law_ink(a: Seq<char>, b: Seq<char>, c: char)
    ensures
        ink(a + b) == ink(a) + ink(b),
        c != ' ' ==> ink(seq![c]) == seq![c],
        ink(seq![' ']).len() == 0,
        ink(Seq::empty()).len() == 0,
    decreases b.len(),
{
    let none = Seq::<char>::empty();
    assert(ink(none) == none);
    assert(seq![c].drop_last() == none);
    assert(seq![' '].drop_last() == none);
    if b.len() == 0 {
        assert(a + b == a);
        assert(ink(a) + ink(b) == ink(a));
    } else {
        law_ink(a, b.drop_last(), c);
        assert((a + b).drop_last() == a + b.drop_last());
        assert((a + b).last() == b.last());
        if b.last() != ' ' {
            assert(ink(a + b) == ink(a) + ink(b));
        }
    }
}

/// The glyphs are given to the characters but the spaces in order: the one that a character
/// has comes after those of the characters before it.
pub proof fn law_glyphs_are_in_order(a: Seq<char>, c: char, b: Seq<char>, g: Seq<Glyph>)
    ensures
        glyph_at(a + seq![c] + b, g, a.len() as int) == g[ink(a).len() as int],
{
    assert((a + seq![c] + b).subrange(0, a.len() as int) == a);
}

/// The pen starts at the left edge. A space moves it by the width of a space and one more, and
/// a glyph by one more than the larger of its width and its advance.
pub proof fn law_pen(a: Seq<char>, c: char, b: Seq<char>, g: Seq<Glyph>, space: int)
    ensures
        ({
            let t = a + seq![c] + b;
            let n = a.len() as int;
            let e = g[ink(a).len() as int];
            let step = pen(t, g, space, n + 1) - pen(t, g, space, n);
            &&& pen(t, g, space, 0) == 0
            &&& c == ' ' ==> step == space + 1
            &&& c != ' ' && e.width < usize::MAX && e.advance < usize::MAX ==> {
                &&& step > e.width && step > e.advance
                &&& step == e.width + 1 || step == e.advance + 1
            }
        }),
{
    law_glyphs_are_in_order(a, c, b, g);
    assert((a + seq![c] + b)[a.len() as int] == c);
}

/// The canvas of a line ends where the pen ends, and has a column where the pen does not move.
pub proof fn law_line_width(t: Seq<char>, g: Seq<Glyph>, space: int)
    requires
        0 <= space,
    ensures
        t.len() > 0 ==> line_width(t, g, space) == pen(t, g, space, t.len() as int),
        t.len() == 0 ==> line_width(t, g, space) == 1,
{
    if t.len() > 0 {
        lemma_pen_grows(t, g, space, 0, t.len() - 1);
    }
}

/// The canvas of a line is as high as the highest glyph that has pixels, and one pixel where
/// there is none.
pub proof fn law_line_height(g: Seq<Glyph>)
    ensures
        1 <= line_height(g),
        forall|j: int|
            0 <= j < g.len() && g[j].width > 0 ==> (#[trigger] g[j]).height <= line_height(g),
        line_height(g) == 1 || exists|j: int|
            0 <= j < g.len() && g[j].width > 0 && (#[trigger] g[j]).height == line_height(g),
    decreases g.len(),
{
    lemma_line_height(g);
    if g.len() > 0 && line_height(g) != 1 {
        let rest = g.drop_last();
        law_line_height(rest);
        if g.last().width > 0 && g.last().height == line_height(g) {
            assert(g[g.len() - 1].height == line_height(g));
        } else {
            let j = choose|j: int|
                0 <= j < rest.len() && rest[j].width > 0 && (#[trigger] rest[j]).height
                    == line_height(rest);
            assert(g[j] == rest[j]);
        }
    }
}

/// The pixel in the column `x` and the row `y` of the bitmap of a character's glyph shows as
/// many columns right of the place of the pen at that character, and as many rows below the
/// top of the glyph. The glyph stands in the middle of the line's height, and where that is
/// not a whole row, above it.
pub proof fn law_glyph_is_shown(
    a: Seq<char>,
    c: char,
    b: Seq<char>,
    g: Seq<Glyph>,
    space: int,
    x: int,
    y: int,
    top: int,
)
    requires
        c != ' ',
        0 <= space,
        line_fits(a + seq![c] + b, g, space),
        0 <= x < g[ink(a).len() as int].width,
        0 <= y < g[ink(a).len() as int].height,
        2 * top <= line_height(g) - g[ink(a).len() as int].height < 2 * top + 2,
    ensures
        ({
            let t = a + seq![c] + b;
            let e = g[ink(a).len() as int];
            &&& coverage(
                t,
                g,
                space,
                t.len() as int,
                pen(t, g, space, a.len() as int) + x,
                top + y,
            ) == e.bitmap@[y * e.width + x]
            &&& 0 <= top && top + e.height <= line_height(g)
        }),
{
    let t = a + seq![c] + b;
    let n = a.len() as int;
    let e = g[ink(a).len() as int];
    assert(t[n] == c);
    law_glyphs_are_in_order(a, c, b, g);
    lemma_glyph_there(t, n);
    assert(t.subrange(0, n) == a);
    lemma_line_height(g);
    assert(g[ink(a).len() as int].height <= line_height(g));
    assert(top == (line_height(g) - e.height) / 2);
    let px = pen(t, g, space, n) + x;
    assert(lies_in(t, g, space, n, px, top + y));
    law_pixels_are_those_of_the_glyphs(t, g, space, px, top + y);
    assert(own_coverage(t, g, space, n, px, top + y) == e.bitmap@[y * e.width + x]);
}

/// A pixel outside of all glyphs has no coverage: one that lies left or right of each glyph,
/// or above or below it.
pub proof fn law_nothing_else_is_shown(t: Seq<char>, g: Seq<Glyph>, space: int, x: int, y: int)
    requires
        forall|i: int|
            0 <= i < t.len() && #[trigger] t[i] != ' ' ==> {
                let e = glyph_at(t, g, i);
                let left = pen(t, g, space, i);
                let top = (line_height(g) - e.height) / 2;
                x < left || left + e.width <= x || y < top || top + e.height <= y
            },
    ensures
        coverage(t, g, space, t.len() as int, x, y) == 0,
{
    assert forall|i: int| 0 <= i < t.len() implies !#[trigger] lies_in(t, g, space, i, x, y) by {
        assert(t[i] == ' ' || t[i] != ' ');
    }
    lemma_coverage_of_none(t, g, space, t.len() as int, x, y);
}

/// The ramp is cut into as many steps as it has characters but one: a coverage shows as the
/// character of the last step that it has reached.
pub proof fn law_shade(ramp: Seq<char>, v: int, k: int)
    requires
        0 <= v <= 255,
        0 <= k < ramp.len(),
        255 * k <= v * (ramp.len() - 1) < 255 * (k + 1),
    ensures
        shade(ramp, v) == ramp[k],
{
    let p = v * (ramp.len() - 1);
    assert(p / 255 == k);
}

/// A row shows the coverage of each pixel of the canvas at its place, as a character of the
/// ramp; only spaces are cut off, and all of those at its end.
pub proof fn law_row_shows_each_pixel(
    t: Seq<char>,
    g: Seq<Glyph>,
    space: int,
    ramp: Seq<char>,
    y: int,
    x: int,
)
    requires
        0 <= x < line_width(t, g, space),
    ensures
        ({
            let r = row(t, g, space, ramp, y);
            let c = shade(ramp, coverage(t, g, space, t.len() as int, x, y));
            &&& x < r.len() ==> r[x] == c
            &&& r.len() <= x ==> c == ' '
            &&& r.len() <= line_width(t, g, space)
            &&& r.len() > 0 ==> r.last() != ' '
        }),
{
    let full = Seq::new(
        line_width(t, g, space) as nat,
        |x: int| shade(ramp, coverage(t, g, space, t.len() as int, x, y)),
    );
    lemma_without_spaces_at_end(full);
    assert(full[x] == shade(ramp, coverage(t, g, space, t.len() as int, x, y)));
}

/// The art of a line holds the rows of its canvas below each other, from the first that is
/// not blank to the last one. A line all of whose rows are blank is one empty row, and so is
/// an empty line.
pub proof fn law_line_art_shows_each_row(
    t: Seq<char>,
    g: Seq<Glyph>,
    space: int,
    ramp: Seq<char>,
    rows: Seq<Seq<char>>,
)
    requires
        rows.len() == line_height(g),
        forall|y: int| 0 <= y < rows.len() ==> #[trigger] rows[y] == row(t, g, space, ramp, y),
    ensures
        t.len() == 0 || (forall|y: int| 0 <= y < rows.len() ==> blank(#[trigger] rows[y]))
            ==> line_art(t, g, space, ramp) == seq![Seq::<char>::empty()],
        t.len() > 0 && !(forall|y: int| 0 <= y < rows.len() ==> blank(#[trigger] rows[y])) ==> {
            let art = line_art(t, g, space, ramp);
            &&& !blank(art[0]) && !blank(art.last())
            &&& exists|from: int|
                {
                    &&& 0 <= from <= from + art.len() <= rows.len()
                    &&& art == #[trigger] rows.subrange(from, from + art.len())
                    &&& forall|y: int|
                        0 <= y < from || from + art.len() <= y < rows.len() ==> blank(
                            #[trigger] rows[y],
                        )
                }
        },
{
    let art = line_art(t, g, space, ramp);
    if t.len() > 0 {
        assert(rows == Seq::new(line_height(g) as nat, |y: int| row(t, g, space, ramp, y)));
        law_trimmed_lines(rows);
        if forall|y: int| 0 <= y < rows.len() ==> blank(#[trigger] rows[y]) {
            assert(blank_outside(rows, 0, 0));
        } else {
            assert(!blank_outside(rows, 0, 0));
            let (from, to) = choose|from: int, to: int|
                0 <= from <= to <= rows.len() && blank_outside(rows, from, to) && art
                    == #[trigger] rows.subrange(from, to);
            assert(art == rows.subrange(from, from + art.len()));
        }
    }
}

/// The row at which the line at `i` starts, where the lines stand below each other with an
/// empty row between each two.
pub open spec fn start_of_line(
    ls: Seq<Seq<char>>,
    gs: Seq<Seq<Glyph>>,
    space: int,
    ramp: Seq<char>,
    i: int,
) -> int
    decreases i,
{
    if i <= 0 {
        0
    } else {
        start_of_line(ls, gs, space, ramp, i - 1) + line_art(ls[i - 1], gs[i - 1], space, ramp).len()
            + 1
    }
}

/// The rows of two texts below each other are those of the one, an empty row, and those of
/// the other; the rows of one line are its art.
pub proof fn law_texts_below_each_other(
    a: Seq<Seq<char>>,
    b: Seq<Seq<char>>,
    ga: Seq<Seq<Glyph>>,
    gb: Seq<Seq<Glyph>>,
    space: int,
    ramp: Seq<char>,
)
    requires
        a.len() == ga.len() > 0,
        b.len() == gb.len() > 0,
    ensures
        text_rows(a + b, ga + gb, space, ramp) == text_rows(a, ga, space, ramp) + seq![
            Seq::<char>::empty(),
        ] + text_rows(b, gb, space, ramp),
        b.len() == 1 ==> text_rows(b, gb, space, ramp) == line_art(b[0], gb[0], space, ramp),
    decreases b.len(),
{
    let e = seq![Seq::<char>::empty()];
    let c = b.drop_last();
    let gc = gb.drop_last();
    assert((a + b).drop_last() == a + c);
    assert((ga + gb).drop_last() == ga + gc);
    if c.len() > 0 {
        law_texts_below_each_other(a, c, ga, gc, space, ramp);
        let x = text_rows(a, ga, space, ramp);
        let y = text_rows(c, gc, space, ramp);
        let z = line_art(b.last(), gb.last(), space, ramp);
        assert(x + e + y + e + z == x + e + (y + e + z));
    } else {
        assert(a + c == a && ga + gc == ga);
    }
}

/// The rows of a text are those of all of its lines: each line's stand as one block behind
/// those of the lines before it, and an empty row stands between each two lines. There are no
/// other rows.
pub proof fn law_every_line_is_drawn(
    ls: Seq<Seq<char>>,
    gs: Seq<Seq<Glyph>>,
    space: int,
    ramp: Seq<char>,
    i: int,
)
    requires
        ls.len() == gs.len(),
        0 <= i < ls.len(),
    ensures
        ({
            let rows = text_rows(ls, gs, space, ramp);
            let art = line_art(ls[i], gs[i], space, ramp);
            let at = start_of_line(ls, gs, space, ramp, i);
            &&& 0 <= at <= at + art.len() <= rows.len()
            &&& rows.subrange(at, at + art.len()) == art
            &&& i > 0 ==> at > 0 && rows[at - 1] == Seq::<char>::empty()
        }),
        text_rows(ls, gs, space, ramp).len() == start_of_line(
            ls,
            gs,
            space,
            ramp,
            ls.len() as int,
        ) - 1,
{
    lemma_number_of_rows(ls, gs, space, ramp);
    lemma_line_is_drawn(ls, gs, space, ramp, i);
}

/// A text without lines has no rows.
pub proof fn law_nothing_is_drawn_of_nothing(
    gs: Seq<Seq<Glyph>>,
    space: int,
    ramp: Seq<char>,
)
    ensures
        text_rows(Seq::empty(), gs, space, ramp).len() == 0,
{
}

/// One more block behind the rows and an empty row.
proof fn lemma_block_behind(before: Seq<Seq<char>>, art: Seq<Seq<char>>, rows: Seq<Seq<char>>)
    requires
        rows == before + seq![Seq::<char>::empty()] + art,
    ensures
        rows.len() == before.len() + 1 + art.len(),
        rows.subrange(before.len() as int + 1, rows.len() as int) == art,
        rows[before.len() as int] == Seq::<char>::empty(),
{
    assert(rows.subrange(before.len() as int + 1, rows.len() as int) =~= art);
}

/// Earlier blocks stay where they are.
proof fn lemma_block_before(
    before: Seq<Seq<char>>,
    art: Seq<Seq<char>>,
    rows: Seq<Seq<char>>,
    from: int,
    to: int,
)
    requires
        rows == before + seq![Seq::<char>::empty()] + art,
        0 <= from <= to <= before.len(),
    ensures
        rows.subrange(from, to) == before.subrange(from, to),
        from > 0 ==> rows[from - 1] == before[from - 1],
{
    assert(rows.subrange(from, to) =~= before.subrange(from, to));
}

proof fn lemma_text_rows_step(
    ls: Seq<Seq<char>>,
    gs: Seq<Seq<Glyph>>,
    space: int,
    ramp: Seq<char>,
)
    requires
        ls.len() == gs.len() > 0,
    ensures
        ls.len() == 1 ==> text_rows(ls, gs, space, ramp) == line_art(ls[0], gs[0], space, ramp),
        ls.len() > 1 ==> text_rows(ls, gs, space, ramp) == text_rows(
            ls.drop_last(),
            gs.drop_last(),
            space,
            ramp,
        ) + seq![Seq::<char>::empty()] + line_art(
            ls[ls.len() - 1],
            gs[gs.len() - 1],
            space,
            ramp,
        ),
{
}

proof fn lemma_number_of_rows(
    ls: Seq<Seq<char>>,
    gs: Seq<Seq<Glyph>>,
    space: int,
    ramp: Seq<char>,
)
    requires
        ls.len() == gs.len(),
    ensures
        ls.len() == 0 ==> text_rows(ls, gs, space, ramp).len() == 0,
        ls.len() > 0 ==> text_rows(ls, gs, space, ramp).len() == start_of_line(
            ls,
            gs,
            space,
            ramp,
            ls.len() as int,
        ) - 1,
    decreases ls.len(),
{
    if ls.len() > 0 {
        let n = ls.len() - 1;
        lemma_text_rows_step(ls, gs, space, ramp);
        assert(start_of_line(ls, gs, space, ramp, n + 1) == start_of_line(ls, gs, space, ramp, n)
            + line_art(ls[n], gs[n], space, ramp).len() + 1);
        if n > 0 {
            lemma_number_of_rows(ls.drop_last(), gs.drop_last(), space, ramp);
            lemma_start_of_line(ls, gs, ls.drop_last(), gs.drop_last(), space, ramp, n);
        }
    }
}

proof fn lemma_line_is_drawn(
    ls: Seq<Seq<char>>,
    gs: Seq<Seq<Glyph>>,
    space: int,
    ramp: Seq<char>,
    i: int,
)
    requires
        ls.len() == gs.len(),
        0 <= i < ls.len(),
    ensures
        ({
            let at = start_of_line(ls, gs, space, ramp, i);
            let art = line_art(ls[i], gs[i], space, ramp);
            &&& 0 <= at <= at + art.len() <= text_rows(ls, gs, space, ramp).len()
            &&& text_rows(ls, gs, space, ramp).subrange(at, at + art.len()) == art
            &&& i > 0 ==> at > 0 && text_rows(ls, gs, space, ramp)[at - 1] == Seq::<char>::empty()
        }),
    decreases ls.len(),
{
    let rows = text_rows(ls, gs, space, ramp);
    let n = ls.len() - 1;
    let a = ls.drop_last();
    let ga = gs.drop_last();
    let before = text_rows(a, ga, space, ramp);
    let art = line_art(ls[n], gs[n], space, ramp);
    let at = start_of_line(ls, gs, space, ramp, i);
    lemma_text_rows_step(ls, gs, space, ramp);
    lemma_start_of_line(ls, gs, a, ga, space, ramp, i);
    if i < n {
        lemma_line_is_drawn(a, ga, space, ramp, i);
        assert(a[i] == ls[i] && ga[i] == gs[i]);
        let own = line_art(ls[i], gs[i], space, ramp);
        lemma_block_before(before, art, rows, at, at + own.len());
    } else if n > 0 {
        lemma_number_of_rows(a, ga, space, ramp);
        lemma_block_behind(before, art, rows);
    } else {
        assert(rows.subrange(0, rows.len() as int) =~= rows);
    }
}

proof fn lemma_start_of_line(
    ls: Seq<Seq<char>>,
    gs: Seq<Seq<Glyph>>,
    a: Seq<Seq<char>>,
    ga: Seq<Seq<Glyph>>,
    space: int,
    ramp: Seq<char>,
    i: int,
)
    requires
        a == ls.drop_last(),
        ga == gs.drop_last(),
        ls.len() == gs.len() > 0,
        0 <= i < ls.len(),
    ensures
        start_of_line(ls, gs, space, ramp, i) == start_of_line(a, ga, space, ramp, i),
    decreases i,
{
    if i > 0 {
        lemma_start_of_line(ls, gs, a, ga, space, ramp, i - 1);
        assert(a[i - 1] == ls[i - 1] && ga[i - 1] == gs[i - 1]);
    }
}

/// The lines of a sprite are the rows of all lines of its text, one after the other, from the
/// first row that is not blank to the last one; the sprite is empty where all rows are blank.
pub proof fn law_sprite_shows_every_row(
    content: Seq<char>,
    gs: Seq<Seq<Glyph>>,
    space: int,
    p: RasterProfile,
)
    requires
        gs.len() == text::lines(content).len(),
    ensures
        ({
            let ramp = profile::profile_ramp(p);
            let rows = text_rows(text::lines(content), gs, space, ramp);
            let shown = text::lines(text_art(content, gs, space, ramp));
            exists|from: int|
                {
                    &&& 0 <= from <= from + shown.len() <= rows.len()
                    &&& shown == #[trigger] rows.subrange(from, from + shown.len())
                    &&& forall|y: int|
                        0 <= y < from || from + shown.len() <= y < rows.len() ==> blank(
                            #[trigger] rows[y],
                        )
                    &&& shown.len() > 0 ==> !blank(shown[0]) && !blank(shown.last())
                }
        }),
{
    let ramp = profile::profile_ramp(p);
    let rows = text_rows(text::lines(content), gs, space, ramp);
    let art = text_art(content, gs, space, ramp);
    let shown = text::lines(art);
    law_trimmed_lines(rows);
    law_sprite_lines(content, gs, space, p);
    let kept = trimmed_vertically(rows);
    if blank_outside(rows, 0, 0) {
        assert(kept.len() == 1 && kept[0] == Seq::<char>::empty());
        assert(art == Seq::<char>::empty());
        assert(shown == rows.subrange(0, 0int + shown.len()));
    } else {
        let (from, to) = choose|from: int, to: int|
            0 <= from <= to <= rows.len() && blank_outside(rows, from, to) && kept
                == #[trigger] rows.subrange(from, to);
        assert(art.len() > 0) by {
            assert(kept.last().len() > 0) by {
                assert(!blank(kept.last()));
            }
            if kept.len() > 1 {
                assert(art == text::join(kept.drop_last(), "\n"@) + "\n"@ + kept.last());
            }
        }
        assert(shown == kept);
        assert(shown == rows.subrange(from, from + shown.len()));
        assert forall|y: int|
            0 <= y < from || from + shown.len() <= y < rows.len() implies blank(
            #[trigger] rows[y],
        ) by {}
    }
}

/// A text can be drawn where each of its lines has as many glyphs as characters that are no
/// spaces, each glyph has a byte for each of its pixels, and no canvas has more pixels than
/// memory can hold.
pub proof fn law_what_can_be_drawn(content: Seq<char>, gs: Seq<Seq<Glyph>>, space: int)
    ensures
        text_fits(content, gs, space) <==> {
            &&& gs.len() == text::lines(content).len()
            &&& forall|i: int|
                #![trigger gs[i]]
                0 <= i < gs.len() ==> {
                    &&& gs[i].len() == ink(text::lines(content)[i]).len()
                    &&& line_width(text::lines(content)[i], gs[i], space) * line_height(gs[i])
                        <= isize::MAX
                }
            &&& forall|i: int, j: int|
                #![trigger gs[i][j]]
                0 <= i < gs.len() && 0 <= j < gs[i].len() ==> gs[i][j].width * gs[i][j].height
                    <= gs[i][j].bitmap@.len()
        },
{
    let ls = text::lines(content);
    if text_fits(content, gs, space) {
        assert forall|i: int|
            #![trigger gs[i]]
            0 <= i < gs.len() implies line_fits(ls[i], gs[i], space) by {
            assert(line_fits(text::lines(content)[i], gs[i], space));
        }
        assert forall|i: int, j: int|
            #![trigger gs[i][j]]
            0 <= i < gs.len() && 0 <= j < gs[i].len() implies complete(gs[i][j]) by {
            assert(line_fits(ls[i], gs[i], space));
        }
    } else if gs.len() == ls.len() {
        let i = choose|i: int|
            0 <= i < gs.len() && !line_fits(#[trigger] text::lines(content)[i], gs[i], space);
        if exists|j: int| 0 <= j < gs[i].len() && !complete(#[trigger] gs[i][j]) {
            let j = choose|j: int| 0 <= j < gs[i].len() && !complete(#[trigger] gs[i][j]);
            assert(gs[i][j].width * gs[i][j].height > gs[i][j].bitmap@.len());
        }
    }
}

/// The glyphs of each line are seen as they are, at the place of their line.
pub proof fn law_glyph_lists(v: Seq<Vec<Glyph>>, i: int)
    requires
        0 <= i < v.len(),
    ensures
        glyph_lists(v).len() == v.len(),
        glyph_lists(v)[i] == v[i]@,
{
}

} // verus!

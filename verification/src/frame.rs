//! What screens are made of: pieces of text at places, and the parts of longer texts and
//! lists that fit.

use vstd::prelude::*;
use crate::text;

verus! {

/// A piece of text at a place of the screen.
#[derive(Debug)]
pub struct Span {
    /// The column.
    pub x: u16,
    /// The row.
    pub y: u16,
    pub content: String,
    pub bold: bool,
}

/// A piece of text at a place.
pub struct SpanView {
    pub x: int,
    pub y: int,
    pub content: Seq<char>,
    pub bold: bool,
}

impl View for Span {
    type V = SpanView;

    open spec fn view(&self) -> SpanView {
        SpanView { x: self.x as int, y: self.y as int, content: self.content@, bold: self.bold }
    }
}

/// The pieces of a screen.
pub open spec fn spans(v: Seq<Span>) -> Seq<SpanView> {
    Seq::new(v.len(), |i: int| v[i]@)
}

/// A piece of plain text.
pub open spec fn plain(x: int, y: int, content: Seq<char>) -> SpanView {
    SpanView { x, y, content, bold: false }
}

/// A piece of bold text.
pub open spec fn strong(x: int, y: int, content: Seq<char>) -> SpanView {
    SpanView { x, y, content, bold: true }
}

/// Adds a piece of text to a screen.
pub fn place(frame: &mut Vec<Span>, x: u16, y: u16, content: &str, bold: bool)
    ensures
        spans(final(frame)@) == spans(old(frame)@).push(
            (SpanView { x: x as int, y: y as int, content: content@, bold }),
        ),
{
    let ghost before = spans(frame@);
    let ghost piece = SpanView { x: x as int, y: y as int, content: content@, bold };
    frame.push(Span { x, y, content: content.to_owned(), bold });
    assert(spans(frame@) == before.push(piece));
}

/// The first `width` characters of a text, or all of them.
pub open spec fn truncated(s: Seq<char>, width: int) -> Seq<char> {
    if s.len() <= width {
        s
    } else {
        s.subrange(0, width)
    }
}

/// As much of a text as fits into `width` characters.
pub fn truncate_to_width(content: &str, width: usize) -> (r: &str)
    ensures
        r@ == truncated(content@, width as int),
{
    if content.unicode_len() <= width {
        return content;
    }
    content.substring_char(0, width)
}

/// The first line of a text, or nothing.
pub open spec fn first_line(s: Seq<char>) -> Seq<char> {
    if text::lines(s).len() > 0 {
        text::lines(s)[0]
    } else {
        Seq::empty()
    }
}

/// As much of the first line of a text as fits into `width` characters.
pub fn single_line_sample(content: &str, width: usize) -> (r: String)
    ensures
        r@ == truncated(first_line(content@), width as int),
{
    let lines = text::lines_of(content);
    assert(text::texts(lines@) == text::lines(content@));
    if lines.len() == 0 {
        return String::new();
    }
    assert(text::texts(lines@)[0] == lines[0]@);
    truncate_to_width(lines[0].as_str(), width).to_owned()
}

/// The first of the rows of a list of `total` rows that are shown where `height` fit: the
/// selected row is in the middle, as far as the ends of the list allow.
pub open spec fn window_start(selected: int, height: int, total: int) -> int {
    let middle = if selected < height / 2 {
        0
    } else {
        selected - height / 2
    };
    if middle + height <= total {
        middle
    } else if height <= total {
        total - height
    } else {
        0
    }
}

/// The row after the last that is shown.
pub open spec fn window_end(selected: int, height: int, total: int) -> int {
    if window_start(selected, height, total) + height <= total {
        window_start(selected, height, total) + height
    } else {
        total
    }
}

/// The rows of a list that are shown, as the first and the one after the last.
pub fn list_window(selected: usize, height: usize, total: usize) -> (r: (usize, usize))
    requires
        selected <= total,
    ensures
        r.0 == window_start(selected as int, height as int, total as int),
        r.1 == window_end(selected as int, height as int, total as int),
        r.0 <= r.1 <= total,
{
    let middle: usize = selected.saturating_sub(height / 2);
    let start: usize = if height > total - middle {
        total.saturating_sub(height)
    } else {
        middle
    };
    let end: usize = if height > total - start {
        total
    } else {
        start + height
    };
    (start, end)
}

/// As many rows are shown as fit, or all of them, and the selected one is among them.
pub proof fn law_selected_row_is_shown(selected: int, height: int, total: int)
    requires
        0 <= selected < total,
        0 <= height,
    ensures
        ({
            let start = window_start(selected, height, total);
            let end = window_end(selected, height, total);
            &&& 0 <= start <= end <= total
            &&& end - start == if height < total {
                height
            } else {
                total
            }
            &&& height > 0 ==> start <= selected < end
        }),
{
}

/// What is left of a text fits, is its start, and is left as it is by the same width. It is
/// as long as the width, unless the whole text is shorter.
pub proof fn law_truncated(s: Seq<char>, width: int)
    requires
        0 <= width,
    ensures
        truncated(s, width).len() <= width,
        truncated(s, width).len() < width ==> truncated(s, width) == s,
        truncated(s, width).is_prefix_of(s),
        truncated(truncated(s, width), width) == truncated(s, width),
        s.len() <= width ==> truncated(s, width) == s,
{
}

/// The selected row has as many rows above it as the half of those that fit, unless the list
/// starts or ends on the screen: then it has fewer above it at the start, and more at the end.
pub proof fn law_selected_row_is_in_the_middle(selected: int, height: int, total: int)
    requires
        0 <= selected < total,
        0 <= height <= total,
    ensures
        ({
            let start = window_start(selected, height, total);
            let end = window_end(selected, height, total);
            &&& 0 < start && end < total ==> selected - start == height / 2
            &&& start == 0 && end < total ==> selected <= height / 2
            &&& 0 < start && end == total ==> selected - start >= height / 2
        }),
{
}

/// The first line of a text is all that stands before its first line feed, without a carriage
/// return before that; a text without a line feed is its own first line.
pub proof fn law_first_line(first: Seq<char>, rest: Seq<char>)
    requires
        !first.contains('\n'),
    ensures
        first_line(first) == first,
        first_line(first + seq!['\r', '\n'] + rest) == first,
        (first.len() == 0 || first.last() != '\r') ==> first_line(first + seq!['\n'] + rest)
            == first,
{
    text::law_lines(first, rest);
    if first.len() == 0 {
        assert(first == Seq::<char>::empty());
    }
}

/// The pieces of the screen that is shown while something loads.
pub open spec fn loading_spans(message: Seq<char>) -> Seq<SpanView> {
    seq![
        strong(0, 0, "TTF Rasterizer Browser"@),
        plain(0, 2, message),
        plain(0, 3, "please wait..."@),
    ]
}

/// The screen that is shown while something loads.
pub fn loading_frame(message: &str) -> (r: Vec<Span>)
    ensures
        spans(r@) == loading_spans(message@),
{
    let mut frame: Vec<Span> = Vec::new();
    place(&mut frame, 0, 0, "TTF Rasterizer Browser", true);
    place(&mut frame, 0, 2, message, false);
    place(&mut frame, 0, 3, "please wait...", false);
    assert(spans(frame@) == loading_spans(message@));
    frame
}

/// The screen that is shown while something loads says what is done, below the name of the
/// tool, which alone is bold, and above the request to wait; nothing else is on it.
pub proof fn law_loading_screen_says_what_is_done(message: Seq<char>)
    ensures
        loading_spans(message).len() == 3,
        loading_spans(message)[0].content == "TTF Rasterizer Browser"@,
        loading_spans(message)[1].content == message,
        loading_spans(message)[2].content == "please wait..."@,
        forall|i: int|
            0 <= i < 3 ==> {
                &&& (#[trigger] loading_spans(message)[i]).x == 0
                &&& loading_spans(message)[i].y == if i == 0 {
                    0
                } else {
                    i + 1
                }
                &&& loading_spans(message)[i].bold == (i == 0)
            },
{
}

/// The pieces of a screen are seen with all that they have, each at its place in the list.
pub proof fn law_spans(v: Seq<Span>, i: int)
    requires
        0 <= i < v.len(),
    ensures
        spans(v).len() == v.len(),
        spans(v)[i].x == v[i].x && spans(v)[i].y == v[i].y,
        spans(v)[i].content == v[i].content@,
        spans(v)[i].bold == v[i].bold,
{
}

} // verus!

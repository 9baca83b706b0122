//! Hit testing of local paths on a rendered pane surface: the cells of one
//! screen row become a line of text, and a clicked path maps back to the
//! screen cells that show it.

use vstd::prelude::*;
use vstd::string::*;
use crate::file_uri::{path_from_file_uri, path_from_file_uri_spec};
use crate::local_path::path_match_at_column;
use crate::scan::{
    char_at_column_spec, column_from, column_width, law_match_covers_click, path_match_spec, width_from,
};
use crate::text::byte_offset;
use crate::width::{str_display_width, str_width};

verus! {

/// A rectangle of screen cells.
#[derive(Clone, Copy, Debug, PartialEq, Eq, Structural, Default)]
pub struct Rect {
    pub x: u16,
    pub y: u16,
    pub width: u16,
    pub height: u16,
}

/// A rectangle of cells in the coordinates of a pane surface frame.
#[derive(Clone, Copy, Debug, PartialEq, Eq, Structural, Default)]
pub struct SurfaceRect {
    pub x: u16,
    pub y: u16,
    pub width: u16,
    pub height: u16,
}

pub open spec fn saturating_end(start: u16, len: u16) -> int {
    if start + len > u16::MAX {
        u16::MAX as int
    } else {
        start + len
    }
}

/// The position `(x, y)` lies inside `r` (whose right and bottom edges are
/// clamped to the largest coordinate).
pub open spec fn rect_contains(r: Rect, x: int, y: int) -> bool {
    r.x <= x < saturating_end(r.x, r.width) && r.y <= y < saturating_end(r.y, r.height)
}

impl Rect {
    /// A rectangle whose width and height are cut so that its right and
    /// bottom edges stay within the coordinate range.
    pub fn new(x: u16, y: u16, width: u16, height: u16) -> (r: Rect)
        ensures
            r.x == x,
            r.y == y,
            r.width == saturating_end(x, width) - x,
            r.height == saturating_end(y, height) - y,
    {
        let right = if width > u16::MAX - x { u16::MAX } else { x + width };
        let bottom = if height > u16::MAX - y { u16::MAX } else { y + height };
        Rect { x, y, width: right - x, height: bottom - y }
    }

    /// Whether the cell at `(x, y)` lies inside the rectangle.
    pub fn contains(&self, x: u16, y: u16) -> (res: bool)
        ensures
            res == rect_contains(*self, x as int, y as int),
    {
        let right = if self.width > u16::MAX - self.x { u16::MAX } else { self.x + self.width };
        let bottom = if self.height > u16::MAX - self.y { u16::MAX } else { self.y + self.height };
        self.x <= x && x < right && self.y <= y && y < bottom
    }
}

impl From<Rect> for SurfaceRect {
    fn from(r: Rect) -> (s: SurfaceRect)
        ensures
            s.x == r.x && s.y == r.y && s.width == r.width && s.height == r.height,
    {
        SurfaceRect { x: r.x, y: r.y, width: r.width, height: r.height }
    }
}

impl vstd::std_specs::convert::FromSpecImpl<Rect> for SurfaceRect {
    open spec fn obeys_from_spec() -> bool {
        true
    }

    open spec fn from_spec(r: Rect) -> SurfaceRect {
        SurfaceRect { x: r.x, y: r.y, width: r.width, height: r.height }
    }
}

/// One cell of a rendered frame.
#[derive(Clone, Debug, PartialEq, Eq, Default)]
pub struct CellData {
    /// The grapheme shown in the cell; empty for the trailing half of a
    /// wide grapheme.
    pub symbol: String,
    /// Index into the frame's hyperlink targets.
    pub hyperlink: Option<u32>,
    /// Style modifier bits.
    pub modifier: u16,
}

/// A rendered frame: `width * height` cells in row-major order, and the
/// targets of the hyperlinks that cells refer to.
#[derive(Clone, Debug, PartialEq, Eq, Default)]
pub struct FrameData {
    pub width: u16,
    pub height: u16,
    pub cells: Vec<CellData>,
    pub hyperlinks: Vec<String>,
}

/// The index in `f.cells` of the cell at `(x, y)`, if it is in the frame.
pub open spec fn frame_cell_index(f: FrameData, x: int, y: int) -> Option<int> {
    if x >= f.width || y >= f.height {
        None
    } else if y * f.width + x < f.cells@.len() {
        Some(y * f.width + x)
    } else {
        None
    }
}

/// The index in `frame.cells` of the cell at `(x, y)`, if it is in the frame.
fn frame_cell_position(frame: &FrameData, x: u16, y: u16) -> (res: Option<usize>)
    ensures
        res matches Some(i) ==> frame_cell_index(*frame, x as int, y as int) == Some(i as int) && i < frame.cells@.len(),
        res is None ==> frame_cell_index(*frame, x as int, y as int) is None,
{
    if x >= frame.width || y >= frame.height {
        return None;
    }
    let xs = x as usize;
    let ys = y as usize;
    let ws = frame.width as usize;
    assert(ys * ws <= 65535 * 65535) by (nonlinear_arith)
        requires
            ys <= 65535,
            ws <= 65535,
    ;
    let index = ys * ws + xs;
    if index < frame.cells.len() {
        Some(index)
    } else {
        None
    }
}

/// The cell at `(x, y)` of the frame, if there is one.
pub fn frame_cell(frame: &FrameData, x: u16, y: u16) -> (res: Option<&CellData>)
    ensures
        res is Some <==> frame_cell_index(*frame, x as int, y as int) is Some,
        res matches Some(c) ==> *c == frame.cells@[frame_cell_index(*frame, x as int, y as int)->0],
{
    match frame_cell_position(frame, x, y) {
        Some(i) => Some(&frame.cells[i]),
        None => None,
    }
}

/// The columns a cell's symbol takes: its display width, at least one.
pub open spec fn symbol_columns(sym: Seq<char>) -> int {
    if str_width(sym) >= 1 {
        str_width(sym) as int
    } else {
        1
    }
}

/// The cells of source row `yy` of `src` from column `col` on, as (column,
/// width, index into `f.cells`): each cell takes the columns of its symbol,
/// cut at the rectangle's right edge. `None` when a cell lies outside the
/// frame, a coordinate overflows, or a width exceeds the coordinate range.
pub open spec fn row_cells(f: FrameData, src: SurfaceRect, yy: int, col: int) -> Option<Seq<(u16, u16, usize)>>
    decreases src.width - col,
{
    if col >= src.width {
        Some(Seq::empty())
    } else if src.x + col > u16::MAX || src.y + yy > u16::MAX {
        None
    } else {
        match frame_cell_index(f, src.x + col, src.y + yy) {
            None => None,
            Some(i) => {
                let w0 = symbol_columns(f.cells@[i].symbol@);
                if w0 > u16::MAX {
                    None
                } else {
                    let w = if w0 < src.width - col { w0 } else { src.width - col };
                    match row_cells(f, src, yy, col + w) {
                        None => None,
                        Some(rest) => Some(seq![(col as u16, w as u16, i as usize)] + rest),
                    }
                }
            },
        }
    }
}

/// The text a cell contributes to its row's line: its symbol, or a space
/// when it is empty.
pub open spec fn cell_text(sym: Seq<char>) -> Seq<char> {
    if sym.len() == 0 {
        seq![' ']
    } else {
        sym
    }
}

/// The line of text that a row's cells show.
pub open spec fn row_text(f: FrameData, cells: Seq<(u16, u16, usize)>) -> Seq<char>
    decreases cells.len(),
{
    if cells.len() == 0 {
        Seq::empty()
    } else {
        row_text(f, cells.drop_last()) + cell_text(f.cells@[cells.last().2 as int].symbol@)
    }
}

/// The hyperlink of the cell of the row that covers column `cc`.
pub open spec fn clicked_link(f: FrameData, cells: Seq<(u16, u16, usize)>, cc: int) -> Option<u32>
    decreases cells.len(),
{
    if cells.len() == 0 {
        None
    } else {
        let (c, w, i) = cells.last();
        if c <= cc < c + w {
            f.cells@[i as int].hyperlink
        } else {
            clicked_link(f, cells.drop_last(), cc)
        }
    }
}

/// The screen positions of `w` columns starting at `(x, y)`.
pub open spec fn span_positions(x: int, y: int, w: int) -> Seq<(u16, u16)> {
    Seq::new(w as nat, |o: int| ((x + o) as u16, y as u16))
}

/// The screen positions on row `y` of the cells of a row whose hyperlink is
/// `link`.
pub open spec fn link_row_positions(f: FrameData, cells: Seq<(u16, u16, usize)>, link: u32, sx: int, y: int) -> Seq<(u16, u16)>
    decreases cells.len(),
{
    if cells.len() == 0 {
        Seq::empty()
    } else {
        let (c, w, i) = cells.last();
        link_row_positions(f, cells.drop_last(), link, sx, y) + if f.cells@[i as int].hyperlink == Some(link) {
            span_positions(sx + c, y, w as int)
        } else {
            Seq::empty()
        }
    }
}

/// The screen positions of all cells of the first `h` rows of `src` whose
/// hyperlink is `link`, row by row.
pub open spec fn link_positions(f: FrameData, src: SurfaceRect, sx: int, sy: int, link: u32, h: int) -> Option<Seq<(u16, u16)>>
    decreases h,
{
    if h <= 0 {
        Some(Seq::empty())
    } else {
        match link_positions(f, src, sx, sy, link, h - 1) {
            None => None,
            Some(prev) => match row_cells(f, src, h - 1, 0) {
                None => None,
                Some(cells) => Some(prev + link_row_positions(f, cells, link, sx, sy + h - 1)),
            },
        }
    }
}

/// The screen positions on row `row` of the cells of a row whose text
/// overlaps the byte range `ms..me` of the row's line.
pub open spec fn text_positions(f: FrameData, cells: Seq<(u16, u16, usize)>, ms: int, me: int, sx: int, row: int) -> Seq<(u16, u16)>
    decreases cells.len(),
{
    if cells.len() == 0 {
        Seq::empty()
    } else {
        let (c, w, i) = cells.last();
        let start = crate::text::byte_len(row_text(f, cells.drop_last()));
        let end = crate::text::byte_len(row_text(f, cells));
        text_positions(f, cells.drop_last(), ms, me, sx, row) + if start < me && ms < end {
            span_positions(sx + c, row, w as int)
        } else {
            Seq::empty()
        }
    }
}

/// The path under screen position `(column, row)` of a pane shown in
/// `screen` whose surface occupies `src` of the frame, and the screen cells
/// that show it. A clicked cell with a hyperlink gives the local path of a
/// `file:` target and every cell of the pane with that hyperlink; otherwise
/// the clicked row's text gives the path under the column and the cells of
/// its span.
pub open spec fn path_in_surface_spec(f: FrameData, src: SurfaceRect, screen: Rect, column: int, row: int) -> Option<(Seq<char>, Seq<(u16, u16)>)> {
    if !rect_contains(screen, column, row) || screen.width != src.width || screen.height != src.height {
        None
    } else {
        let local_row = row - screen.y;
        let cc = column - screen.x;
        match row_cells(f, src, local_row, 0) {
            None => None,
            Some(cells) => match clicked_link(f, cells, cc) {
                Some(link) => if link as int >= f.hyperlinks@.len() {
                    None
                } else {
                    match path_from_file_uri_spec(f.hyperlinks@[link as int]@) {
                        None => None,
                        Some(path) => match link_positions(f, src, screen.x as int, screen.y as int, link, src.height as int) {
                            None => None,
                            Some(ps) => Some((path, ps)),
                        },
                    }
                },
                None => {
                    let line = row_text(f, cells);
                    match path_match_spec(line, cc) {
                        None => None,
                        Some((p, s, e)) => Some((p, text_positions(f, cells, byte_offset(line, s) as int, byte_offset(line, e) as int, screen.x as int, row))),
                    }
                },
            },
        }
    }
}

pub proof fn lemma_frame_cell_index(f: FrameData, x: int, y: int)
    requires
        0 <= x,
        0 <= y,
    ensures
        frame_cell_index(f, x, y) matches Some(i) ==> 0 <= i < f.cells@.len() && i < 0x1_0000_0000,
{
    if x < f.width && y < f.height {
        let w = f.width as int;
        assert(0 <= y * w <= 65534 * 65535) by (nonlinear_arith)
            requires
                0 <= y < 65535,
                0 <= w <= 65535,
        ;
    }
}

pub proof fn lemma_row_cells_bounds(f: FrameData, src: SurfaceRect, yy: int, col: int)
    requires
        0 <= col,
        0 <= yy,
    ensures
        row_cells(f, src, yy, col) matches Some(cells) ==> forall|t: int| 0 <= t < cells.len() ==> {
            &&& col <= (#[trigger] cells[t]).0
            &&& cells[t].1 >= 1
            &&& cells[t].0 + cells[t].1 <= src.width
            &&& (cells[t].2 as int) < f.cells@.len()
        },
    decreases src.width - col,
{
    if col < src.width && src.x + col <= u16::MAX && src.y + yy <= u16::MAX {
        lemma_frame_cell_index(f, src.x + col, src.y + yy);
        if let Some(i) = frame_cell_index(f, src.x + col, src.y + yy) {
            let w0 = symbol_columns(f.cells@[i].symbol@);
            if w0 <= u16::MAX {
                let w = if w0 < src.width - col { w0 } else { src.width - col };
                lemma_row_cells_bounds(f, src, yy, col + w);
                if let Some(rest) = row_cells(f, src, yy, col + w) {
                    let cells = seq![(col as u16, w as u16, i as usize)] + rest;
                    assert forall|t: int| 0 <= t < cells.len() implies {
                        &&& col <= (#[trigger] cells[t]).0
                        &&& cells[t].1 >= 1
                        &&& cells[t].0 + cells[t].1 <= src.width
                        &&& (cells[t].2 as int) < f.cells@.len()
                    } by {
                        if t > 0 {
                            assert(cells[t] == rest[t - 1]);
                        } else {
                            assert(cells[0] == (col as u16, w as u16, i as usize));
                        }
                    }
                }
            }
        }
    }
}

/// The cells of source row `yy` of `source` (see `row_cells`).
fn walk_row(frame: &FrameData, source: SurfaceRect, yy: u16) -> (res: Option<Vec<(u16, u16, usize)>>)
    ensures
        res matches Some(v) ==> row_cells(*frame, source, yy as int, 0) == Some(v@),
        res is None ==> row_cells(*frame, source, yy as int, 0) is None,
{
    let mut out: Vec<(u16, u16, usize)> = Vec::new();
    let mut col: u16 = 0;
    while col < source.width
        invariant
            col <= source.width,
            row_cells(*frame, source, yy as int, 0) == match row_cells(*frame, source, yy as int, col as int) {
                Some(rest) => Some(out@ + rest),
                None => None,
            },
        decreases source.width - col,
    {
        let x = match source.x.checked_add(col) {
            Some(x) => x,
            None => return None,
        };
        let y = match source.y.checked_add(yy) {
            Some(y) => y,
            None => return None,
        };
        let i = match frame_cell_position(frame, x, y) {
            Some(i) => i,
            None => return None,
        };
        let w0 = str_display_width(frame.cells[i].symbol.as_str());
        let w1 = if w0 >= 1 { w0 } else { 1 };
        if w1 > 65535 {
            return None;
        }
        let w = w1 as u16;
        let width = if w < source.width - col { w } else { source.width - col };
        let ghost prev = out@;
        out.push((col, width, i));
        proof {
            let rest = row_cells(*frame, source, yy as int, col + width);
            if let Some(r) = rest {
                assert(prev + (seq![(col, width, i)] + r) =~= out@ + r);
            }
        }
        col = col + width;
    }
    proof {
        assert(out@ + Seq::<(u16, u16, usize)>::empty() =~= out@);
    }
    Some(out)
}

/// Appends the positions of `w` columns starting at `(x, y)`.
fn push_span(positions: &mut Vec<(u16, u16)>, x: u16, y: u16, w: u16)
    requires
        x + w <= 0x10000,
    ensures
        final(positions)@ == old(positions)@ + span_positions(x as int, y as int, w as int),
{
    let ghost base = old(positions)@;
    let mut off: u16 = 0;
    while off < w
        invariant
            off <= w,
            x + w <= 0x10000,
            positions@ == base + span_positions(x as int, y as int, off as int),
        decreases w - off,
    {
        positions.push((x + off, y));
        assert(span_positions(x as int, y as int, off + 1) =~= span_positions(x as int, y as int, off as int).push(((x + off) as u16, y)));
        assert(base + span_positions(x as int, y as int, off + 1) =~= (base + span_positions(x as int, y as int, off as int)).push(((x + off) as u16, y)));
        off = off + 1;
    }
}

proof fn lemma_link_positions_none(f: FrameData, src: SurfaceRect, sx: int, sy: int, link: u32, y: int, h: int)
    requires
        0 <= y <= h,
        link_positions(f, src, sx, sy, link, y) is None,
    ensures
        link_positions(f, src, sx, sy, link, h) is None,
    decreases h - y,
{
    if y < h {
        lemma_link_positions_none(f, src, sx, sy, link, y, h - 1);
    }
}

/// The positions all lie in the columns `lo..hi` of rows `top..bottom`.
pub open spec fn positions_within(ps: Seq<(u16, u16)>, lo: int, hi: int, top: int, bottom: int) -> bool {
    forall|k: int| 0 <= k < ps.len() ==> lo <= (#[trigger] ps[k]).0 < hi && top <= ps[k].1 < bottom
}

proof fn lemma_span_within(x: int, y: int, w: int, lo: int, hi: int)
    requires
        0 <= lo <= x,
        0 <= w,
        x + w <= hi <= 0x10000,
        0 <= y < 0x10000,
    ensures
        positions_within(span_positions(x, y, w), lo, hi, y, y + 1),
{
    let ps = span_positions(x, y, w);
    assert forall|k: int| 0 <= k < ps.len() implies lo <= (#[trigger] ps[k]).0 < hi && y <= ps[k].1 < y + 1 by {
        assert(ps[k] == ((x + k) as u16, y as u16));
    }
}

proof fn lemma_concat_within(a: Seq<(u16, u16)>, b: Seq<(u16, u16)>, lo: int, hi: int, top: int, bottom: int)
    requires
        positions_within(a, lo, hi, top, bottom),
        positions_within(b, lo, hi, top, bottom),
    ensures
        positions_within(a + b, lo, hi, top, bottom),
{
    assert forall|k: int| 0 <= k < (a + b).len() implies lo <= (#[trigger] (a + b)[k]).0 < hi && top <= (a + b)[k].1 < bottom by {
        if k >= a.len() {
            assert((a + b)[k] == b[k - a.len()]);
        } else {
            assert((a + b)[k] == a[k]);
        }
    }
}

proof fn lemma_row_cells_fit(cells: Seq<(u16, u16, usize)>, width: int)
    requires
        forall|t: int| 0 <= t < cells.len() ==> (#[trigger] cells[t]).0 + cells[t].1 <= width,
    ensures
        cells.len() > 0 ==> cells.last().0 + cells.last().1 <= width,
        cells.len() > 0 ==> forall|t: int| 0 <= t < cells.drop_last().len() ==> (#[trigger] cells.drop_last()[t]).0 + cells.drop_last()[t].1 <= width,
{
    if cells.len() > 0 {
        assert(cells.last() == cells[cells.len() - 1]);
        assert forall|t: int| 0 <= t < cells.drop_last().len() implies (#[trigger] cells.drop_last()[t]).0 + cells.drop_last()[t].1 <= width by {
            assert(cells.drop_last()[t] == cells[t]);
        }
    }
}

proof fn lemma_link_row_within(f: FrameData, cells: Seq<(u16, u16, usize)>, link: u32, sx: int, y: int, width: int)
    requires
        0 <= sx,
        sx + width <= 0x10000,
        0 <= y < 0x10000,
        forall|t: int| 0 <= t < cells.len() ==> (#[trigger] cells[t]).0 + cells[t].1 <= width,
    ensures
        positions_within(link_row_positions(f, cells, link, sx, y), sx, sx + width, y, y + 1),
    decreases cells.len(),
{
    if cells.len() > 0 {
        lemma_row_cells_fit(cells, width);
        lemma_link_row_within(f, cells.drop_last(), link, sx, y, width);
        let (c, w, i) = cells.last();
        if f.cells@[i as int].hyperlink == Some(link) {
            lemma_span_within(sx + c, y, w as int, sx, sx + width);
            lemma_concat_within(link_row_positions(f, cells.drop_last(), link, sx, y), span_positions(sx + c, y, w as int), sx, sx + width, y, y + 1);
        } else {
            assert(link_row_positions(f, cells, link, sx, y) =~= link_row_positions(f, cells.drop_last(), link, sx, y));
        }
    }
}

proof fn lemma_text_positions_within(f: FrameData, cells: Seq<(u16, u16, usize)>, ms: int, me: int, sx: int, row: int, width: int)
    requires
        0 <= sx,
        sx + width <= 0x10000,
        0 <= row < 0x10000,
        forall|t: int| 0 <= t < cells.len() ==> (#[trigger] cells[t]).0 + cells[t].1 <= width,
    ensures
        positions_within(text_positions(f, cells, ms, me, sx, row), sx, sx + width, row, row + 1),
    decreases cells.len(),
{
    if cells.len() > 0 {
        lemma_row_cells_fit(cells, width);
        lemma_text_positions_within(f, cells.drop_last(), ms, me, sx, row, width);
        let (c, w, i) = cells.last();
        let start = crate::text::byte_len(row_text(f, cells.drop_last()));
        let end = crate::text::byte_len(row_text(f, cells));
        if start < me && ms < end {
            lemma_span_within(sx + c, row, w as int, sx, sx + width);
            lemma_concat_within(text_positions(f, cells.drop_last(), ms, me, sx, row), span_positions(sx + c, row, w as int), sx, sx + width, row, row + 1);
        } else {
            assert(text_positions(f, cells, ms, me, sx, row) =~= text_positions(f, cells.drop_last(), ms, me, sx, row));
        }
    }
}

proof fn lemma_link_positions_within(f: FrameData, src: SurfaceRect, sx: int, sy: int, link: u32, h: int)
    requires
        0 <= sx,
        0 <= sy,
        sx + src.width <= 0x10000,
        sy + h <= 0x10000,
    ensures
        link_positions(f, src, sx, sy, link, h) matches Some(ps) ==> positions_within(ps, sx, sx + src.width, sy, sy + h),
    decreases h,
{
    if h > 0 {
        lemma_link_positions_within(f, src, sx, sy, link, h - 1);
        if let Some(prev) = link_positions(f, src, sx, sy, link, h - 1) {
            if let Some(cells) = row_cells(f, src, h - 1, 0) {
                lemma_row_cells_bounds(f, src, h - 1, 0);
                lemma_link_row_within(f, cells, link, sx, sy + h - 1, src.width as int);
                let row = link_row_positions(f, cells, link, sx, sy + h - 1);
                assert(positions_within(prev, sx, sx + src.width, sy, sy + h));
                assert(positions_within(row, sx, sx + src.width, sy, sy + h));
                lemma_concat_within(prev, row, sx, sx + src.width, sy, sy + h);
            }
        }
    }
}

/// The screen cells of a path found in a pane all lie within the pane's
/// screen area; those of a path in plain text lie on the clicked row.
pub proof fn law_path_cells_within_screen(f: FrameData, src: SurfaceRect, screen: Rect, column: int, row: int)
    requires
        screen.x + screen.width <= 0x10000,
        screen.y + screen.height <= 0x10000,
    ensures
        path_in_surface_spec(f, src, screen, column, row) matches Some((p, ps)) ==>
            positions_within(ps, screen.x as int, screen.x + screen.width, screen.y as int, screen.y + screen.height),
        path_in_surface_spec(f, src, screen, column, row) matches Some((p, ps)) ==>
            (clicked_link(f, row_cells(f, src, row - screen.y, 0)->0, column - screen.x) is None ==>
            positions_within(ps, screen.x as int, screen.x + screen.width, row, row + 1)),
{
    if let Some((p, ps)) = path_in_surface_spec(f, src, screen, column, row) {
        let local_row = row - screen.y;
        let cc = column - screen.x;
        let cells = row_cells(f, src, local_row, 0)->0;
        lemma_row_cells_bounds(f, src, local_row, 0);
        match clicked_link(f, cells, cc) {
            Some(link) => {
                lemma_link_positions_within(f, src, screen.x as int, screen.y as int, link, src.height as int);
            },
            None => {
                let line = row_text(f, cells);
                let (q, s0, e0) = path_match_spec(line, cc)->0;
                lemma_text_positions_within(f, cells, byte_offset(line, s0) as int, byte_offset(line, e0) as int, screen.x as int, row, src.width as int);
                assert forall|k: int| 0 <= k < ps.len() implies screen.x <= (#[trigger] ps[k]).0 < screen.x + screen.width
                    && screen.y <= ps[k].1 < screen.y + screen.height by {
                    assert(row < saturating_end(screen.y, screen.height));
                }
            },
        }
    }
}

/// The cells of frame row `y` are the same in `f1` and `f2`, and neither
/// carries a hyperlink there.
pub open spec fn same_plain_row(f1: FrameData, f2: FrameData, y: int) -> bool {
    &&& f1.width == f2.width
    &&& f1.height == f2.height
    &&& f1.cells@.len() == f2.cells@.len()
    &&& forall|x: int| 0 <= x < f1.width && 0 <= y * f1.width + x < f1.cells@.len() ==> {
        &&& #[trigger] f1.cells@[y * f1.width + x] == f2.cells@[y * f1.width + x]
        &&& f1.cells@[y * f1.width + x].hyperlink is None
    }
}

/// The cells of a row that agree in two frames.
pub open spec fn cells_agree(f1: FrameData, f2: FrameData, cells: Seq<(u16, u16, usize)>) -> bool {
    forall|t: int| 0 <= t < cells.len() ==> {
        &&& #[trigger] f1.cells@[cells[t].2 as int] == f2.cells@[cells[t].2 as int]
        &&& f1.cells@[cells[t].2 as int].hyperlink is None
    }
}

proof fn lemma_row_cells_same(f1: FrameData, f2: FrameData, src: SurfaceRect, yy: int, col: int)
    requires
        0 <= col,
        0 <= yy,
        same_plain_row(f1, f2, src.y + yy),
    ensures
        row_cells(f1, src, yy, col) == row_cells(f2, src, yy, col),
        row_cells(f1, src, yy, col) matches Some(cells) ==> cells_agree(f1, f2, cells),
    decreases src.width - col,
{
    if col < src.width && src.x + col <= u16::MAX && src.y + yy <= u16::MAX {
        let x = src.x + col;
        let y = src.y + yy;
        assert(frame_cell_index(f1, x, y) == frame_cell_index(f2, x, y));
        lemma_frame_cell_index(f1, x, y);
        if let Some(i) = frame_cell_index(f1, x, y) {
            assert(f1.cells@[y * f1.width + x] == f2.cells@[y * f1.width + x]);
            let w0 = symbol_columns(f1.cells@[i].symbol@);
            if w0 <= u16::MAX {
                let w = if w0 < src.width - col { w0 } else { src.width - col };
                lemma_row_cells_same(f1, f2, src, yy, col + w);
                if let Some(rest) = row_cells(f1, src, yy, col + w) {
                    let cells = seq![(col as u16, w as u16, i as usize)] + rest;
                    assert forall|t: int| 0 <= t < cells.len() implies {
                        &&& #[trigger] f1.cells@[cells[t].2 as int] == f2.cells@[cells[t].2 as int]
                        &&& f1.cells@[cells[t].2 as int].hyperlink is None
                    } by {
                        if t > 0 {
                            assert(cells[t] == rest[t - 1]);
                        } else {
                            assert(cells[0].2 as int == i);
                            assert(i == y * f1.width + x);
                        }
                    }
                }
            }
        }
    }
}

proof fn lemma_row_views_same(f1: FrameData, f2: FrameData, cells: Seq<(u16, u16, usize)>, cc: int, ms: int, me: int, sx: int, row: int)
    requires
        cells_agree(f1, f2, cells),
    ensures
        row_text(f1, cells) == row_text(f2, cells),
        clicked_link(f1, cells, cc) is None,
        text_positions(f1, cells, ms, me, sx, row) == text_positions(f2, cells, ms, me, sx, row),
    decreases cells.len(),
{
    if cells.len() > 0 {
        let prev = cells.drop_last();
        assert(cells_agree(f1, f2, prev)) by {
            assert forall|t: int| 0 <= t < prev.len() implies {
                &&& #[trigger] f1.cells@[prev[t].2 as int] == f2.cells@[prev[t].2 as int]
                &&& f1.cells@[prev[t].2 as int].hyperlink is None
            } by {
                assert(prev[t] == cells[t]);
            }
        }
        lemma_row_views_same(f1, f2, prev, cc, ms, me, sx, row);
        assert(cells.last() == cells[cells.len() - 1]);
        assert(f1.cells@[cells.last().2 as int] == f2.cells@[cells.last().2 as int]);
    }
}

/// Plain text is read from the clicked row alone: two frames whose clicked
/// row holds the same cells, none of them hyperlinked, give the same path
/// and cells, whatever their other rows hold.
pub proof fn law_plain_text_reads_only_the_clicked_row(f1: FrameData, f2: FrameData, src: SurfaceRect, screen: Rect, column: int, row: int)
    requires
        same_plain_row(f1, f2, src.y + (row - screen.y)),
    ensures
        path_in_surface_spec(f1, src, screen, column, row) == path_in_surface_spec(f2, src, screen, column, row),
{
    if rect_contains(screen, column, row) && screen.width == src.width && screen.height == src.height {
        let local_row = row - screen.y;
        let cc = column - screen.x;
        lemma_row_cells_same(f1, f2, src, local_row, 0);
        if let Some(cells) = row_cells(f1, src, local_row, 0) {
            let line = row_text(f1, cells);
            lemma_row_views_same(f1, f2, cells, cc, 0, 0, 0, 0);
            if let Some((p, s0, e0)) = path_match_spec(line, cc) {
                lemma_row_views_same(f1, f2, cells, cc, byte_offset(line, s0) as int, byte_offset(line, e0) as int, screen.x as int, row);
            }
            assert(clicked_link(f2, cells, cc) is None) by {
                assert(cells_agree(f2, f1, cells));
                lemma_row_views_same(f2, f1, cells, cc, 0, 0, 0, 0);
            }
        }
    }
}

/// The hyperlink of the cell under screen position `(column, row)`.
pub open spec fn clicked_cell_link(f: FrameData, src: SurfaceRect, screen: Rect, column: int, row: int) -> Option<u32> {
    match row_cells(f, src, row - screen.y, 0) {
        Some(cells) => clicked_link(f, cells, column - screen.x),
        None => None,
    }
}

/// A hyperlinked cell under the pointer decides alone: the path is the one
/// its target names as a `file:` URI, with the cells of every row that
/// carry the same link, and a target that names no local path (a web link)
/// gives nothing, never the text of the row.
pub proof fn law_clicked_hyperlink_decides(f: FrameData, src: SurfaceRect, screen: Rect, column: int, row: int)
    ensures
        clicked_cell_link(f, src, screen, column, row) matches Some(link) ==> {
            &&& ((link as int) >= f.hyperlinks@.len() ==> path_in_surface_spec(f, src, screen, column, row) is None)
            &&& ((link as int) < f.hyperlinks@.len() && path_from_file_uri_spec(f.hyperlinks@[link as int]@) is None
                ==> path_in_surface_spec(f, src, screen, column, row) is None)
            &&& (path_in_surface_spec(f, src, screen, column, row) matches Some((p, ps)) ==> {
                &&& (link as int) < f.hyperlinks@.len()
                &&& path_from_file_uri_spec(f.hyperlinks@[link as int]@) == Some(p)
                &&& link_positions(f, src, screen.x as int, screen.y as int, link, src.height as int) == Some(ps)
            })
        },
{
}

/// Each cell of a row shows a non-empty symbol whose chars take exactly the
/// cell's columns.
pub open spec fn cells_show_their_widths(f: FrameData, cells: Seq<(u16, u16, usize)>) -> bool {
    forall|t: int| 0 <= t < cells.len() ==> {
        let sym = #[trigger] f.cells@[cells[t].2 as int].symbol@;
        &&& sym.len() > 0
        &&& width_from(sym, 0) == cells[t].1
    }
}

/// One of the cells takes column `cc`.
pub open spec fn covers_column(cells: Seq<(u16, u16, usize)>, cc: int) -> bool {
    exists|t: int| 0 <= t < cells.len() && (#[trigger] cells[t]).0 <= cc < cells[t].0 + cells[t].1
}

proof fn lemma_row_cells_cover(f: FrameData, src: SurfaceRect, yy: int, col: int, cc: int)
    requires
        0 <= col <= cc < src.width,
        0 <= yy,
    ensures
        row_cells(f, src, yy, col) is Some ==> covers_column(row_cells(f, src, yy, col)->0, cc),
    decreases src.width - col,
{
    if src.x + col <= u16::MAX && src.y + yy <= u16::MAX {
        lemma_frame_cell_index(f, src.x + col, src.y + yy);
        if let Some(i) = frame_cell_index(f, src.x + col, src.y + yy) {
            let w0 = symbol_columns(f.cells@[i].symbol@);
            if w0 <= u16::MAX {
                let w = if w0 < src.width - col { w0 } else { src.width - col };
                if let Some(rest) = row_cells(f, src, yy, col + w) {
                    let cells = seq![(col as u16, w as u16, i as usize)] + rest;
                    assert(cells[0] == (col as u16, w as u16, i as usize));
                    assert(cells[0].0 == col && cells[0].1 == w);
                    assert(row_cells(f, src, yy, col) == Some(cells));
                    if cc < col + w {
                        assert(cells[0].0 <= cc < cells[0].0 + cells[0].1);
                    } else {
                        lemma_row_cells_cover(f, src, yy, col + w, cc);
                        assert(covers_column(rest, cc));
                        let t = choose|t: int| 0 <= t < rest.len() && (#[trigger] rest[t]).0 <= cc < rest[t].0 + rest[t].1;
                        assert(cells[t + 1] == rest[t]);
                        assert(cells[t + 1].0 <= cc < cells[t + 1].0 + cells[t + 1].1);
                    }
                    assert(covers_column(cells, cc));
                }
            }
        }
    }
}

/// The columns the cells take.
pub open spec fn cells_columns(cells: Seq<(u16, u16, usize)>) -> int
    decreases cells.len(),
{
    if cells.len() == 0 {
        0
    } else {
        cells_columns(cells.drop_last()) + cells.last().1
    }
}

proof fn lemma_row_cells_contiguous(f: FrameData, src: SurfaceRect, yy: int, col: int)
    requires
        0 <= col,
        0 <= yy,
    ensures
        row_cells(f, src, yy, col) matches Some(cells) ==> forall|t: int| 0 <= t <= cells.len() ==>
            #[trigger] cells_columns(cells.take(t)) + col == if t < cells.len() { cells[t].0 as int } else { cells_columns(cells) + col },
    decreases src.width - col,
{
    if col < src.width && src.x + col <= u16::MAX && src.y + yy <= u16::MAX {
        lemma_frame_cell_index(f, src.x + col, src.y + yy);
        if let Some(i) = frame_cell_index(f, src.x + col, src.y + yy) {
            let w0 = symbol_columns(f.cells@[i].symbol@);
            if w0 <= u16::MAX {
                let w = if w0 < src.width - col { w0 } else { src.width - col };
                lemma_row_cells_contiguous(f, src, yy, col + w);
                if let Some(rest) = row_cells(f, src, yy, col + w) {
                    let head = (col as u16, w as u16, i as usize);
                    let cells = seq![head] + rest;
                    assert forall|t: int| 0 <= t <= cells.len() implies
                        #[trigger] cells_columns(cells.take(t)) + col == if t < cells.len() { cells[t].0 as int } else { cells_columns(cells) + col } by {
                        assert(cells[0] == head);
                        assert(head.0 == col && head.1 == w);
                        assert(cells.take(cells.len() as int) =~= cells);
                        assert(rest.take(rest.len() as int) =~= rest);
                        lemma_cells_columns_cons(head, rest, cells.len() as int);
                        if t > 0 {
                            lemma_cells_columns_cons(head, rest, t);
                            if t < cells.len() {
                                assert(cells[t] == rest[t - 1]);
                            }
                        } else {
                            assert(cells.take(0) =~= Seq::<(u16, u16, usize)>::empty());
                        }
                    }
                }
            }
        }
    }
}

proof fn lemma_cells_columns_cons(head: (u16, u16, usize), rest: Seq<(u16, u16, usize)>, t: int)
    requires
        1 <= t <= rest.len() + 1,
    ensures
        cells_columns((seq![head] + rest).take(t)) == head.1 + cells_columns(rest.take(t - 1)),
    decreases t,
{
    let cells = seq![head] + rest;
    if t == 1 {
        assert(cells.take(1).drop_last() =~= Seq::<(u16, u16, usize)>::empty());
        assert(rest.take(0) =~= Seq::<(u16, u16, usize)>::empty());
    } else {
        lemma_cells_columns_cons(head, rest, t - 1);
        assert(cells.take(t).drop_last() =~= cells.take(t - 1));
        assert(rest.take(t - 1).drop_last() =~= rest.take(t - 2));
        assert(cells.take(t).last() == rest.take(t - 1).last());
    }
}

proof fn lemma_width_from_concat(a: Seq<char>, b: Seq<char>, i: int)
    requires
        0 <= i <= a.len(),
    ensures
        width_from(a + b, i) == width_from(a, i) + width_from(b, 0),
    decreases a.len() - i,
{
    if i < a.len() {
        assert((a + b)[i] == a[i]);
        lemma_width_from_concat(a, b, i + 1);
    } else {
        lemma_width_from_shift(a, b, 0);
    }
}

proof fn lemma_width_from_shift(a: Seq<char>, b: Seq<char>, j: int)
    requires
        0 <= j <= b.len(),
    ensures
        width_from(a + b, a.len() + j) == width_from(b, j),
    decreases b.len() - j,
{
    if j < b.len() {
        assert((a + b)[a.len() + j] == b[j]);
        lemma_width_from_shift(a, b, j + 1);
    }
}

/// Under the widths condition, the chars of the first `t` cells take the
/// columns of those cells.
proof fn lemma_row_text_width(f: FrameData, cells: Seq<(u16, u16, usize)>)
    requires
        cells_show_their_widths(f, cells),
    ensures
        width_from(row_text(f, cells), 0) == cells_columns(cells),
        row_text(f, cells).len() >= cells.len(),
    decreases cells.len(),
{
    if cells.len() > 0 {
        let prev = cells.drop_last();
        assert(cells_show_their_widths(f, prev)) by {
            assert forall|t: int| 0 <= t < prev.len() implies {
                let sym = #[trigger] f.cells@[prev[t].2 as int].symbol@;
                &&& sym.len() > 0
                &&& width_from(sym, 0) == prev[t].1
            } by {
                assert(prev[t] == cells[t]);
            }
        }
        lemma_row_text_width(f, prev);
        let sym = f.cells@[cells.last().2 as int].symbol@;
        assert(cells.last() == cells[cells.len() - 1]);
        assert(f.cells@[cells[cells.len() - 1].2 as int].symbol@ == sym);
        lemma_width_from_concat(row_text(f, prev), sym, 0);
    } else {
        assert(width_from(row_text(f, cells), 0) == 0);
    }
}

proof fn lemma_take_sub<A>(cells: Seq<A>, t: int)
    requires
        0 <= t < cells.len(),
    ensures
        cells.drop_last().take(t) == cells.take(t),
        cells.take(t + 1).drop_last() == cells.take(t),
        cells.take(t + 1).last() == cells[t],
{
    assert(cells.drop_last().take(t) =~= cells.take(t));
    assert(cells.take(t + 1).drop_last() =~= cells.take(t));
}

/// The line of a row begins with the text of its first cells.
proof fn lemma_row_text_prefix(f: FrameData, cells: Seq<(u16, u16, usize)>, j: int)
    requires
        0 <= j <= cells.len(),
    ensures
        row_text(f, cells.take(j)).len() <= row_text(f, cells).len(),
        row_text(f, cells).take(row_text(f, cells.take(j)).len() as int) == row_text(f, cells.take(j)),
    decreases cells.len() - j,
{
    if j == cells.len() {
        assert(cells.take(j) =~= cells);
        assert(row_text(f, cells).take(row_text(f, cells).len() as int) =~= row_text(f, cells));
    } else {
        let prev = cells.drop_last();
        lemma_take_sub(cells, j);
        lemma_row_text_prefix(f, prev, j);
        let a = row_text(f, cells.take(j));
        let whole = row_text(f, cells);
        assert(whole == row_text(f, prev) + cell_text(f.cells@[cells.last().2 as int].symbol@));
        assert(whole.take(a.len() as int) =~= row_text(f, prev).take(a.len() as int));
    }
}

/// Column ranges: the columns of chars `i..j`.
pub open spec fn columns_between(s: Seq<char>, i: int, j: int) -> int
    decreases j - i,
{
    if i >= j {
        0
    } else {
        column_width(s[i]) + columns_between(s, i + 1, j)
    }
}

proof fn lemma_column_width_nonneg(c: char)
    ensures
        column_width(c) >= 0,
{
    match crate::width::char_width(c) {
        Some(x) => {},
        None => {},
    }
}

proof fn lemma_columns_between_prefix(a: Seq<char>, r: Seq<char>, i: int)
    requires
        0 <= i <= a.len(),
    ensures
        columns_between(a + r, i, a.len() as int) == width_from(a, i),
    decreases a.len() - i,
{
    if i < a.len() {
        assert((a + r)[i] == a[i]);
        lemma_columns_between_prefix(a, r, i + 1);
    }
}

proof fn lemma_columns_between_shift(s: Seq<char>, b: Seq<char>, off: int, i: int)
    requires
        0 <= off,
        0 <= i <= b.len(),
        off + b.len() <= s.len(),
        forall|t: int| 0 <= t < b.len() ==> s[off + t] == #[trigger] b[t],
    ensures
        columns_between(s, off + i, off + b.len()) == width_from(b, i),
    decreases b.len() - i,
{
    if i < b.len() {
        assert(s[off + i] == b[i]);
        lemma_columns_between_shift(s, b, off, i + 1);
    }
}

proof fn lemma_column_from_skip(s: Seq<char>, col: int, i: int, j: int, column: int)
    requires
        0 <= i <= j <= s.len(),
        column + columns_between(s, i, j) <= col,
    ensures
        column_from(s, col, i, column) == column_from(s, col, j, column + columns_between(s, i, j)),
    decreases j - i,
{
    if i < j {
        lemma_columns_between_nonneg(s, i + 1, j);
        lemma_column_width_nonneg(s[i]);
        lemma_column_from_skip(s, col, i + 1, j, column + column_width(s[i]));
    }
}

proof fn lemma_columns_between_nonneg(s: Seq<char>, i: int, j: int)
    ensures
        columns_between(s, i, j) >= 0,
    decreases j - i,
{
    if i < j {
        lemma_column_width_nonneg(s[i]);
        lemma_columns_between_nonneg(s, i + 1, j);
    }
}

proof fn lemma_column_from_within(s: Seq<char>, col: int, i: int, j: int, column: int)
    requires
        0 <= i <= j <= s.len(),
        column <= col < column + columns_between(s, i, j),
    ensures
        column_from(s, col, i, column) matches Some(k) && i <= k < j,
    decreases j - i,
{
    lemma_column_width_nonneg(s[i]);
    if !(column <= col < column + column_width(s[i])) {
        lemma_column_from_within(s, col, i + 1, j, column + column_width(s[i]));
    }
}

proof fn lemma_text_positions_contain(f: FrameData, cells: Seq<(u16, u16, usize)>, ms: int, me: int, sx: int, row: int, t: int, o: int)
    requires
        0 <= t < cells.len(),
        0 <= o < cells[t].1,
        crate::text::byte_len(row_text(f, cells.take(t))) < me,
        ms < crate::text::byte_len(row_text(f, cells.take(t + 1))),
    ensures
        text_positions(f, cells, ms, me, sx, row).contains(((sx + cells[t].0 + o) as u16, row as u16)),
    decreases cells.len(),
{
    let n = cells.len() - 1;
    let prev = cells.drop_last();
    let (c, w, i) = cells.last();
    let ps = text_positions(f, cells, ms, me, sx, row);
    let x = ((sx + cells[t].0 + o) as u16, row as u16);
    if t == n {
        assert(cells.take(t) =~= prev);
        assert(cells.take(t + 1) =~= cells);
        assert(cells.last() == cells[t]);
        let span = span_positions(sx + c, row, w as int);
        let base = text_positions(f, prev, ms, me, sx, row);
        assert(ps == base + span);
        assert(ps[base.len() + o] == span[o]);
        assert(span[o] == x);
    } else {
        lemma_take_sub(cells, t);
        lemma_take_sub(cells, t + 1);
        assert(prev.take(t + 1) == cells.take(t + 1));
        assert(prev[t] == cells[t]);
        lemma_text_positions_contain(f, prev, ms, me, sx, row, t, o);
        let base = text_positions(f, prev, ms, me, sx, row);
        let start = crate::text::byte_len(row_text(f, prev));
        let end = crate::text::byte_len(row_text(f, cells));
        let tail = if start < me && ms < end { span_positions(sx + c, row, w as int) } else { Seq::empty() };
        assert(ps == base + tail);
        let k = choose|k: int| 0 <= k < base.len() && base[k] == x;
        assert(ps[k] == base[k]);
    }
}

/// Where each cell's chars take exactly its columns, the cells of a path
/// found in the plain text of a row include the cell under the pointer.
pub proof fn law_text_cells_cover_the_pointer(f: FrameData, src: SurfaceRect, screen: Rect, column: int, row: int)
    requires
        screen.x + screen.width <= 0x10000,
        screen.y + screen.height <= 0x10000,
        clicked_cell_link(f, src, screen, column, row) is None,
        row_cells(f, src, row - screen.y, 0) matches Some(cells) ==> cells_show_their_widths(f, cells),
    ensures
        path_in_surface_spec(f, src, screen, column, row) matches Some((p, ps)) ==> ps.contains((column as u16, row as u16)),
{
    if let Some((p, ps)) = path_in_surface_spec(f, src, screen, column, row) {
        let lr = row - screen.y;
        let cc = column - screen.x;
        let cells = row_cells(f, src, lr, 0)->0;
        let line = row_text(f, cells);
        let (q, s0, e0) = path_match_spec(line, cc)->0;
        assert(0 <= cc < src.width);
        lemma_row_cells_cover(f, src, lr, 0, cc);
        assert(covers_column(cells, cc));
        let t = choose|t: int| 0 <= t < cells.len() && (#[trigger] cells[t]).0 <= cc < cells[t].0 + cells[t].1;
        lemma_row_cells_contiguous(f, src, lr, 0);
        assert(cells_columns(cells.take(t)) + 0 == cells[t].0 as int);
        // The text before cell `t` and the cell's own text.
        let a = row_text(f, cells.take(t));
        let sym = f.cells@[cells[t].2 as int].symbol@;
        lemma_take_sub(cells, t);
        let ab = row_text(f, cells.take(t + 1));
        assert(ab == a + cell_text(sym));
        assert(cell_text(sym) == sym);
        assert(cells_show_their_widths(f, cells.take(t))) by {
            assert forall|u: int| 0 <= u < cells.take(t).len() implies {
                let sy = #[trigger] f.cells@[cells.take(t)[u].2 as int].symbol@;
                &&& sy.len() > 0
                &&& width_from(sy, 0) == cells.take(t)[u].1
            } by {
                assert(cells.take(t)[u] == cells[u]);
            }
        }
        lemma_row_text_width(f, cells.take(t));
        lemma_row_text_prefix(f, cells, t);
        lemma_row_text_prefix(f, cells, t + 1);
        let n = a.len() as int;
        let m = sym.len() as int;
        assert(line.take(n) == a);
        assert(line.take(n + m) == ab);
        // Columns up to cell `t` and within it.
        lemma_columns_between_prefix(a, line.skip(n), 0);
        assert(a + line.skip(n) =~= line);
        assert(columns_between(line, 0, n) == cells[t].0 as int);
        assert forall|u: int| 0 <= u < sym.len() implies line[n + u] == #[trigger] sym[u] by {
            assert(ab[n + u] == sym[u]);
            assert(line.take(n + m)[n + u] == line[n + u]);
        }
        lemma_columns_between_shift(line, sym, n, 0);
        assert(columns_between(line, n, n + m) == cells[t].1 as int);
        lemma_column_from_skip(line, cc, 0, n, 0);
        lemma_column_from_within(line, cc, n, n + m, cells[t].0 as int);
        let k = char_at_column_spec(line, cc)->0;
        assert(n <= k < n + m);
        // The span of the match covers char `k`.
        law_match_covers_click(line, cc);
        crate::text::lemma_byte_offset_mono(line, s0, k);
        crate::text::lemma_byte_offset_mono(line, k, e0);
        crate::text::lemma_byte_offset_mono(line, n, k);
        crate::text::lemma_byte_offset_mono(line, k, n + m);
        assert(byte_offset(line, n) == crate::text::byte_len(a));
        assert(byte_offset(line, n + m) == crate::text::byte_len(ab));
        let o = cc - cells[t].0;
        lemma_text_positions_contain(f, cells, byte_offset(line, s0) as int, byte_offset(line, e0) as int, screen.x as int, row, t, o);
        assert(((screen.x + cells[t].0 + o) as u16, row as u16) == (column as u16, row as u16));
    }
}

/// `g` shows the same symbols as `f` and no hyperlink at all.
pub open spec fn same_symbols_without_links(f: FrameData, g: FrameData) -> bool {
    &&& g.width == f.width
    &&& g.height == f.height
    &&& g.cells@.len() == f.cells@.len()
    &&& forall|i: int| 0 <= i < f.cells@.len() ==> {
        &&& (#[trigger] g.cells@[i]).symbol@ == f.cells@[i].symbol@
        &&& g.cells@[i].hyperlink is None
    }
}

proof fn lemma_row_cells_same_symbols(f: FrameData, g: FrameData, src: SurfaceRect, yy: int, col: int)
    requires
        0 <= col,
        0 <= yy,
        same_symbols_without_links(f, g),
    ensures
        row_cells(f, src, yy, col) == row_cells(g, src, yy, col),
        row_cells(f, src, yy, col) matches Some(cells) ==> forall|t: int| 0 <= t < cells.len()
            ==> (cells[t].2 as int) < f.cells@.len() && #[trigger] cells[t].0 >= col,
    decreases src.width - col,
{
    lemma_row_cells_bounds(f, src, yy, col);
    if col < src.width && src.x + col <= u16::MAX && src.y + yy <= u16::MAX {
        let x = src.x + col;
        let y = src.y + yy;
        assert(frame_cell_index(f, x, y) == frame_cell_index(g, x, y));
        lemma_frame_cell_index(f, x, y);
        if let Some(i) = frame_cell_index(f, x, y) {
            assert(g.cells@[i].symbol@ == f.cells@[i].symbol@);
            let w0 = symbol_columns(f.cells@[i].symbol@);
            if w0 <= u16::MAX {
                let w = if w0 < src.width - col { w0 } else { src.width - col };
                lemma_row_cells_same_symbols(f, g, src, yy, col + w);
            }
        }
    }
}

proof fn lemma_row_views_same_symbols(f: FrameData, g: FrameData, cells: Seq<(u16, u16, usize)>, cc: int, ms: int, me: int, sx: int, row: int)
    requires
        same_symbols_without_links(f, g),
        forall|t: int| 0 <= t < cells.len() ==> (#[trigger] cells[t].2 as int) < f.cells@.len(),
        forall|t: int| 0 <= t < cells.len() && #[trigger] cells[t].0 <= cc < cells[t].0 + cells[t].1
            ==> f.cells@[cells[t].2 as int].hyperlink is None,
    ensures
        row_text(f, cells) == row_text(g, cells),
        clicked_link(f, cells, cc) is None,
        clicked_link(g, cells, cc) is None,
        text_positions(f, cells, ms, me, sx, row) == text_positions(g, cells, ms, me, sx, row),
    decreases cells.len(),
{
    if cells.len() > 0 {
        let prev = cells.drop_last();
        assert forall|t: int| 0 <= t < prev.len() implies (#[trigger] prev[t].2 as int) < f.cells@.len() by {
            assert(prev[t] == cells[t]);
        }
        assert forall|t: int| 0 <= t < prev.len() && #[trigger] prev[t].0 <= cc < prev[t].0 + prev[t].1
            implies f.cells@[prev[t].2 as int].hyperlink is None by {
            assert(prev[t] == cells[t]);
        }
        lemma_row_views_same_symbols(f, g, prev, cc, ms, me, sx, row);
        let last = cells[cells.len() - 1];
        assert(cells.last() == last);
        assert((last.2 as int) < f.cells@.len());
        assert(g.cells@[last.2 as int].symbol@ == f.cells@[last.2 as int].symbol@);
        if last.0 <= cc < last.0 + last.1 {
            assert(f.cells@[last.2 as int].hyperlink is None);
        }
    }
}

/// A cell under the pointer without a hyperlink reads the row's text,
/// whatever hyperlinks other cells carry: the result is the one for the
/// same symbols with no hyperlinks at all.
pub proof fn law_links_elsewhere_do_not_hide_text_paths(f: FrameData, g: FrameData, src: SurfaceRect, screen: Rect, column: int, row: int)
    requires
        same_symbols_without_links(f, g),
        row_cells(f, src, row - screen.y, 0) matches Some(cells) ==> forall|t: int| 0 <= t < cells.len()
            && #[trigger] cells[t].0 <= column - screen.x < cells[t].0 + cells[t].1
            ==> f.cells@[cells[t].2 as int].hyperlink is None,
    ensures
        path_in_surface_spec(f, src, screen, column, row) == path_in_surface_spec(g, src, screen, column, row),
{
    if rect_contains(screen, column, row) && screen.width == src.width && screen.height == src.height {
        let lr = row - screen.y;
        let cc = column - screen.x;
        lemma_row_cells_same_symbols(f, g, src, lr, 0);
        if let Some(cells) = row_cells(f, src, lr, 0) {
            lemma_row_cells_bounds(f, src, lr, 0);
            assert forall|t: int| 0 <= t < cells.len() implies (#[trigger] cells[t].2 as int) < f.cells@.len() by {
                assert((cells[t].2 as int) < f.cells@.len());
            }
            lemma_row_views_same_symbols(f, g, cells, cc, 0, 0, 0, 0);
            let line = row_text(f, cells);
            if let Some((p, s0, e0)) = path_match_spec(line, cc) {
                lemma_row_views_same_symbols(f, g, cells, cc, byte_offset(line, s0) as int, byte_offset(line, e0) as int, screen.x as int, row);
            }
        }
    }
}

/// Read only the clicked physical row. OSC 8 targets retain full paths even
/// when their labels wrap. Plain text has no reliable soft-wrap metadata in the
/// stable surface protocol, so separate rows must not be joined speculatively.
pub fn path_in_surface(
    frame: &FrameData,
    source: SurfaceRect,
    screen: Rect,
    column: u16,
    row: u16,
) -> (res: Option<(String, Vec<(u16, u16)>)>)
    requires
        screen.x + screen.width <= 0x10000,
        screen.y + screen.height <= 0x10000,
    ensures
        res is Some <==> path_in_surface_spec(*frame, source, screen, column as int, row as int) is Some,
        res matches Some((p, cells)) ==> path_in_surface_spec(*frame, source, screen, column as int, row as int) == Some((p@, cells@)),
{
    if !screen.contains(column, row) || screen.width != source.width || screen.height != source.height {
        return None;
    }
    let local_row = row - screen.y;
    let clicked_col = column - screen.x;
    let cells = match walk_row(frame, source, local_row) {
        Some(c) => c,
        None => return None,
    };
    proof {
        lemma_row_cells_bounds(*frame, source, local_row as int, 0);
        reveal_strlit(" ");
    }
    let ghost f = *frame;
    let mut line = String::new();
    let mut bounds: Vec<usize> = Vec::new();
    bounds.push(line.as_str().as_bytes().len());
    let mut clicked: Option<u32> = None;
    let mut t: usize = 0;
    assert(cells@.take(0) =~= Seq::<(u16, u16, usize)>::empty());
    while t < cells.len()
        invariant
            t <= cells@.len(),
            f == *frame,
            forall|u: int| 0 <= u < cells@.len() ==> (#[trigger] cells@[u]).2 < frame.cells@.len()
                && cells@[u].0 + cells@[u].1 <= source.width && cells@[u].1 >= 1,
            line@ == row_text(f, cells@.take(t as int)),
            clicked == clicked_link(f, cells@.take(t as int), clicked_col as int),
            bounds@.len() == t + 1,
            forall|j: int| 0 <= j <= t ==> #[trigger] bounds@[j] == crate::text::byte_len(row_text(f, cells@.take(j))),
        decreases cells@.len() - t,
    {
        let (c, w, i) = cells[t];
        assert(cells@.take(t + 1).drop_last() =~= cells@.take(t as int));
        if c <= clicked_col && clicked_col < c + w {
            clicked = frame.cells[i].hyperlink;
        }
        let sym = frame.cells[i].symbol.as_str();
        assert(sym@ == f.cells@[i as int].symbol@);
        assert(cells@.take(t + 1).last() == cells@[t as int]);
        let ghost old_line = line@;
        if sym.is_empty() {
            proof {
                reveal_strlit(" ");
            }
            line.append(" ");
            assert(line@ == old_line + seq![' ']);
        } else {
            line.append(sym);
            assert(line@ == old_line + sym@);
        }
        assert(cell_text(f.cells@[i as int].symbol@) == (if sym@.len() == 0 { seq![' '] } else { sym@ }));
        assert(line@ == row_text(f, cells@.take(t as int)) + cell_text(f.cells@[i as int].symbol@));
        bounds.push(line.as_str().as_bytes().len());
        t = t + 1;
    }
    assert(cells@.take(cells@.len() as int) =~= cells@);
    let ghost line_v = line@;
    match clicked {
        Some(link) => {
            let li = link as usize;
            if li >= frame.hyperlinks.len() {
                return None;
            }
            let path = match path_from_file_uri(frame.hyperlinks[li].as_str()) {
                Some(p) => p,
                None => return None,
            };
            let mut positions: Vec<(u16, u16)> = Vec::new();
            let mut y: u16 = 0;
            assert(clicked_link(f, cells@, clicked_col as int) == Some(link));
            let ghost outcome = match link_positions(f, source, screen.x as int, screen.y as int, link, source.height as int) {
                None => None,
                Some(ps) => Some((path@, ps)),
            };
            assert(path_in_surface_spec(f, source, screen, column as int, row as int) == outcome);
            while y < source.height
                invariant
                    path_in_surface_spec(f, source, screen, column as int, row as int) == outcome,
                    outcome == match link_positions(f, source, screen.x as int, screen.y as int, link, source.height as int) {
                        None => None,
                        Some(ps) => Some((path@, ps)),
                    },
                    y <= source.height,
                    f == *frame,
                    screen.height == source.height,
                    screen.width == source.width,
                    screen.x + screen.width <= 0x10000,
                    screen.y + screen.height <= 0x10000,
                    link_positions(f, source, screen.x as int, screen.y as int, link, y as int) == Some(positions@),
                decreases source.height - y,
            {
                let rc = match walk_row(frame, source, y) {
                    Some(rc) => rc,
                    None => {
                        proof {
                            assert(link_positions(f, source, screen.x as int, screen.y as int, link, y + 1) is None);
                            lemma_link_positions_none(f, source, screen.x as int, screen.y as int, link, y + 1, source.height as int);
                        }
                        return None;
                    },
                };
                proof {
                    lemma_row_cells_bounds(f, source, y as int, 0);
                }
                let ghost base = positions@;
                let mut u: usize = 0;
                assert(rc@.take(0) =~= Seq::<(u16, u16, usize)>::empty());
                assert(base + Seq::<(u16, u16)>::empty() =~= base);
                while u < rc.len()
                    invariant
                        u <= rc@.len(),
                        f == *frame,
                        screen.width == source.width,
                        screen.x + screen.width <= 0x10000,
                        y < screen.height,
                        screen.y + screen.height <= 0x10000,
                        forall|v: int| 0 <= v < rc@.len() ==> (#[trigger] rc@[v]).2 < frame.cells@.len()
                            && rc@[v].0 + rc@[v].1 <= source.width && rc@[v].1 >= 1,
                        positions@ == base + link_row_positions(f, rc@.take(u as int), link, screen.x as int, screen.y + y),
                    decreases rc@.len() - u,
                {
                    let (c, w, i) = rc[u];
                    assert(rc@.take(u + 1).drop_last() =~= rc@.take(u as int));
                    let ghost before = positions@;
                    let hit = match frame.cells[i].hyperlink {
                        Some(l) => l == link,
                        None => false,
                    };
                    if hit {
                        push_span(&mut positions, screen.x + c, screen.y + y, w);
                    }
                    assert(positions@ =~= base + link_row_positions(f, rc@.take(u + 1), link, screen.x as int, screen.y + y));
                    u = u + 1;
                }
                assert(rc@.take(rc@.len() as int) =~= rc@);
                y = y + 1;
            }
            assert(link_positions(f, source, screen.x as int, screen.y as int, link, source.height as int) == Some(positions@));
            assert(clicked_link(f, cells@, clicked_col as int) == Some(link));
            Some((path, positions))
        },
        None => {
            let m = match path_match_at_column(line.as_str(), clicked_col) {
                Some(m) => m,
                None => return None,
            };
            let mut positions: Vec<(u16, u16)> = Vec::new();
            let mut u: usize = 0;
            assert(cells@.take(0) =~= Seq::<(u16, u16, usize)>::empty());
            while u < cells.len()
                invariant
                    u <= cells@.len(),
                    f == *frame,
                    screen.width == source.width,
                    screen.x + screen.width <= 0x10000,
                    forall|v: int| 0 <= v < cells@.len() ==> (#[trigger] cells@[v]).2 < frame.cells@.len()
                        && cells@[v].0 + cells@[v].1 <= source.width && cells@[v].1 >= 1,
                    bounds@.len() == cells@.len() + 1,
                    forall|j: int| 0 <= j <= cells@.len() ==> #[trigger] bounds@[j] == crate::text::byte_len(row_text(f, cells@.take(j))),
                    positions@ == text_positions(f, cells@.take(u as int), m.byte_range.start as int, m.byte_range.end as int, screen.x as int, row as int),
                decreases cells@.len() - u,
            {
                let (c, w, _i) = cells[u];
                assert(cells@.take(u + 1).drop_last() =~= cells@.take(u as int));
                assert(bounds@[u as int] == crate::text::byte_len(row_text(f, cells@.take(u as int))));
                assert(bounds@[u + 1] == crate::text::byte_len(row_text(f, cells@.take(u + 1))));
                if bounds[u] < m.byte_range.end && m.byte_range.start < bounds[u + 1] {
                    push_span(&mut positions, screen.x + c, row, w);
                }
                assert(positions@ =~= text_positions(f, cells@.take(u + 1), m.byte_range.start as int, m.byte_range.end as int, screen.x as int, row as int));
                u = u + 1;
            }
            Some((m.path, positions))
        },
    }
}

} // verus!

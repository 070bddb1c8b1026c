//! A fixed-size two-dimensional character surface with drawing primitives
//! and an auto-tracked "drawn region" bounding box.

use vstd::prelude::*;

verus! {

use vstd::string::StrSliceExecFns;

/// An axis-aligned rectangle in grid coordinates (rows grow downward).
#[derive(Clone, Copy, Debug)]
pub struct Rectangle {
    pub left: usize,
    pub right: usize,
    pub top: usize,
    pub bottom: usize,
}

/// A straight segment between two grid vertices, as returned by the
/// line-drawing primitives.
pub struct Line {
    start: (usize, usize),
    end: (usize, usize),
}

/// A `height x width` mutable character matrix, initialized to blanks, plus a
/// lazily widened drawn-region rectangle covering every non-blank cell.
pub struct Canvas {
    width: usize,
    height: usize,
    buffer: Vec<Vec<char>>,
    boundary: Rectangle,
}

/// True when `(i, j)` lies inside `r` (inclusive bounds).
pub open spec fn rect_contains(r: Rectangle, i: int, j: int) -> bool {
    r.top <= i <= r.bottom && r.left <= j <= r.right
}

/// `outer` contains every cell that `inner` contains.
pub open spec fn rect_covers(outer: Rectangle, inner: Rectangle) -> bool {
    outer.top <= inner.top && inner.bottom <= outer.bottom && outer.left <= inner.left
        && inner.right <= outer.right
}

/// The least rectangle containing both `b` and the cell `(row, col)`.
pub open spec fn rect_expand(b: Rectangle, row: usize, col: usize) -> Rectangle {
    Rectangle {
        left: if b.left <= col { b.left } else { col },
        right: if b.right >= col { b.right } else { col },
        top: if b.top <= row { b.top } else { row },
        bottom: if b.bottom >= row { b.bottom } else { row },
    }
}

/// `g` with the single cell `(i, j)` replaced by `c`.
pub open spec fn grid_set(g: Seq<Seq<char>>, i: int, j: int, c: char) -> Seq<Seq<char>> {
    g.update(i, g[i].update(j, c))
}

impl Line {
    /// Where the segment begins.
    pub closed spec fn spec_start(&self) -> (usize, usize) {
        self.start
    }

    /// Where the segment ends.
    pub closed spec fn spec_end(&self) -> (usize, usize) {
        self.end
    }
}

impl Canvas {
    /// The character matrix, row by row.
    pub closed spec fn grid(&self) -> Seq<Seq<char>> {
        Seq::new(self.buffer@.len(), |i: int| self.buffer@[i]@)
    }

    /// Number of columns.
    pub closed spec fn spec_width(&self) -> int {
        self.width as int
    }

    /// Number of rows.
    pub closed spec fn spec_height(&self) -> int {
        self.height as int
    }

    /// The tracked drawn-region rectangle.
    pub closed spec fn spec_boundary(&self) -> Rectangle {
        self.boundary
    }

    /// The vertex addresses a cell of this canvas.
    pub open spec fn in_bounds(&self, v: (usize, usize)) -> bool {
        v.0 < self.spec_height() && v.1 < self.spec_width()
    }

    /// Well-formedness: the matrix is rectangular with the stated dimensions,
    /// the boundary fields address cells of the grid, and every non-blank
    /// cell lies inside the boundary rectangle.
    pub open spec fn wf(&self) -> bool {
        &&& 1 <= self.spec_width() <= usize::MAX
        &&& 1 <= self.spec_height() <= usize::MAX
        &&& self.grid().len() == self.spec_height()
        &&& forall|i: int|
            0 <= i < self.spec_height() ==> (#[trigger] self.grid()[i]).len() == self.spec_width()
        &&& self.spec_boundary().top < self.spec_height()
        &&& self.spec_boundary().bottom < self.spec_height()
        &&& self.spec_boundary().left < self.spec_width()
        &&& self.spec_boundary().right < self.spec_width()
        &&& forall|i: int, j: int|
            0 <= i < self.spec_height() && 0 <= j < self.spec_width() && #[trigger] self.grid(
            )[i][j] != ' ' ==> rect_contains(self.spec_boundary(), i, j)
    }

    /// Creates a blank canvas whose drawn region starts inverted, so the
    /// first write establishes a one-cell region.
    pub fn new(width: usize, height: usize) -> (r: Canvas)
        requires
            1 <= width,
            1 <= height,
        ensures
            r.wf(),
            r.spec_width() == width,
            r.spec_height() == height,
            r.grid() == blank_grid(width as int, height as int),
            r.spec_boundary() == (Rectangle {
                left: (width - 1) as usize,
                right: 0usize,
                top: (height - 1) as usize,
                bottom: 0usize,
            }),
    {
        let mut buffer: Vec<Vec<char>> = Vec::new();
        let mut i: usize = 0;
        while i < height
            invariant
                i <= height,
                1 <= width,
                buffer@.len() == i,
                forall|k: int| 0 <= k < i ==> #[trigger] buffer@[k]@ == Seq::new(width as nat, |j: int| ' '),
            decreases height - i,
        {
            let mut row: Vec<char> = Vec::new();
            let mut j: usize = 0;
            while j < width
                invariant
                    j <= width,
                    row@ == Seq::new(j as nat, |k: int| ' '),
                decreases width - j,
            {
                row.push(' ');
                proof {
                    assert(row@ =~= Seq::new((j + 1) as nat, |k: int| ' '));
                }
                j = j + 1;
            }
            buffer.push(row);
            i = i + 1;
        }
        let r = Canvas {
            width,
            height,
            buffer,
            boundary: Rectangle { left: width - 1, right: 0, top: height - 1, bottom: 0 },
        };
        proof {
            assert(r.grid() =~~= blank_grid(width as int, height as int));
        }
        r
    }

    /// Writes one cell and widens the drawn region to include it.
    fn change_pixel(&mut self, vertex: &(usize, usize), c: char)
        requires
            old(self).wf(),
            old(self).in_bounds(*vertex),
        ensures
            final(self).wf(),
            final(self).spec_width() == old(self).spec_width(),
            final(self).spec_height() == old(self).spec_height(),
            final(self).grid() == grid_set(old(self).grid(), vertex.0 as int, vertex.1 as int, c),
            final(self).spec_boundary() == rect_expand(old(self).spec_boundary(), vertex.0, vertex.1),
    {
        let row = vertex.0;
        let col = vertex.1;
        assert(self.buffer@.len() == self.spec_height());
        assert(self.grid()[row as int].len() == self.spec_width());
        self.buffer[row][col] = c;

        if row < self.boundary.top {
            self.boundary.top = row;
        }
        if row > self.boundary.bottom {
            self.boundary.bottom = row;
        }
        if col < self.boundary.left {
            self.boundary.left = col;
        }
        if col > self.boundary.right {
            self.boundary.right = col;
        }
        proof {
            assert(self.grid() =~~= grid_set(old(self).grid(), row as int, col as int, c));
        }
    }

    /// Overwrites one cell with `c`, expanding the drawn region to include it.
    pub fn draw_point(&mut self, vertex: &(usize, usize), c: char)
        requires
            old(self).wf(),
            old(self).in_bounds(*vertex),
        ensures
            final(self).wf(),
            final(self).spec_width() == old(self).spec_width(),
            final(self).spec_height() == old(self).spec_height(),
            final(self).grid() == grid_set(old(self).grid(), vertex.0 as int, vertex.1 as int, c),
            final(self).spec_boundary() == rect_expand(old(self).spec_boundary(), vertex.0, vertex.1),
    {
        self.change_pixel(vertex, c);
    }
}

/// An all-blank grid of the given dimensions.
pub open spec fn blank_grid(width: int, height: int) -> Seq<Seq<char>> {
    Seq::new(height as nat, |i: int| Seq::new(width as nat, |j: int| ' '))
}

/// The cell `(i, j)` lies strictly between `a` and `b` on a horizontal segment.
pub open spec fn on_h_stroke(a: (usize, usize), b: (usize, usize), i: int, j: int) -> bool {
    a.0 == b.0 && a.1 != b.1 && i == a.0 && vstd::math::min(a.1 as int, b.1 as int) < j
        < vstd::math::max(a.1 as int, b.1 as int)
}

/// The cell `(i, j)` lies strictly between `a` and `b` on a vertical segment.
pub open spec fn on_v_stroke(a: (usize, usize), b: (usize, usize), i: int, j: int) -> bool {
    a.1 == b.1 && a.0 != b.0 && j == a.1 && vstd::math::min(a.0 as int, b.0 as int) < i
        < vstd::math::max(a.0 as int, b.0 as int)
}

/// `g` after stroking the open segment between `a` and `b`: a horizontal
/// segment paints `─`, a vertical one `│`, a diagonal request changes
/// nothing. When `overwrite` is false only blank cells are painted.
pub open spec fn line_grid(
    g: Seq<Seq<char>>,
    a: (usize, usize),
    b: (usize, usize),
    overwrite: bool,
) -> Seq<Seq<char>> {
    Seq::new(
        g.len(),
        |i: int|
            Seq::new(
                g[i].len(),
                |j: int|
                    if on_h_stroke(a, b, i, j) && (g[i][j] == ' ' || overwrite) {
                        '─'
                    } else if on_v_stroke(a, b, i, j) && (g[i][j] == ' ' || overwrite) {
                        '│'
                    } else {
                        g[i][j]
                    },
            ),
    )
}

/// The directional glyph stamped at the end of an arrowed line: vertical
/// motion takes precedence, coincident endpoints give `?`.
pub open spec fn arrow_char(start: (usize, usize), end: (usize, usize)) -> char {
    if start.0 != end.0 {
        if start.0 < end.0 {
            '▼'
        } else {
            '▲'
        }
    } else if start.1 != end.1 {
        if start.1 < end.1 {
            '►'
        } else {
            '◄'
        }
    } else {
        '?'
    }
}

impl Canvas {
    /// Reads one cell.
    fn pixel(&self, row: usize, col: usize) -> (c: char)
        requires
            self.wf(),
            row < self.spec_height(),
            col < self.spec_width(),
        ensures
            c == self.grid()[row as int][col as int],
    {
        assert(self.buffer@.len() == self.spec_height());
        assert(self.grid()[row as int].len() == self.spec_width());
        self.buffer[row][col]
    }

    /// Draws the open segment between `a` and `b`; when `overwrite` is false
    /// only blank cells are painted.
    fn draw_line_overwrite_or_not(
        &mut self,
        a: &(usize, usize),
        b: &(usize, usize),
        overwrite: bool,
    ) -> (r: Line)
        requires
            old(self).wf(),
            old(self).in_bounds(*a),
            old(self).in_bounds(*b),
        ensures
            final(self).wf(),
            final(self).spec_width() == old(self).spec_width(),
            final(self).spec_height() == old(self).spec_height(),
            final(self).grid() == line_grid(old(self).grid(), *a, *b, overwrite),
            rect_covers(final(self).spec_boundary(), old(self).spec_boundary()),
            rect_covers(
                rect_expand(rect_expand(old(self).spec_boundary(), a.0, a.1), b.0, b.1),
                final(self).spec_boundary(),
            ),
            r.spec_start() == *a,
            r.spec_end() == *b,
    {
        let ghost g0 = self.grid();
        let ghost span = rect_expand(rect_expand(old(self).spec_boundary(), a.0, a.1), b.0, b.1);
        if a.0 == b.0 && a.1 != b.1 {
            let row = a.0;
            let lo = if a.1 < b.1 { a.1 } else { b.1 };
            let hi = if a.1 < b.1 { b.1 } else { a.1 };
            let mut j = lo + 1;
            while j < hi
                invariant
                    self.wf(),
                    self.spec_width() == old(self).spec_width(),
                    self.spec_height() == old(self).spec_height(),
                    rect_covers(self.spec_boundary(), old(self).spec_boundary()),
                    span == rect_expand(rect_expand(old(self).spec_boundary(), a.0, a.1), b.0, b.1),
                    rect_covers(span, self.spec_boundary()),
                    a.0 == b.0 && a.1 != b.1,
                    row == a.0,
                    lo == vstd::math::min(a.1 as int, b.1 as int),
                    hi == vstd::math::max(a.1 as int, b.1 as int),
                    lo < j <= hi,
                    hi < self.spec_width(),
                    row < self.spec_height(),
                    g0 == old(self).grid(),
                    self.grid() =~~= Seq::new(
                        g0.len(),
                        |i: int|
                            Seq::new(
                                g0[i].len(),
                                |jj: int|
                                    if i == row && lo < jj < j && (g0[i][jj] == ' ' || overwrite) {
                                        '─'
                                    } else {
                                        g0[i][jj]
                                    },
                            ),
                    ),
                decreases hi - j,
            {
                assert(self.grid()[row as int][j as int] == g0[row as int][j as int]);
                if self.pixel(row, j) == ' ' || overwrite {
                    self.change_pixel(&(row, j), '─');
                }
                proof {
                    assert(self.grid() =~~= Seq::new(
                        g0.len(),
                        |i: int|
                            Seq::new(
                                g0[i].len(),
                                |jj: int|
                                    if i == row && lo < jj < j + 1 && (g0[i][jj] == ' '
                                        || overwrite) {
                                        '─'
                                    } else {
                                        g0[i][jj]
                                    },
                            ),
                    ));
                }
                j = j + 1;
            }
            proof {
                assert(self.grid() =~~= line_grid(g0, *a, *b, overwrite));
            }
        } else if a.1 == b.1 && a.0 != b.0 {
            let col = a.1;
            let lo = if a.0 < b.0 { a.0 } else { b.0 };
            let hi = if a.0 < b.0 { b.0 } else { a.0 };
            let mut i = lo + 1;
            while i < hi
                invariant
                    self.wf(),
                    self.spec_width() == old(self).spec_width(),
                    self.spec_height() == old(self).spec_height(),
                    rect_covers(self.spec_boundary(), old(self).spec_boundary()),
                    span == rect_expand(rect_expand(old(self).spec_boundary(), a.0, a.1), b.0, b.1),
                    rect_covers(span, self.spec_boundary()),
                    a.1 == b.1 && a.0 != b.0,
                    col == a.1,
                    lo == vstd::math::min(a.0 as int, b.0 as int),
                    hi == vstd::math::max(a.0 as int, b.0 as int),
                    lo < i <= hi,
                    hi < self.spec_height(),
                    col < self.spec_width(),
                    g0 == old(self).grid(),
                    self.grid() =~~= Seq::new(
                        g0.len(),
                        |ii: int|
                            Seq::new(
                                g0[ii].len(),
                                |jj: int|
                                    if jj == col && lo < ii < i && (g0[ii][jj] == ' '
                                        || overwrite) {
                                        '│'
                                    } else {
                                        g0[ii][jj]
                                    },
                            ),
                    ),
                decreases hi - i,
            {
                assert(self.grid()[i as int][col as int] == g0[i as int][col as int]);
                if self.pixel(i, col) == ' ' || overwrite {
                    self.change_pixel(&(i, col), '│');
                }
                proof {
                    assert(self.grid() =~~= Seq::new(
                        g0.len(),
                        |ii: int|
                            Seq::new(
                                g0[ii].len(),
                                |jj: int|
                                    if jj == col && lo < ii < i + 1 && (g0[ii][jj] == ' '
                                        || overwrite) {
                                        '│'
                                    } else {
                                        g0[ii][jj]
                                    },
                            ),
                    ));
                }
                i = i + 1;
            }
            proof {
                assert(self.grid() =~~= line_grid(g0, *a, *b, overwrite));
            }
        } else {
            proof {
                assert(self.grid() =~~= line_grid(g0, *a, *b, overwrite));
            }
        }
        Line { start: (a.0, a.1), end: (b.0, b.1) }
    }

    /// Draws the open segment between `a` and `b`, overwriting whatever the
    /// touched cells held.
    pub fn draw_line(&mut self, a: &(usize, usize), b: &(usize, usize)) -> (r: Line)
        requires
            old(self).wf(),
            old(self).in_bounds(*a),
            old(self).in_bounds(*b),
        ensures
            final(self).wf(),
            final(self).spec_width() == old(self).spec_width(),
            final(self).spec_height() == old(self).spec_height(),
            final(self).grid() == line_grid(old(self).grid(), *a, *b, true),
            rect_covers(final(self).spec_boundary(), old(self).spec_boundary()),
            rect_covers(
                rect_expand(rect_expand(old(self).spec_boundary(), a.0, a.1), b.0, b.1),
                final(self).spec_boundary(),
            ),
            r.spec_start() == *a,
            r.spec_end() == *b,
    {
        self.draw_line_overwrite_or_not(a, b, true)
    }

    /// Draws the open segment between `a` and `b`, painting only blank
    /// cells, so existing glyphs are kept.
    pub fn draw_line_under(&mut self, a: &(usize, usize), b: &(usize, usize)) -> (r: Line)
        requires
            old(self).wf(),
            old(self).in_bounds(*a),
            old(self).in_bounds(*b),
        ensures
            final(self).wf(),
            final(self).spec_width() == old(self).spec_width(),
            final(self).spec_height() == old(self).spec_height(),
            final(self).grid() == line_grid(old(self).grid(), *a, *b, false),
            rect_covers(final(self).spec_boundary(), old(self).spec_boundary()),
            rect_covers(
                rect_expand(rect_expand(old(self).spec_boundary(), a.0, a.1), b.0, b.1),
                final(self).spec_boundary(),
            ),
            r.spec_start() == *a,
            r.spec_end() == *b,
    {
        self.draw_line_overwrite_or_not(a, b, false)
    }

    /// Draws the segment and stamps the directional glyph at `end`.
    pub fn draw_arrowed_line(&mut self, start: &(usize, usize), end: &(usize, usize)) -> (r: Line)
        requires
            old(self).wf(),
            old(self).in_bounds(*start),
            old(self).in_bounds(*end),
        ensures
            final(self).wf(),
            final(self).spec_width() == old(self).spec_width(),
            final(self).spec_height() == old(self).spec_height(),
            final(self).grid() == grid_set(
                line_grid(old(self).grid(), *start, *end, true),
                end.0 as int,
                end.1 as int,
                arrow_char(*start, *end),
            ),
            rect_covers(final(self).spec_boundary(), old(self).spec_boundary()),
            rect_covers(
                rect_expand(rect_expand(old(self).spec_boundary(), start.0, start.1), end.0, end.1),
                final(self).spec_boundary(),
            ),
            r.spec_start() == *start,
            r.spec_end() == *end,
    {
        let line = self.draw_line(start, end);
        let mut c = '?';
        if start.0 != end.0 {
            if start.0 < end.0 {
                c = '▼';
            } else {
                c = '▲';
            }
        } else if start.1 != end.1 {
            if start.1 < end.1 {
                c = '►';
            } else {
                c = '◄';
            }
        }
        self.change_pixel(end, c);
        line
    }
}

/// `g` after drawing the border of `rec`: corner glyphs, `─` along the top
/// and bottom edges, `│` along the left and right edges, the rest unchanged.
pub open spec fn rectangle_grid(g: Seq<Seq<char>>, rec: Rectangle) -> Seq<Seq<char>> {
    Seq::new(
        g.len(),
        |i: int|
            Seq::new(
                g[i].len(),
                |j: int|
                    if i == rec.top && j == rec.left {
                        '┌'
                    } else if i == rec.top && j == rec.right {
                        '┐'
                    } else if i == rec.bottom && j == rec.right {
                        '┘'
                    } else if i == rec.bottom && j == rec.left {
                        '└'
                    } else if (i == rec.top || i == rec.bottom) && rec.left < j < rec.right {
                        '─'
                    } else if (j == rec.left || j == rec.right) && rec.top < i < rec.bottom {
                        '│'
                    } else {
                        g[i][j]
                    },
            ),
    )
}

/// `g` after word-wrapping `label` into the interior of `rec`, continuing
/// from position `(i, j)` with `k` label characters already consumed.
/// `fresh_row` records that the previous cell attempt wrapped to a new row,
/// in which case one leading space is skipped. Characters beyond the
/// interior's capacity are never written.
pub open spec fn label_grid(
    g: Seq<Seq<char>>,
    rec: Rectangle,
    label: Seq<char>,
    k: int,
    i: int,
    j: int,
    fresh_row: bool,
) -> Seq<Seq<char>>
    decreases rec.bottom - i, label.len() - k,
{
    if i >= rec.bottom || k >= label.len() || k < 0 {
        g
    } else if j >= rec.right {
        label_grid(g, rec, label, k, i + 1, rec.left + 1, true)
    } else if fresh_row && label[k] == ' ' {
        label_grid(g, rec, label, k + 1, i, j, false)
    } else {
        label_grid(grid_set(g, i, j, label[k]), rec, label, k + 1, i, j + 1, false)
    }
}

/// `g` after writing `label` into the interior of `rec` from its top-left
/// interior cell.
pub open spec fn labelled_interior_grid(
    g: Seq<Seq<char>>,
    rec: Rectangle,
    label: Seq<char>,
) -> Seq<Seq<char>> {
    label_grid(g, rec, label, 0, rec.top + 1, rec.left + 1, false)
}

/// The least row index among `vs` (the last entry ties toward earlier ones).
pub open spec fn min_row_of(vs: Seq<(usize, usize)>) -> int
    decreases vs.len(),
{
    if vs.len() <= 1 {
        vs[0].0 as int
    } else {
        vstd::math::min(vs.last().0 as int, min_row_of(vs.drop_last()))
    }
}

/// The greatest row index among `vs`.
pub open spec fn max_row_of(vs: Seq<(usize, usize)>) -> int
    decreases vs.len(),
{
    if vs.len() <= 1 {
        vs[0].0 as int
    } else {
        vstd::math::max(vs.last().0 as int, max_row_of(vs.drop_last()))
    }
}

/// The least column index among `vs`.
pub open spec fn min_col_of(vs: Seq<(usize, usize)>) -> int
    decreases vs.len(),
{
    if vs.len() <= 1 {
        vs[0].1 as int
    } else {
        vstd::math::min(vs.last().1 as int, min_col_of(vs.drop_last()))
    }
}

/// The greatest column index among `vs`.
pub open spec fn max_col_of(vs: Seq<(usize, usize)>) -> int
    decreases vs.len(),
{
    if vs.len() <= 1 {
        vs[0].1 as int
    } else {
        vstd::math::max(vs.last().1 as int, max_col_of(vs.drop_last()))
    }
}

/// The minimal rectangle containing every vertex of `vs`.
pub open spec fn bounding_rect_of(vs: Seq<(usize, usize)>) -> Rectangle {
    Rectangle {
        left: min_col_of(vs) as usize,
        right: max_col_of(vs) as usize,
        top: min_row_of(vs) as usize,
        bottom: max_row_of(vs) as usize,
    }
}

impl Canvas {
    /// Draws the four border edges of `rec` and its corner glyphs.
    pub fn draw_rectangle(&mut self, rec: &Rectangle)
        requires
            old(self).wf(),
            rec.left < rec.right < old(self).spec_width(),
            rec.top < rec.bottom < old(self).spec_height(),
        ensures
            final(self).wf(),
            final(self).spec_width() == old(self).spec_width(),
            final(self).spec_height() == old(self).spec_height(),
            final(self).grid() == rectangle_grid(old(self).grid(), *rec),
            rect_covers(final(self).spec_boundary(), old(self).spec_boundary()),
            rect_covers(
                rect_expand(rect_expand(old(self).spec_boundary(), rec.top, rec.left), rec.bottom, rec.right),
                final(self).spec_boundary(),
            ),
    {
        self.draw_line(&(rec.top, rec.left), &(rec.top, rec.right));
        self.draw_line(&(rec.top, rec.right), &(rec.bottom, rec.right));
        self.draw_line(&(rec.bottom, rec.right), &(rec.bottom, rec.left));
        self.draw_line(&(rec.bottom, rec.left), &(rec.top, rec.left));

        self.draw_point(&(rec.top, rec.left), '┌');
        self.draw_point(&(rec.top, rec.right), '┐');
        self.draw_point(&(rec.bottom, rec.right), '┘');
        self.draw_point(&(rec.bottom, rec.left), '└');
        proof {
            assert(self.grid() =~~= rectangle_grid(old(self).grid(), *rec));
        }
    }

    /// Word-wraps `label` left-to-right, top-to-bottom into the interior of
    /// `rec`, skipping one leading space right after an automatic wrap.
    fn write_label_within_rec(&mut self, rec: &Rectangle, label: &str)
        requires
            old(self).wf(),
            rec.left <= rec.right < old(self).spec_width(),
            rec.top <= rec.bottom < old(self).spec_height(),
        ensures
            final(self).wf(),
            final(self).spec_width() == old(self).spec_width(),
            final(self).spec_height() == old(self).spec_height(),
            final(self).grid() == labelled_interior_grid(old(self).grid(), *rec, label@),
            rect_covers(final(self).spec_boundary(), old(self).spec_boundary()),
            rect_covers(
                rect_expand(rect_expand(old(self).spec_boundary(), rec.top, rec.left), rec.bottom, rec.right),
                final(self).spec_boundary(),
            ),
    {
        let ghost span = rect_expand(
            rect_expand(old(self).spec_boundary(), rec.top, rec.left),
            rec.bottom,
            rec.right,
        );
        let len = label.unicode_len();
        let mut k: usize = 0;
        let mut i: usize = rec.top + 1;
        let mut j: usize = rec.left + 1;
        let mut fresh_row = false;
        while i < rec.bottom && k < len
            invariant
                self.wf(),
                self.spec_width() == old(self).spec_width(),
                self.spec_height() == old(self).spec_height(),
                rect_covers(self.spec_boundary(), old(self).spec_boundary()),
                span == rect_expand(
                    rect_expand(old(self).spec_boundary(), rec.top, rec.left),
                    rec.bottom,
                    rec.right,
                ),
                rect_covers(span, self.spec_boundary()),
                rec.left <= rec.right < self.spec_width(),
                rec.top <= rec.bottom < self.spec_height(),
                rec.top + 1 <= i <= vstd::math::max(rec.bottom as int, rec.top + 1),
                rec.left + 1 <= j <= vstd::math::max(rec.right as int, rec.left + 1),
                k <= len,
                len == label@.len(),
                label_grid(self.grid(), *rec, label@, k as int, i as int, j as int, fresh_row)
                    == labelled_interior_grid(old(self).grid(), *rec, label@),
            decreases rec.bottom - i, len - k,
        {
            if j >= rec.right {
                j = rec.left + 1;
                i = i + 1;
                fresh_row = true;
            } else {
                let c = label.get_char(k);
                if fresh_row && c == ' ' {
                    k = k + 1;
                    fresh_row = false;
                } else {
                    self.change_pixel(&(i, j), c);
                    k = k + 1;
                    j = j + 1;
                    fresh_row = false;
                }
            }
        }
    }

    /// The minimal bounding rectangle of a non-empty vertex set.
    fn rec_from_vertices(&self, vertices: &[(usize, usize)]) -> (r: Rectangle)
        requires
            vertices@.len() >= 1,
        ensures
            r == bounding_rect_of(vertices@),
    {
        let mut left = vertices[0].1;
        let mut right = vertices[0].1;
        let mut top = vertices[0].0;
        let mut bottom = vertices[0].0;

        let mut n: usize = 1;
        while n < vertices.len()
            invariant
                1 <= n <= vertices@.len(),
                left == min_col_of(vertices@.take(n as int)),
                right == max_col_of(vertices@.take(n as int)),
                top == min_row_of(vertices@.take(n as int)),
                bottom == max_row_of(vertices@.take(n as int)),
            decreases vertices@.len() - n,
        {
            let v = vertices[n];
            if v.1 < left {
                left = v.1;
            }
            if v.1 > right {
                right = v.1;
            }
            if v.0 < top {
                top = v.0;
            }
            if v.0 > bottom {
                bottom = v.0;
            }
            proof {
                let t = vertices@.take(n + 1);
                assert(t.drop_last() =~= vertices@.take(n as int));
                assert(t.last() == vertices@[n as int]);
            }
            n = n + 1;
        }
        proof {
            assert(vertices@.take(vertices@.len() as int) =~= vertices@);
        }
        Rectangle { left, right, top, bottom }
    }

    /// Writes `label` into the interior of the minimal bounding rectangle of
    /// `vertices` (no border is drawn).
    pub fn draw_rectangle_with_vertices_label(
        &mut self,
        vertices: &[(usize, usize)],
        label: &str,
    )
        requires
            old(self).wf(),
            vertices@.len() >= 1,
            forall|k: int|
                0 <= k < vertices@.len() ==> old(self).in_bounds(#[trigger] vertices@[k]),
        ensures
            final(self).wf(),
            final(self).spec_width() == old(self).spec_width(),
            final(self).spec_height() == old(self).spec_height(),
            final(self).grid() == labelled_interior_grid(
                old(self).grid(),
                bounding_rect_of(vertices@),
                label@,
            ),
            rect_covers(final(self).spec_boundary(), old(self).spec_boundary()),
            rect_covers(
                rect_expand(
                    rect_expand(
                        old(self).spec_boundary(),
                        bounding_rect_of(vertices@).top,
                        bounding_rect_of(vertices@).left,
                    ),
                    bounding_rect_of(vertices@).bottom,
                    bounding_rect_of(vertices@).right,
                ),
                final(self).spec_boundary(),
            ),
    {
        proof {
            lemma_bounding_rect_bounds(vertices@);
        }
        let rec = self.rec_from_vertices(vertices);
        self.write_label_within_rec(&rec, label);
    }

    /// Draws the border of `rec` and word-wraps `label` into its interior.
    pub fn draw_rectangle_with_label(&mut self, rec: &Rectangle, label: &str)
        requires
            old(self).wf(),
            rec.left < rec.right < old(self).spec_width(),
            rec.top < rec.bottom < old(self).spec_height(),
        ensures
            final(self).wf(),
            final(self).spec_width() == old(self).spec_width(),
            final(self).spec_height() == old(self).spec_height(),
            final(self).grid() == labelled_interior_grid(
                rectangle_grid(old(self).grid(), *rec),
                *rec,
                label@,
            ),
            rect_covers(final(self).spec_boundary(), old(self).spec_boundary()),
            rect_covers(
                rect_expand(rect_expand(old(self).spec_boundary(), rec.top, rec.left), rec.bottom, rec.right),
                final(self).spec_boundary(),
            ),
    {
        self.draw_rectangle(rec);
        self.write_label_within_rec(rec, label);
    }
}

/// Every vertex of a non-empty in-bounds vertex set is contained in its
/// bounding rectangle, which itself stays within the same bounds.
proof fn lemma_min_row_of(vs: Seq<(usize, usize)>)
    requires
        vs.len() >= 1,
    ensures
        exists|k: int| 0 <= k < vs.len() && min_row_of(vs) == (#[trigger] vs[k]).0,
        forall|k: int| 0 <= k < vs.len() ==> min_row_of(vs) <= (#[trigger] vs[k]).0,
    decreases vs.len(),
{
    if vs.len() == 1 {
        assert(min_row_of(vs) == vs[0].0);
    } else {
        let prev = vs.drop_last();
        lemma_min_row_of(prev);
        assert(forall|k: int| 0 <= k < vs.len() - 1 ==> prev[k] == #[trigger] vs[k]);
        assert(vs.last() == vs[vs.len() - 1]);
        if vs.last().0 <= min_row_of(prev) {
            assert(min_row_of(vs) == vs[vs.len() - 1].0);
        } else {
            let k = choose|k: int| 0 <= k < prev.len() && min_row_of(prev) == (#[trigger] prev[k]).0;
            assert(min_row_of(vs) == vs[k].0);
        }
    }
}

proof fn lemma_max_row_of(vs: Seq<(usize, usize)>)
    requires
        vs.len() >= 1,
    ensures
        exists|k: int| 0 <= k < vs.len() && max_row_of(vs) == (#[trigger] vs[k]).0,
        forall|k: int| 0 <= k < vs.len() ==> max_row_of(vs) >= (#[trigger] vs[k]).0,
    decreases vs.len(),
{
    if vs.len() == 1 {
        assert(max_row_of(vs) == vs[0].0);
    } else {
        let prev = vs.drop_last();
        lemma_max_row_of(prev);
        assert(forall|k: int| 0 <= k < vs.len() - 1 ==> prev[k] == #[trigger] vs[k]);
        assert(vs.last() == vs[vs.len() - 1]);
        if vs.last().0 >= max_row_of(prev) {
            assert(max_row_of(vs) == vs[vs.len() - 1].0);
        } else {
            let k = choose|k: int| 0 <= k < prev.len() && max_row_of(prev) == (#[trigger] prev[k]).0;
            assert(max_row_of(vs) == vs[k].0);
        }
    }
}

proof fn lemma_min_col_of(vs: Seq<(usize, usize)>)
    requires
        vs.len() >= 1,
    ensures
        exists|k: int| 0 <= k < vs.len() && min_col_of(vs) == (#[trigger] vs[k]).1,
        forall|k: int| 0 <= k < vs.len() ==> min_col_of(vs) <= (#[trigger] vs[k]).1,
    decreases vs.len(),
{
    if vs.len() == 1 {
        assert(min_col_of(vs) == vs[0].1);
    } else {
        let prev = vs.drop_last();
        lemma_min_col_of(prev);
        assert(forall|k: int| 0 <= k < vs.len() - 1 ==> prev[k] == #[trigger] vs[k]);
        assert(vs.last() == vs[vs.len() - 1]);
        if vs.last().1 <= min_col_of(prev) {
            assert(min_col_of(vs) == vs[vs.len() - 1].1);
        } else {
            let k = choose|k: int| 0 <= k < prev.len() && min_col_of(prev) == (#[trigger] prev[k]).1;
            assert(min_col_of(vs) == vs[k].1);
        }
    }
}

proof fn lemma_max_col_of(vs: Seq<(usize, usize)>)
    requires
        vs.len() >= 1,
    ensures
        exists|k: int| 0 <= k < vs.len() && max_col_of(vs) == (#[trigger] vs[k]).1,
        forall|k: int| 0 <= k < vs.len() ==> max_col_of(vs) >= (#[trigger] vs[k]).1,
    decreases vs.len(),
{
    if vs.len() == 1 {
        assert(max_col_of(vs) == vs[0].1);
    } else {
        let prev = vs.drop_last();
        lemma_max_col_of(prev);
        assert(forall|k: int| 0 <= k < vs.len() - 1 ==> prev[k] == #[trigger] vs[k]);
        assert(vs.last() == vs[vs.len() - 1]);
        if vs.last().1 >= max_col_of(prev) {
            assert(max_col_of(vs) == vs[vs.len() - 1].1);
        } else {
            let k = choose|k: int| 0 <= k < prev.len() && max_col_of(prev) == (#[trigger] prev[k]).1;
            assert(max_col_of(vs) == vs[k].1);
        }
    }
}

/// Every vertex of a non-empty vertex set is contained in its bounding
/// rectangle, and each of the rectangle's four sides is attained by some
/// vertex.
pub proof fn lemma_bounding_rect_bounds(vs: Seq<(usize, usize)>)
    requires
        vs.len() >= 1,
    ensures
        forall|k: int|
            0 <= k < vs.len() ==> rect_contains(
                bounding_rect_of(vs),
                (#[trigger] vs[k]).0 as int,
                (#[trigger] vs[k]).1 as int,
            ),
        bounding_rect_of(vs).top <= bounding_rect_of(vs).bottom,
        bounding_rect_of(vs).left <= bounding_rect_of(vs).right,
        exists|k: int| 0 <= k < vs.len() && bounding_rect_of(vs).top == (#[trigger] vs[k]).0,
        exists|k: int| 0 <= k < vs.len() && bounding_rect_of(vs).bottom == (#[trigger] vs[k]).0,
        exists|k: int| 0 <= k < vs.len() && bounding_rect_of(vs).left == (#[trigger] vs[k]).1,
        exists|k: int| 0 <= k < vs.len() && bounding_rect_of(vs).right == (#[trigger] vs[k]).1,
{
    lemma_min_row_of(vs);
    lemma_max_row_of(vs);
    lemma_min_col_of(vs);
    lemma_max_col_of(vs);
    let b = bounding_rect_of(vs);
    assert(b.top as int == min_row_of(vs));
    assert(b.bottom as int == max_row_of(vs));
    assert(b.left as int == min_col_of(vs));
    assert(b.right as int == max_col_of(vs));
}

/// The scratch rectangle that receives the label of a horizontal line
/// between `a` and `b`: the rows directly above the line, spanning the
/// columns strictly between the endpoints.
pub open spec fn h_label_rect(a: (usize, usize), b: (usize, usize), label_len: int) -> Rectangle {
    let lo = vstd::math::min(a.1 as int, b.1 as int);
    let hi = vstd::math::max(a.1 as int, b.1 as int);
    Rectangle {
        left: (lo + 1) as usize,
        right: (hi - 1) as usize,
        top: (a.0 - 1 - (label_len - 1) / (hi - lo - 3) - 1) as usize,
        bottom: a.0,
    }
}

/// The scratch rectangle that receives the label of a vertical line between
/// `a` and `b`: the rows strictly between the endpoints, centered on the
/// line's column with the width the wrapped label needs.
pub open spec fn v_label_rect(a: (usize, usize), b: (usize, usize), label_len: int) -> Rectangle {
    let lo = vstd::math::min(a.0 as int, b.0 as int);
    let hi = vstd::math::max(a.0 as int, b.0 as int);
    let w = (label_len - 1) / (hi - lo - 3) + 1;
    Rectangle {
        left: (a.1 - w / 2 - 1) as usize,
        right: (a.1 + w / 2 + 1) as usize,
        top: (lo + 1) as usize,
        bottom: (hi - 1) as usize,
    }
}

/// The scratch rectangle a labeled line writes its label into, by the
/// line's direction.
pub open spec fn label_span_rect(a: (usize, usize), b: (usize, usize), label_len: int) -> Rectangle {
    if a.1 != b.1 {
        h_label_rect(a, b, label_len)
    } else {
        v_label_rect(a, b, label_len)
    }
}

/// `g` after drawing the (possibly arrowed) line from `a` to `b` and writing
/// `label` into the scratch rectangle beside it: above a horizontal line,
/// next to a vertical one.
pub open spec fn line_with_label_grid(
    g: Seq<Seq<char>>,
    a: (usize, usize),
    b: (usize, usize),
    label: Seq<char>,
    arrowed: bool,
) -> Seq<Seq<char>> {
    let lined = if arrowed {
        grid_set(line_grid(g, a, b, true), b.0 as int, b.1 as int, arrow_char(a, b))
    } else {
        line_grid(g, a, b, true)
    };
    if a.1 != b.1 {
        labelled_interior_grid(lined, h_label_rect(a, b, label.len() as int), label)
    } else if a.0 != b.0 {
        labelled_interior_grid(lined, v_label_rect(a, b, label.len() as int), label)
    } else {
        lined
    }
}

/// The geometric preconditions under which a labeled line between `a` and
/// `b` can be laid out on a `width x height` grid: the endpoints are
/// axis-aligned and distinct, the span leaves room for the label-wrapping
/// arithmetic, and the label's rows or columns stay on the grid.
pub open spec fn labelled_line_fits(
    a: (usize, usize),
    b: (usize, usize),
    label_len: int,
    width: int,
    height: int,
) -> bool {
    &&& (a.0 as int) < height && (a.1 as int) < width
    &&& (b.0 as int) < height && (b.1 as int) < width
    &&& label_len >= 1
    &&& if a.1 != b.1 {
        let lo = vstd::math::min(a.1 as int, b.1 as int);
        let hi = vstd::math::max(a.1 as int, b.1 as int);
        a.0 == b.0 && hi - lo >= 4 && a.0 >= (label_len - 1) / (hi - lo - 3) + 2
    } else {
        let lo = vstd::math::min(a.0 as int, b.0 as int);
        let hi = vstd::math::max(a.0 as int, b.0 as int);
        let w = (label_len - 1) / (hi - lo - 3) + 1;
        a.0 != b.0 && hi - lo >= 4 && a.1 >= w / 2 + 1 && a.1 + w / 2 + 1 < width
    }
}

/// There is a non-blank cell in row `i` of `g`.
pub open spec fn row_nonblank(g: Seq<Seq<char>>, i: int) -> bool {
    exists|j: int| 0 <= j < g[i].len() && g[i][j] != ' '
}

/// There is a non-blank cell in column `j` of `g`.
pub open spec fn col_nonblank(g: Seq<Seq<char>>, j: int) -> bool {
    exists|i: int| 0 <= i < g.len() && g[i][j] != ' '
}

/// `b` is the authoritative drawn region recomputed from `g`: when any cell
/// of `g` is non-blank, `b` is exactly the minimal rectangle containing every
/// non-blank cell; on an all-blank grid the previous boundary `b0` is kept.
pub open spec fn tight_boundary(b0: Rectangle, b: Rectangle, g: Seq<Seq<char>>) -> bool {
    if exists|i: int| 0 <= i < g.len() && #[trigger] row_nonblank(g, i) {
        &&& b.top < g.len() && b.bottom < g.len()
        &&& row_nonblank(g, b.top as int)
        &&& row_nonblank(g, b.bottom as int)
        &&& forall|i: int|
            0 <= i < g.len() && #[trigger] row_nonblank(g, i) ==> b.top <= i <= b.bottom
        &&& b.left < g[0].len() && b.right < g[0].len()
        &&& col_nonblank(g, b.left as int)
        &&& col_nonblank(g, b.right as int)
        &&& forall|j: int|
            0 <= j < g[0].len() && #[trigger] col_nonblank(g, j) ==> b.left <= j <= b.right
    } else {
        b == b0
    }
}

/// Recomputing the drawn-region boundary is idempotent: a second
/// recomputation over the same grid leaves the rectangle of the first one
/// unchanged.
pub proof fn lemma_tight_boundary_idempotent(
    b0: Rectangle,
    b1: Rectangle,
    b2: Rectangle,
    g: Seq<Seq<char>>,
)
    requires
        tight_boundary(b0, b1, g),
        tight_boundary(b1, b2, g),
    ensures
        b2 == b1,
{
    if exists|i: int| 0 <= i < g.len() && #[trigger] row_nonblank(g, i) {
        assert(b2.top == b1.top);
        assert(b2.bottom == b1.bottom);
        assert(b2.left == b1.left);
        assert(b2.right == b1.right);
    }
}

/// A drawn region that is still inverted (nothing was ever drawn)
/// serializes to the empty string.
pub proof fn lemma_render_inverted_empty(g: Seq<Seq<char>>, b: Rectangle)
    requires
        b.top > b.bottom,
    ensures
        render(g, b) == Seq::<char>::empty(),
{
}

/// The contents of `g` within `b` (inclusive), one row per line, each row
/// followed by a newline; empty when `b` is inverted.
/// Row `i` of `g` cut to the columns of `b`; empty when `b` is
/// column-inverted.
pub open spec fn row_slice(g: Seq<Seq<char>>, b: Rectangle, i: int) -> Seq<char> {
    if b.left <= b.right {
        g[i].subrange(b.left as int, b.right + 1)
    } else {
        Seq::empty()
    }
}

pub open spec fn render_rows(g: Seq<Seq<char>>, b: Rectangle, i: int) -> Seq<char>
    decreases b.bottom + 1 - i,
{
    if i < 0 || i > b.bottom {
        Seq::empty()
    } else {
        row_slice(g, b, i) + seq!['\n'] + render_rows(g, b, i + 1)
    }
}

/// The serialized drawn region of a canvas.
pub open spec fn render(g: Seq<Seq<char>>, b: Rectangle) -> Seq<char> {
    render_rows(g, b, b.top as int)
}

impl Canvas {
    /// Draws the line from `a` to `b` (arrowed or plain) and writes `label`
    /// beside it: centered in the rows above a horizontal line, or in a
    /// column band beside a vertical line, wrapped over as many rows or
    /// columns as the label's length divided by the available span needs.
    pub fn draw_line_with_label(
        &mut self,
        a: (usize, usize),
        b: (usize, usize),
        label: &str,
        arrowed: bool,
    )
        requires
            old(self).wf(),
            labelled_line_fits(
                a,
                b,
                label@.len() as int,
                old(self).spec_width(),
                old(self).spec_height(),
            ),
        ensures
            final(self).wf(),
            final(self).spec_width() == old(self).spec_width(),
            final(self).spec_height() == old(self).spec_height(),
            final(self).grid() == line_with_label_grid(old(self).grid(), a, b, label@, arrowed),
            rect_covers(final(self).spec_boundary(), old(self).spec_boundary()),
            rect_covers(
                rect_expand(
                    rect_expand(
                        rect_expand(
                            rect_expand(old(self).spec_boundary(), a.0, a.1),
                            b.0,
                            b.1,
                        ),
                        label_span_rect(a, b, label@.len() as int).top,
                        label_span_rect(a, b, label@.len() as int).left,
                    ),
                    label_span_rect(a, b, label@.len() as int).bottom,
                    label_span_rect(a, b, label@.len() as int).right,
                ),
                final(self).spec_boundary(),
            ),
    {
        if arrowed {
            self.draw_arrowed_line(&a, &b);
        } else {
            self.draw_line(&a, &b);
        }
        if a.1 != b.1 {
            let lo = if a.1 < b.1 { a.1 } else { b.1 };
            let hi = if a.1 < b.1 { b.1 } else { a.1 };
            let q = (label.unicode_len() - 1) / (hi - lo - 3);
            let label_rec = Rectangle { left: lo + 1, right: hi - 1, top: a.0 - q - 2, bottom: a.0 };
            assert(label_rec == h_label_rect(a, b, label@.len() as int));
            self.write_label_within_rec(&label_rec, label);
        } else if a.0 != b.0 {
            let lo = if a.0 < b.0 { a.0 } else { b.0 };
            let hi = if a.0 < b.0 { b.0 } else { a.0 };
            let w = (label.unicode_len() - 1) / (hi - lo - 3) + 1;
            let label_rec = Rectangle {
                left: a.1 - w / 2 - 1,
                right: a.1 + w / 2 + 1,
                top: lo + 1,
                bottom: hi - 1,
            };
            assert(label_rec == v_label_rect(a, b, label@.len() as int));
            self.write_label_within_rec(&label_rec, label);
        }
    }

    /// Recomputes the drawn region from scratch by scanning every row and
    /// column: afterwards it is the minimal rectangle containing all
    /// non-blank cells — the authoritative bounding box used before
    /// serialization. An all-blank canvas keeps its boundary.
    pub fn reset_boundary(&mut self)
        requires
            old(self).wf(),
        ensures
            final(self).wf(),
            final(self).spec_width() == old(self).spec_width(),
            final(self).spec_height() == old(self).spec_height(),
            final(self).grid() == old(self).grid(),
            tight_boundary(
                old(self).spec_boundary(),
                final(self).spec_boundary(),
                old(self).grid(),
            ),
    {
        let ghost g = self.grid();
        let height = self.height;
        let width = self.width;
        let mut any = false;
        let mut top: usize = 0;
        let mut bottom: usize = 0;
        let mut i: usize = 0;
        while i < height
            invariant
                self.wf(),
                *self == *old(self),
                self.grid() == g,
                height == self.spec_height(),
                width == self.spec_width(),
                i <= height,
                any <==> exists|r: int| 0 <= r < i && #[trigger] row_nonblank(g, r),
                any ==> top < i && bottom < i && row_nonblank(g, top as int) && row_nonblank(
                    g,
                    bottom as int,
                ),
                any ==> forall|r: int|
                    0 <= r < i && #[trigger] row_nonblank(g, r) ==> top <= r <= bottom,
            decreases height - i,
        {
            let mut empty_line = true;
            let mut j: usize = 0;
            while j < width
                invariant
                    self.wf(),
                    self.grid() == g,
                    height == self.spec_height(),
                    width == self.spec_width(),
                    i < height,
                    j <= width,
                    empty_line <==> (forall|jj: int| 0 <= jj < j ==> g[i as int][jj] == ' '),
                decreases width - j,
            {
                if self.pixel(i, j) != ' ' {
                    empty_line = false;
                }
                j = j + 1;
            }
            if !empty_line {
                assert(row_nonblank(g, i as int));
                if !any {
                    top = i;
                    any = true;
                }
                bottom = i;
            } else {
                assert(!row_nonblank(g, i as int));
            }
            i = i + 1;
        }
        if !any {
            proof {
                assert(!(exists|r: int| 0 <= r < g.len() && #[trigger] row_nonblank(g, r)));
            }
            return ;
        }
        let mut anyc = false;
        let mut left: usize = 0;
        let mut right: usize = 0;
        let mut j: usize = 0;
        while j < width
            invariant
                self.wf(),
                *self == *old(self),
                self.grid() == g,
                height == self.spec_height(),
                width == self.spec_width(),
                j <= width,
                anyc <==> exists|c: int| 0 <= c < j && #[trigger] col_nonblank(g, c),
                anyc ==> left < j && right < j && col_nonblank(g, left as int) && col_nonblank(
                    g,
                    right as int,
                ),
                anyc ==> forall|c: int|
                    0 <= c < j && #[trigger] col_nonblank(g, c) ==> left <= c <= right,
            decreases width - j,
        {
            let mut empty_column = true;
            let mut i2: usize = 0;
            while i2 < height
                invariant
                    self.wf(),
                    self.grid() == g,
                    height == self.spec_height(),
                    width == self.spec_width(),
                    j < width,
                    i2 <= height,
                    empty_column <==> (forall|ii: int| 0 <= ii < i2 ==> g[ii][j as int] == ' '),
                decreases height - i2,
            {
                if self.pixel(i2, j) != ' ' {
                    empty_column = false;
                    proof {
                        assert(g[i2 as int][j as int] != ' ');
                    }
                }
                i2 = i2 + 1;
            }
            if !empty_column {
                assert(col_nonblank(g, j as int));
                if !anyc {
                    left = j;
                    anyc = true;
                }
                right = j;
            } else {
                assert(!col_nonblank(g, j as int));
            }
            j = j + 1;
        }
        proof {
            // Some row holds a non-blank cell, so its column is non-blank too.
            assert(row_nonblank(g, top as int));
            let jw = choose|jj: int| 0 <= jj < g[top as int].len() && g[top as int][jj] != ' ';
            assert(g[top as int][jw] != ' ');
            assert(col_nonblank(g, jw));
            assert(anyc);
        }
        self.boundary = Rectangle { left, right, top, bottom };
        proof {
            assert forall|r: int, c: int|
                0 <= r < self.spec_height() && 0 <= c < self.spec_width() && #[trigger] self.grid(
                )[r][c] != ' ' implies rect_contains(self.spec_boundary(), r, c) by {
                assert(row_nonblank(g, r));
                assert(col_nonblank(g, c));
            }
        }
    }

    /// Serializes the drawn region: one line per row within the boundary
    /// (inclusive), each followed by a newline. An inverted boundary (nothing
    /// drawn yet) serializes to the empty string.
    pub fn to_string(&self) -> (r: String)
        requires
            self.wf(),
        ensures
            r@ == render(self.grid(), self.spec_boundary()),
    {
        let mut out: Vec<char> = Vec::new();
        let top = self.boundary.top;
        let bottom = self.boundary.bottom;
        let left = self.boundary.left;
        let right = self.boundary.right;
        let ghost g = self.grid();
        let ghost b = self.spec_boundary();
        let mut i: usize = top;
        while i <= bottom
            invariant
                self.wf(),
                g == self.grid(),
                b == self.spec_boundary(),
                top == b.top && bottom == b.bottom && left == b.left && right == b.right,
                top <= i <= vstd::math::max(bottom + 1, top as int),
                out@ + render_rows(g, b, i as int) == render(g, b),
            decreases bottom + 1 - i,
        {
            let ghost row_start = out@;
            if left <= right {
                let mut j: usize = left;
                while j <= right
                    invariant
                        self.wf(),
                        g == self.grid(),
                        b == self.spec_boundary(),
                        top == b.top && bottom == b.bottom && left == b.left && right == b.right,
                        i <= bottom,
                        left <= j <= right + 1,
                        out@ == row_start + g[i as int].subrange(left as int, j as int),
                    decreases right + 1 - j,
                {
                    let c = self.pixel(i, j);
                    out.push(c);
                    proof {
                        assert(g[i as int].subrange(left as int, j + 1) =~= g[i as int].subrange(
                            left as int,
                            j as int,
                        ).push(g[i as int][j as int]));
                        assert(out@ =~= row_start + g[i as int].subrange(left as int, j + 1));
                    }
                    j = j + 1;
                }
            }
            out.push('\n');
            proof {
                assert(out@ =~= row_start + row_slice(g, b, i as int) + seq!['\n']);
                assert(render_rows(g, b, i as int) == row_slice(g, b, i as int) + seq!['\n']
                    + render_rows(g, b, i + 1));
                assert(out@ + render_rows(g, b, i + 1) =~= row_start + render_rows(
                    g,
                    b,
                    i as int,
                ));
            }
            i = i + 1;
        }
        proof {
            assert(render_rows(g, b, i as int) =~= Seq::<char>::empty());
            assert(out@ =~= render(g, b));
        }
        crate::text::string_from_chars(&out)
    }

    /// Restores the canvas to its freshly created state: all cells blank and
    /// the drawn region inverted.
    pub fn clear(&mut self)
        requires
            old(self).wf(),
        ensures
            final(self).wf(),
            final(self).spec_width() == old(self).spec_width(),
            final(self).spec_height() == old(self).spec_height(),
            final(self).grid() == blank_grid(old(self).spec_width(), old(self).spec_height()),
            final(self).spec_boundary() == (Rectangle {
                left: (old(self).spec_width() - 1) as usize,
                right: 0usize,
                top: (old(self).spec_height() - 1) as usize,
                bottom: 0usize,
            }),
    {
        let fresh = Canvas::new(self.width, self.height);
        *self = fresh;
    }
}

/// Writing a label into a rectangle touches only the rectangle's interior:
/// every cell outside it keeps its value, and the grid's shape is kept.
pub proof fn lemma_label_grid_frame(
    g: Seq<Seq<char>>,
    rec: Rectangle,
    label: Seq<char>,
    k: int,
    i: int,
    j: int,
    fresh_row: bool,
)
    requires
        rec.top < i,
        rec.left < j,
        rec.bottom <= g.len(),
        forall|r: int| 0 <= r < g.len() ==> (#[trigger] g[r]).len() >= rec.right,
    ensures
        label_grid(g, rec, label, k, i, j, fresh_row).len() == g.len(),
        forall|r: int|
            0 <= r < g.len() ==> (#[trigger] label_grid(g, rec, label, k, i, j, fresh_row)[
                r
            ]).len() == g[r].len(),
        forall|r: int, c: int|
            0 <= r < g.len() && 0 <= c < g[r].len() && !(rec.top < r < rec.bottom && rec.left < c
                < rec.right) ==> label_grid(g, rec, label, k, i, j, fresh_row)[r][c] == g[r][c],
    decreases rec.bottom - i, label.len() - k,
{
    if i >= rec.bottom || k >= label.len() || k < 0 {
    } else if j >= rec.right {
        lemma_label_grid_frame(g, rec, label, k, i + 1, rec.left + 1, true);
    } else if fresh_row && label[k] == ' ' {
        lemma_label_grid_frame(g, rec, label, k + 1, i, j, false);
    } else {
        let g1 = grid_set(g, i, j, label[k]);
        assert(0 <= i < g.len());
        assert(0 <= j < g[i].len());
        assert(g1.len() == g.len());
        assert forall|r: int| 0 <= r < g1.len() implies (#[trigger] g1[r]).len() >= rec.right by {
            if r == i {
                assert(g1[r] == g[i].update(j, label[k]));
            } else {
                assert(g1[r] == g[r]);
            }
        }
        lemma_label_grid_frame(g1, rec, label, k + 1, i, j + 1, false);
        assert forall|r: int, c: int|
            0 <= r < g.len() && 0 <= c < g[r].len() && !(rec.top < r < rec.bottom && rec.left < c
                < rec.right) implies label_grid(g, rec, label, k, i, j, fresh_row)[r][c] == g[r][
            c
        ] by {
            assert(g1[r].len() == g[r].len());
            assert(label_grid(g, rec, label, k, i, j, fresh_row) == label_grid(
                g1,
                rec,
                label,
                k + 1,
                i,
                j + 1,
                false,
            ));
            assert(label_grid(g1, rec, label, k + 1, i, j + 1, false)[r][c] == g1[r][c]);
            if r == i {
                assert(g1[r] == g[i].update(j, label[k]));
                assert(c != j);
                assert(g1[r][c] == g[r][c]);
            } else {
                assert(g1[r] == g[r]);
            }
        }
    }
}

} // verus!


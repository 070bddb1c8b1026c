//! The diagram painter: places one labeled rectangle per component along a
//! horizontal axis, renders the call edges top-to-bottom as arrows or
//! self-call loops, and closes with vertical lifecycle lines.

use vstd::prelude::*;

verus! {

use crate::callgraph::CallGraph;
use crate::callgraph::FunctionCall;
use crate::callgraph::ParseState;
use crate::callgraph::parse;
use crate::canvas::Canvas;
use crate::canvas::Rectangle;
use crate::canvas::arrow_char;
use crate::canvas::grid_set;
use crate::canvas::labelled_interior_grid;
use crate::canvas::labelled_line_fits;
use crate::canvas::line_grid;
use crate::canvas::line_with_label_grid;
use crate::canvas::rect_covers;
use crate::canvas::rectangle_grid;

/// Vertical margin left above every call arrow and below the last one.
pub const EXTRA_VERTICAL_MARGIN: usize = 2;

/// Horizontal extent of the loop drawn for a self-call.
pub const DEFAULT_SELF_CALL_WIDTH: usize = 5;

/// Widest rectangle a component may get; longer names wrap onto more rows.
pub const MAX_COMPONENT_WIDTH: usize = 20;

/// Horizontal gap kept between neighbouring component rectangles.
pub const HORIZONTAL_GAP: usize = 5;

/// The rectangle of one component, given the right edge of the rectangle
/// placed before it (zero for the first) and the component's name length:
/// a fixed top margin, a width of at most `MAX_COMPONENT_WIDTH`, and one
/// more row for every `MAX_COMPONENT_WIDTH` characters of the name.
pub open spec fn placed_rect(prev_right: int, name_len: int) -> Rectangle {
    Rectangle {
        left: (HORIZONTAL_GAP + prev_right) as usize,
        right: (vstd::math::min(MAX_COMPONENT_WIDTH as int, name_len + 1) + HORIZONTAL_GAP
            + prev_right) as usize,
        top: 1usize,
        bottom: ((name_len - 1) / (MAX_COMPONENT_WIDTH as int) + 3) as usize,
    }
}

/// The rectangles of all components, placed left to right.
pub open spec fn placed_rects(names: Seq<Seq<char>>) -> Seq<Rectangle>
    decreases names.len(),
{
    if names.len() == 0 {
        Seq::empty()
    } else {
        let prev = placed_rects(names.drop_last());
        let prev_right: int = if prev.len() == 0 {
            0
        } else {
            prev.last().right as int
        };
        prev.push(placed_rect(prev_right, names.last().len() as int))
    }
}

/// The width a component's rectangle gets from its name length.
pub open spec fn rect_width_of(name_len: int) -> int {
    vstd::math::min(MAX_COMPONENT_WIDTH as int, name_len + 1)
}

/// The right edge of the last placed rectangle, as an unbounded integer
/// (zero when nothing is placed): each rectangle adds one gap plus its width.
pub open spec fn placed_right_int(names: Seq<Seq<char>>) -> int
    decreases names.len(),
{
    if names.len() == 0 {
        0
    } else {
        placed_right_int(names.drop_last()) + HORIZONTAL_GAP + rect_width_of(
            names.last().len() as int,
        )
    }
}

/// Every placed rectangle stays on a `width x height` grid: each right edge
/// (computed without truncation) is left of `width` and each bottom edge is
/// above `height`.
pub open spec fn placement_fits(names: Seq<Seq<char>>, width: int, height: int) -> bool {
    forall|i: int|
        0 <= i < names.len() ==> placed_right_int(#[trigger] names.take(i + 1)) < width && (
        names[i].len() - 1) / (MAX_COMPONENT_WIDTH as int) + 3 < height
}

/// The horizontal center column of a rectangle.
pub open spec fn center_of(r: Rectangle) -> int {
    (r.left + r.right) as int / 2
}

/// The rectangle recorded for `name`, or the degenerate zero rectangle when
/// `name` is not a placed component (the caller of a top-level call).
pub open spec fn rect_of(names: Seq<Seq<char>>, rects: Seq<Rectangle>, name: Seq<char>) -> Rectangle {
    if exists|i: int| 0 <= i < names.len() && names[i] == name {
        rects[choose|i: int| 0 <= i < names.len() && names[i] == name]
    } else {
        Rectangle { left: 0usize, right: 0usize, top: 0usize, bottom: 0usize }
    }
}

/// The lowest bottom edge among the placed rectangles: the starting value of
/// the vertical cursor for the call-edge pass.
pub open spec fn max_bottom(rects: Seq<Rectangle>) -> int
    decreases rects.len(),
{
    if rects.len() == 0 {
        0
    } else {
        vstd::math::max(max_bottom(rects.drop_last()), rects.last().bottom as int)
    }
}

/// The callee-side arrow column of a cross-component call: the callee's
/// center, nudged one cell toward the caller so the arrowhead stays clear of
/// the callee's lifeline.
pub open spec fn cross_called_col(calling_center: int, called_center: int) -> int {
    if calling_center < called_center {
        called_center - 1
    } else {
        called_center + 1
    }
}

/// The number of label rows a cross-component call needs.
pub open spec fn cross_label_height(
    names: Seq<Seq<char>>,
    rects: Seq<Rectangle>,
    e: (Seq<char>, Seq<char>, Seq<char>),
) -> int {
    let calling = center_of(rect_of(names, rects, e.0));
    let called = cross_called_col(calling, center_of(rect_of(names, rects, e.1)));
    (e.2.len() - 1) / (vstd::math::max(called, calling) - vstd::math::min(called, calling) - 1) + 1
}

/// The row on which a cross-component call is drawn, starting from cursor
/// `bb`: one margin plus the label's rows further down.
pub open spec fn cross_call_row(
    names: Seq<Seq<char>>,
    rects: Seq<Rectangle>,
    e: (Seq<char>, Seq<char>, Seq<char>),
    bb: int,
) -> int {
    bb + EXTRA_VERTICAL_MARGIN + cross_label_height(names, rects, e)
}

/// The grid after drawing one cross-component call at cursor `bb`.
pub open spec fn cross_call_grid(
    g: Seq<Seq<char>>,
    names: Seq<Seq<char>>,
    rects: Seq<Rectangle>,
    e: (Seq<char>, Seq<char>, Seq<char>),
    bb: int,
) -> Seq<Seq<char>> {
    let calling = center_of(rect_of(names, rects, e.0));
    let called = cross_called_col(calling, center_of(rect_of(names, rects, e.1)));
    let row = cross_call_row(names, rects, e, bb);
    line_with_label_grid(g, (row as usize, calling as usize), (row as usize, called as usize), e.2, true)
}

/// The number of label rows a self-call loop needs.
pub open spec fn self_label_height(e: (Seq<char>, Seq<char>, Seq<char>)) -> int {
    (e.2.len() - 1) / (DEFAULT_SELF_CALL_WIDTH as int) + 1
}

/// The cursor after drawing one self-call loop from cursor `bb`.
pub open spec fn self_call_row(e: (Seq<char>, Seq<char>, Seq<char>), bb: int) -> int {
    bb + EXTRA_VERTICAL_MARGIN + self_label_height(e) + 2
}

/// The grid after drawing one self-call loop at cursor `bb`: a rightward
/// stub, a corner, a vertical labeled segment, the closing arrowed line back
/// into the lifeline, and the second corner.
pub open spec fn self_call_grid(
    g: Seq<Seq<char>>,
    names: Seq<Seq<char>>,
    rects: Seq<Rectangle>,
    e: (Seq<char>, Seq<char>, Seq<char>),
    bb: int,
) -> Seq<Seq<char>> {
    let c = center_of(rect_of(names, rects, e.1));
    let top = bb + EXTRA_VERTICAL_MARGIN;
    let lh = self_label_height(e);
    let bot = top + lh + 2;
    let right_col = c + DEFAULT_SELF_CALL_WIDTH;
    let g1 = line_grid(g, (top as usize, c as usize), (top as usize, right_col as usize), true);
    let g2 = grid_set(g1, top, right_col, '┐');
    let g3 = line_with_label_grid(
        g2,
        (top as usize, right_col as usize),
        (bot as usize, right_col as usize),
        e.2,
        false,
    );
    let g4 = grid_set(
        line_grid(g3, (bot as usize, right_col as usize), (bot as usize, (c + 1) as usize), true),
        bot,
        c + 1,
        arrow_char((bot as usize, right_col as usize), (bot as usize, (c + 1) as usize)),
    );
    grid_set(g4, bot, right_col, '┘')
}

/// One call edge drawn at cursor `bb`: the new grid and the new cursor.
pub open spec fn edge_step(
    g: Seq<Seq<char>>,
    names: Seq<Seq<char>>,
    rects: Seq<Rectangle>,
    e: (Seq<char>, Seq<char>, Seq<char>),
    bb: int,
) -> (Seq<Seq<char>>, int) {
    if e.0 != e.1 {
        (cross_call_grid(g, names, rects, e, bb), cross_call_row(names, rects, e, bb))
    } else {
        (self_call_grid(g, names, rects, e, bb), self_call_row(e, bb))
    }
}

/// The call-edge pass: all edges drawn in order, threading the cursor.
pub open spec fn edges_pass(
    g: Seq<Seq<char>>,
    names: Seq<Seq<char>>,
    rects: Seq<Rectangle>,
    edges: Seq<(Seq<char>, Seq<char>, Seq<char>)>,
    bb: int,
) -> (Seq<Seq<char>>, int)
    decreases edges.len(),
{
    if edges.len() == 0 {
        (g, bb)
    } else {
        let prev = edges_pass(g, names, rects, edges.drop_last(), bb);
        edge_step(prev.0, names, rects, edges.last(), prev.1)
    }
}

/// The preconditions for drawing one edge at cursor `bb`: the labeled line
/// (or loop) stays on the grid. For a self-call the loop's vertical segment
/// must leave room for the label-wrapping division, which asks for a
/// function name of at least six characters.
pub open spec fn edge_fits(
    names: Seq<Seq<char>>,
    rects: Seq<Rectangle>,
    e: (Seq<char>, Seq<char>, Seq<char>),
    bb: int,
    width: int,
    height: int,
) -> bool {
    if e.0 != e.1 {
        let calling = center_of(rect_of(names, rects, e.0));
        let called = cross_called_col(calling, center_of(rect_of(names, rects, e.1)));
        let row = cross_call_row(names, rects, e, bb);
        &&& 0 <= calling < width
        &&& 0 <= called < width
        &&& 0 <= row < height
        &&& labelled_line_fits(
            (row as usize, calling as usize),
            (row as usize, called as usize),
            e.2.len() as int,
            width,
            height,
        )
    } else {
        let c = center_of(rect_of(names, rects, e.1));
        let top = bb + EXTRA_VERTICAL_MARGIN;
        let bot = top + self_label_height(e) + 2;
        let right_col = c + DEFAULT_SELF_CALL_WIDTH;
        &&& 0 <= c
        &&& c + 1 < width
        &&& right_col < width
        &&& 0 <= top
        &&& bot < height
        &&& labelled_line_fits(
            (top as usize, right_col as usize),
            (bot as usize, right_col as usize),
            e.2.len() as int,
            width,
            height,
        )
    }
}

/// Every edge, drawn in order from cursor `bb`, stays on the grid.
pub open spec fn edges_fit(
    names: Seq<Seq<char>>,
    rects: Seq<Rectangle>,
    edges: Seq<(Seq<char>, Seq<char>, Seq<char>)>,
    bb: int,
    width: int,
    height: int,
) -> bool
    decreases edges.len(),
{
    if edges.len() == 0 {
        true
    } else {
        edge_fits(names, rects, edges[0], bb, width, height) && edges_fit(
            names,
            rects,
            edges.drop_first(),
            edge_step(Seq::empty(), names, rects, edges[0], bb).1,
            width,
            height,
        )
    }
}

/// The lifecycle pass: from each rectangle's bottom edge, a non-overwriting
/// vertical line down to `bottom`, centered under the rectangle.
pub open spec fn lifecycle_grid(g: Seq<Seq<char>>, rects: Seq<Rectangle>, bottom: int) -> Seq<
    Seq<char>,
>
    decreases rects.len(),
{
    if rects.len() == 0 {
        g
    } else {
        let r = rects.last();
        line_grid(
            lifecycle_grid(g, rects.drop_last(), bottom),
            (r.bottom, center_of(r) as usize),
            (bottom as usize, center_of(r) as usize),
            false,
        )
    }
}

/// The component-placement pass: each component's labeled rectangle, left
/// to right.
pub open spec fn components_grid(g: Seq<Seq<char>>, names: Seq<Seq<char>>) -> Seq<Seq<char>>
    decreases names.len(),
{
    if names.len() == 0 {
        g
    } else {
        let prev_g = components_grid(g, names.drop_last());
        let r = placed_rects(names).last();
        labelled_interior_grid(rectangle_grid(prev_g, r), r, names.last())
    }
}

/// The whole diagram: component rectangles, then call edges from the lowest
/// rectangle edge downward, then lifecycle lines to one margin below the
/// last edge.
pub open spec fn diagram_grid(g: Seq<Seq<char>>, st: ParseState) -> Seq<Seq<char>> {
    let names = st.order;
    let rects = placed_rects(names);
    let g1 = components_grid(g, names);
    let pass2 = edges_pass(g1, names, rects, st.edges, max_bottom(rects));
    lifecycle_grid(pass2.0, rects, pass2.1 + EXTRA_VERTICAL_MARGIN)
}

/// The geometric preconditions of a whole diagram on a `width x height`
/// canvas: the rectangles, every call edge, and the lifecycle lines stay on
/// the grid.
pub open spec fn diagram_fits(st: ParseState, width: int, height: int) -> bool {
    let names = st.order;
    let rects = placed_rects(names);
    &&& placement_fits(names, width, height)
    &&& edges_fit(names, rects, st.edges, max_bottom(rects), width, height)
    &&& (names.len() > 0 ==> edges_pass(
        Seq::empty(),
        names,
        rects,
        st.edges,
        max_bottom(rects),
    ).1 + EXTRA_VERTICAL_MARGIN < height)
}

/// Under `placement_fits` the placed rectangles are exactly characterized:
/// fixed top, widths from the name lengths, left edges one gap past the
/// previous right edge, and all edges on the grid.
pub proof fn lemma_placed_rects(names: Seq<Seq<char>>, width: int, height: int)
    requires
        forall|i: int| 0 <= i < names.len() ==> (#[trigger] names[i]).len() > 0,
        placement_fits(names, width, height),
        width <= usize::MAX,
        height <= usize::MAX,
    ensures
        placed_rects(names).len() == names.len(),
        forall|i: int|
            0 <= i < names.len() ==> {
                let r = #[trigger] placed_rects(names)[i];
                &&& r.right as int == placed_right_int(names.take(i + 1))
                &&& r.left as int == placed_right_int(names.take(i + 1)) - rect_width_of(
                    names[i].len() as int,
                )
                &&& r.left as int == (if i == 0 {
                    HORIZONTAL_GAP as int
                } else {
                    placed_rects(names)[i - 1].right + HORIZONTAL_GAP as int
                })
                &&& r.left + 2 <= r.right
                &&& r.right <= r.left + MAX_COMPONENT_WIDTH
                &&& r.top == 1
                &&& 3 <= r.bottom
                &&& r.bottom as int == (names[i].len() - 1) / (MAX_COMPONENT_WIDTH as int) + 3
                &&& r.right < width
                &&& r.bottom < height
                &&& 5 <= r.left
            },
    decreases names.len(),
{
    if names.len() > 0 {
        let prev = names.drop_last();
        assert(forall|i: int| 0 <= i < prev.len() ==> prev[i] == #[trigger] names[i]);
        assert forall|i: int| 0 <= i < prev.len() implies placed_right_int(
            #[trigger] prev.take(i + 1),
        ) < width && (prev[i].len() - 1) / (MAX_COMPONENT_WIDTH as int) + 3 < height by {
            assert(prev.take(i + 1) =~= names.take(i + 1));
        }
        lemma_placed_rects(prev, width, height);
        let k = names.len() - 1;
        assert(names.take(k + 1) =~= names);
        assert(placed_right_int(names) == placed_right_int(prev) + HORIZONTAL_GAP as int
            + rect_width_of(names[k].len() as int));
        assert(placed_right_int(prev) >= 0) by {
            lemma_placed_right_nonneg(prev);
        }
        if k > 0 {
            assert(prev.take(k as int) =~= prev);
            assert(placed_rects(names)[k - 1] == placed_rects(prev)[k - 1]);
        }
        assert forall|i: int| 0 <= i < names.len() implies {
            let r = #[trigger] placed_rects(names)[i];
            &&& r.right as int == placed_right_int(names.take(i + 1))
            &&& r.left as int == placed_right_int(names.take(i + 1)) - rect_width_of(
                names[i].len() as int,
            )
            &&& r.left as int == (if i == 0 {
                HORIZONTAL_GAP as int
            } else {
                placed_rects(names)[i - 1].right + HORIZONTAL_GAP as int
            })
            &&& r.left + 2 <= r.right
            &&& r.right <= r.left + MAX_COMPONENT_WIDTH
            &&& r.top == 1
            &&& 3 <= r.bottom
            &&& r.bottom as int == (names[i].len() - 1) / (MAX_COMPONENT_WIDTH as int) + 3
            &&& r.right < width
            &&& r.bottom < height
            &&& 5 <= r.left
        } by {
            if i < k {
                assert(prev.take(i + 1) =~= names.take(i + 1));
                assert(placed_rects(names)[i] == placed_rects(prev)[i]);
                if i > 0 {
                    assert(placed_rects(names)[i - 1] == placed_rects(prev)[i - 1]);
                }
            } else {
                assert(placed_rects(names)[k] == placed_rect(
                    if k == 0 {
                        0int
                    } else {
                        placed_rects(prev).last().right as int
                    },
                    names[k].len() as int,
                ));
                assert(names[k].len() >= 1);
                assert(1 <= rect_width_of(names[k].len() as int) - 1);
                assert((names[k].len() - 1) / (MAX_COMPONENT_WIDTH as int) >= 0);
                assert((names[k].len() - 1) / (MAX_COMPONENT_WIDTH as int) + 3 < height);
            }
        }
    }
}

proof fn lemma_placed_right_nonneg(names: Seq<Seq<char>>)
    ensures
        placed_right_int(names) >= 0,
    decreases names.len(),
{
    if names.len() > 0 {
        lemma_placed_right_nonneg(names.drop_last());
    }
}

/// Non-overlap: rectangles placed earlier end strictly left of rectangles
/// placed later, with the fixed gap between them — no two component
/// rectangles share a column, and their center columns are at least a gap
/// apart.
pub proof fn lemma_placement_non_overlap(names: Seq<Seq<char>>, width: int, height: int)
    requires
        forall|i: int| 0 <= i < names.len() ==> (#[trigger] names[i]).len() > 0,
        placement_fits(names, width, height),
        width <= usize::MAX,
        height <= usize::MAX,
    ensures
        forall|i: int, j: int|
            0 <= i < j < names.len() ==> (#[trigger] placed_rects(names)[i]).right
                + HORIZONTAL_GAP <= (#[trigger] placed_rects(names)[j]).left,
        forall|i: int, j: int|
            0 <= i < j < names.len() ==> center_of(#[trigger] placed_rects(names)[i])
                + HORIZONTAL_GAP <= center_of(#[trigger] placed_rects(names)[j]),
        forall|i: int|
            0 <= i < names.len() ==> 6 <= center_of(#[trigger] placed_rects(names)[i])
                && center_of(placed_rects(names)[i]) < width,
{
    lemma_placed_rects(names, width, height);
    let rects = placed_rects(names);
    assert forall|i: int, j: int| 0 <= i < j < names.len() implies (#[trigger] rects[i]).right
        + HORIZONTAL_GAP <= (#[trigger] rects[j]).left by {
        lemma_rights_monotone(names, width, height, i, j);
    }
    assert forall|i: int| 0 <= i < names.len() implies 6 <= center_of(#[trigger] rects[i])
        && center_of(rects[i]) < width by {
        assert(rects[i].left >= 5 && rects[i].right >= rects[i].left + 2);
        assert(center_of(rects[i]) >= (5 + 7) / 2);
        assert(center_of(rects[i]) <= rects[i].right);
    }
    assert forall|i: int, j: int| 0 <= i < j < names.len() implies center_of(#[trigger] rects[i])
        + HORIZONTAL_GAP <= center_of(#[trigger] rects[j]) by {
        lemma_rights_monotone(names, width, height, i, j);
        assert(center_of(rects[i]) <= rects[i].right);
        assert(center_of(rects[j]) >= rects[j].left);
    }
}

proof fn lemma_rights_monotone(names: Seq<Seq<char>>, width: int, height: int, i: int, j: int)
    requires
        forall|k: int| 0 <= k < names.len() ==> (#[trigger] names[k]).len() > 0,
        placement_fits(names, width, height),
        width <= usize::MAX,
        height <= usize::MAX,
        0 <= i < j < names.len(),
    ensures
        placed_rects(names)[i].right + HORIZONTAL_GAP <= placed_rects(names)[j].left,
    decreases j - i,
{
    lemma_placed_rects(names, width, height);
    if j == i + 1 {
        assert(placed_rects(names)[j].left as int == placed_rects(names)[i].right
            + HORIZONTAL_GAP as int);
    } else {
        lemma_rights_monotone(names, width, height, i, j - 1);
        assert(placed_rects(names)[j].left as int == placed_rects(names)[j - 1].right
            + HORIZONTAL_GAP as int);
        assert(placed_rects(names)[j - 1].left + 2 <= placed_rects(names)[j - 1].right);
    }
}

/// The rectangles placed for a prefix of the components are the prefix of
/// the rectangles placed for all of them.
proof fn lemma_placed_rects_len(names: Seq<Seq<char>>)
    ensures
        placed_rects(names).len() == names.len(),
    decreases names.len(),
{
    if names.len() > 0 {
        lemma_placed_rects_len(names.drop_last());
    }
}

pub proof fn lemma_placed_rects_prefix(names: Seq<Seq<char>>, k: int)
    requires
        0 <= k <= names.len(),
    ensures
        placed_rects(names.take(k)) =~= placed_rects(names).take(k),
    decreases names.len(),
{
    lemma_placed_rects_len(names);
    if names.len() > 0 {
        lemma_placed_rects_len(names.drop_last());
        if k == names.len() {
            assert(names.take(k) =~= names);
            assert(placed_rects(names).take(k) =~= placed_rects(names));
        } else {
            lemma_placed_rects_prefix(names.drop_last(), k);
            assert(names.drop_last().take(k) =~= names.take(k));
            assert(placed_rects(names).take(k) =~= placed_rects(names.drop_last()).take(k));
        }
    } else {
        assert(names.take(k) =~= names);
    }
}

/// Lays out and draws sequence diagrams; holds the component-placement map
/// built by the first pass of `draw`.
pub struct Painter {
    components: Vec<(String, Rectangle)>,
}

impl Painter {
    /// The placement map: each component name with its rectangle.
    pub closed spec fn placement(&self) -> Seq<(Seq<char>, Rectangle)> {
        self.components@.map_values(|e: (String, Rectangle)| (e.0@, e.1))
    }

    /// A fresh painter with an empty placement map.
    pub fn new() -> (r: Painter)
        ensures
            r.placement() == Seq::<(Seq<char>, Rectangle)>::empty(),
    {
        let r = Painter { components: Vec::new() };
        proof {
            assert(r.placement() =~= Seq::<(Seq<char>, Rectangle)>::empty());
        }
        r
    }
}

/// The rectangle recorded under `name` in a placement map, when present.
pub open spec fn spec_lookup(pv: Seq<(Seq<char>, Rectangle)>, name: Seq<char>) -> Option<
    Rectangle,
> {
    if exists|i: int| 0 <= i < pv.len() && (#[trigger] pv[i]).0 == name {
        Some(pv[choose|i: int| 0 <= i < pv.len() && (#[trigger] pv[i]).0 == name].1)
    } else {
        None
    }
}

/// The keys of a placement map are pairwise distinct.
pub open spec fn placement_keys_unique(pv: Seq<(Seq<char>, Rectangle)>) -> bool {
    forall|i: int, j: int|
        0 <= i < j < pv.len() ==> (#[trigger] pv[i]).0 != (#[trigger] pv[j]).0
}

impl Painter {
    /// Finds the rectangle placed for `name`, if any.
    fn lookup_rect(&self, name: &String) -> (r: Option<Rectangle>)
        requires
            placement_keys_unique(self.placement()),
        ensures
            r == spec_lookup(self.placement(), name@),
    {
        let n = self.components.len();
        let mut i: usize = 0;
        while i < n
            invariant
                placement_keys_unique(self.placement()),
                n == self.components@.len(),
                i <= n,
                forall|k: int| 0 <= k < i ==> (#[trigger] self.placement()[k]).0 != name@,
            decreases n - i,
        {
            proof {
                assert(self.placement()[i as int] == (self.components@[i as int].0@,
                    self.components@[i as int].1));
            }
            if self.components[i].0 == *name {
                proof {
                    let w = choose|w: int|
                        0 <= w < self.placement().len() && (#[trigger] self.placement()[w]).0
                            == name@;
                    if w != i as int {
                        assert(self.placement()[w].0 != self.placement()[i as int].0);
                    }
                }
                return Some(self.components[i].1);
            }
            i = i + 1;
        }
        proof {
            if exists|w: int|
                0 <= w < self.placement().len() && (#[trigger] self.placement()[w]).0 == name@ {
                let w = choose|w: int|
                    0 <= w < self.placement().len() && (#[trigger] self.placement()[w]).0
                        == name@;
                assert(self.placement()[w].0 != name@);
            }
        }
        None
    }

    /// Pass one: walks the ordered component list and draws each component's
    /// labeled rectangle left to right, recording every placement.
    fn draw_components(&mut self, canvas: &mut Canvas, callgraph: &CallGraph)
        requires
            old(self).placement() == Seq::<(Seq<char>, Rectangle)>::empty(),
            old(canvas).wf(),
            forall|i: int|
                0 <= i < callgraph.order_view().len() ==> (#[trigger] callgraph.order_view()[
                    i
                ]).len() > 0,
            placement_fits(
                callgraph.order_view(),
                old(canvas).spec_width(),
                old(canvas).spec_height(),
            ),
        ensures
            final(canvas).wf(),
            final(canvas).spec_width() == old(canvas).spec_width(),
            final(canvas).spec_height() == old(canvas).spec_height(),
            final(canvas).grid() == components_grid(old(canvas).grid(), callgraph.order_view()),
            rect_covers(final(canvas).spec_boundary(), old(canvas).spec_boundary()),
            is_placement(final(self).placement(), callgraph.order_view()),
            callgraph.order_view().len() == 0 ==> final(canvas).spec_boundary() == old(
                canvas,
            ).spec_boundary(),
    {
        let ghost names = callgraph.order_view();
        let ghost w = old(canvas).spec_width();
        let ghost h = old(canvas).spec_height();
        proof {
            lemma_placed_rects(names, w, h);
            lemma_placed_rects_len(names);
            assert(names.take(0) =~= Seq::<Seq<char>>::empty());
            assert(placed_rects(names.take(0)) =~= Seq::<Rectangle>::empty());
        }
        proof {
            assert(old(self).placement().len() == 0);
            assert(self.components@.len() == 0);
        }
        let mut right_boundary: usize = 0;
        let n = callgraph.components_in_order.len();
        let mut idx: usize = 0;
        while idx < n
            invariant
                names == callgraph.order_view(),
                n == names.len(),
                idx <= n,
                canvas.wf(),
                canvas.spec_width() == w,
                canvas.spec_height() == h,
                rect_covers(canvas.spec_boundary(), old(canvas).spec_boundary()),
                names.len() == 0 ==> canvas.spec_boundary() == old(canvas).spec_boundary(),
                forall|i: int| 0 <= i < names.len() ==> (#[trigger] names[i]).len() > 0,
                placement_fits(names, w, h),
                canvas.grid() == components_grid(old(canvas).grid(), names.take(idx as int)),
                is_placement(self.placement(), names.take(idx as int)),
                self.components@.len() == idx,
                right_boundary as int == placed_right_int(names.take(idx as int)),
            decreases n - idx,
        {
            proof {
                lemma_placed_rects(names, w, h);
                lemma_placed_rects_len(names);
                assert(names[idx as int] == callgraph.components_in_order@[idx as int]@);
                assert(names.take(idx as int + 1) =~= names.take(idx as int).push(
                    names[idx as int],
                ));
                assert(names.take(idx as int + 1).drop_last() =~= names.take(idx as int));
                assert(placed_rects(names)[idx as int].right as int == placed_right_int(
                    names.take(idx as int + 1),
                ));
            }
            let component: &String = &callgraph.components_in_order[idx];
            let clen = component.as_str().unicode_len();
            let rec_width = if clen >= MAX_COMPONENT_WIDTH {
                MAX_COMPONENT_WIDTH
            } else {
                clen + 1
            };
            let rec = Rectangle {
                left: HORIZONTAL_GAP + right_boundary,
                right: rec_width + HORIZONTAL_GAP + right_boundary,
                top: 1,
                bottom: (clen - 1) / MAX_COMPONENT_WIDTH + 3,
            };
            proof {
                assert(rec_width as int == rect_width_of(names[idx as int].len() as int));
                assert(placed_right_int(names.take(idx as int + 1)) == placed_right_int(
                    names.take(idx as int),
                ) + HORIZONTAL_GAP + rect_width_of(names[idx as int].len() as int));
                assert(rec == placed_rects(names)[idx as int]);
                lemma_placed_rects_prefix(names, idx as int + 1);
                assert(placed_rects(names.take(idx as int + 1)).last() == placed_rects(
                    names,
                )[idx as int]);
            }
            canvas.draw_rectangle_with_label(&rec, component.as_str());
            right_boundary = rec.right;
            let ghost pv0 = self.placement();
            self.components.push((component.clone(), rec));
            proof {
                assert(canvas.grid() == components_grid(
                    old(canvas).grid(),
                    names.take(idx as int + 1),
                ));
                assert(self.placement() =~= pv0.push((component@, rec)));
                assert forall|i: int| 0 <= i < idx as int + 1 implies #[trigger] self.placement()[
                    i
                ] == (names.take(idx as int + 1)[i], placed_rects(names.take(idx as int + 1))[
                    i
                ]) by {
                    lemma_placed_rects_prefix(names, idx as int + 1);
                    lemma_placed_rects_prefix(names, idx as int);
                    if i < idx as int {
                        assert(self.placement()[i] == pv0[i]);
                        assert(pv0[i] == (names.take(idx as int)[i], placed_rects(
                            names.take(idx as int),
                        )[i]));
                    } else {
                        assert(self.placement()[i] == (component@, rec));
                    }
                }
                assert(is_placement(self.placement(), names.take(idx as int + 1)));
            }
            idx = idx + 1;
        }
        proof {
            assert(names.take(n as int) =~= names);
        }
    }
}

proof fn lemma_lookup_matches(pv: Seq<(Seq<char>, Rectangle)>, names: Seq<Seq<char>>, nm: Seq<char>)
    requires
        is_placement(pv, names),
        forall|i: int, j: int|
            0 <= i < j < names.len() ==> (#[trigger] names[i]) != (#[trigger] names[j]),
    ensures
        names.contains(nm) ==> spec_lookup(pv, nm) == Some(
            rect_of(names, placed_rects(names), nm),
        ),
        !names.contains(nm) ==> spec_lookup(pv, nm) == None::<Rectangle> && rect_of(
            names,
            placed_rects(names),
            nm,
        ) == (Rectangle { left: 0usize, right: 0usize, top: 0usize, bottom: 0usize }),
{
    if names.contains(nm) {
        let i = choose|i: int| 0 <= i < names.len() && names[i] == nm;
        assert(pv[i] == (names[i], placed_rects(names)[i]));
        assert(pv[i].0 == nm);
        assert(exists|k: int| 0 <= k < pv.len() && (#[trigger] pv[k]).0 == nm);
        let j = choose|k: int| 0 <= k < pv.len() && (#[trigger] pv[k]).0 == nm;
        assert(pv[j] == (names[j], placed_rects(names)[j]));
        if i != j {
            assert(names[i] != names[j]);
        }
        let k2 = choose|k: int| 0 <= k < names.len() && names[k] == nm;
        if k2 != i {
            assert(names[k2] != names[i]);
        }
        assert(spec_lookup(pv, nm) == Some(placed_rects(names)[i]));
        assert(rect_of(names, placed_rects(names), nm) == placed_rects(names)[i]);
    } else {
        if exists|k: int| 0 <= k < pv.len() && (#[trigger] pv[k]).0 == nm {
            let j = choose|k: int| 0 <= k < pv.len() && (#[trigger] pv[k]).0 == nm;
            assert(pv[j] == (names[j], placed_rects(names)[j]));
            assert(names.contains(names[j]));
        }
        if exists|i: int| 0 <= i < names.len() && names[i] == nm {
            let i = choose|i: int| 0 <= i < names.len() && names[i] == nm;
            assert(names.contains(names[i]));
        }
    }
}

impl Painter {
    /// Draws one cross-component call at cursor `bottom_boundary`: an arrowed
    /// horizontal line from the caller's center column (the left grid edge
    /// for an external caller) to just beside the callee's center, with the
    /// function name centered above it; returns the line's row, the new
    /// cursor.
    fn draw_cross_component_call(
        &self,
        canvas: &mut Canvas,
        f: &FunctionCall,
        bottom_boundary: usize,
        Ghost(names): Ghost<Seq<Seq<char>>>,
    ) -> (r: usize)
        requires
            old(canvas).wf(),
            is_placement(self.placement(), names),
            forall|i: int, j: int|
                0 <= i < j < names.len() ==> (#[trigger] names[i]) != (#[trigger] names[j]),
            forall|i: int| 0 <= i < names.len() ==> (#[trigger] names[i]).len() > 0,
            placement_fits(names, old(canvas).spec_width(), old(canvas).spec_height()),
            f@.0 != f@.1,
            names.contains(f@.1),
            f@.2.len() >= 1,
            edge_fits(
                names,
                placed_rects(names),
                f@,
                bottom_boundary as int,
                old(canvas).spec_width(),
                old(canvas).spec_height(),
            ),
        ensures
            final(canvas).wf(),
            final(canvas).spec_width() == old(canvas).spec_width(),
            final(canvas).spec_height() == old(canvas).spec_height(),
            rect_covers(final(canvas).spec_boundary(), old(canvas).spec_boundary()),
            final(canvas).grid() == cross_call_grid(
                old(canvas).grid(),
                names,
                placed_rects(names),
                f@,
                bottom_boundary as int,
            ),
            r as int == cross_call_row(names, placed_rects(names), f@, bottom_boundary as int),
    {
        let ghost w = old(canvas).spec_width();
        let ghost h = old(canvas).spec_height();
        let ghost rects = placed_rects(names);
        proof {
            lemma_placed_rects(names, w, h);
            lemma_placed_rects_len(names);
            lemma_lookup_matches(self.placement(), names, f@.1);
            lemma_lookup_matches(self.placement(), names, f@.0);
        }
        let called_opt = self.lookup_rect(&f.component);
        let called_rec = called_opt.unwrap();
        let calling_rec = match self.lookup_rect(&f.caller) {
            Some(rc) => rc,
            None => (Rectangle { left: 0, right: 0, top: 0, bottom: 0 }),
        };
        proof {
            assert(called_rec == rect_of(names, rects, f@.1));
            assert(calling_rec == rect_of(names, rects, f@.0));
            assert(calling_rec.left <= calling_rec.right);
            assert(called_rec.left <= called_rec.right);
        }
        let calling_center = calling_rec.left + (calling_rec.right - calling_rec.left) / 2;
        let called_center0 = called_rec.left + (called_rec.right - called_rec.left) / 2;
        proof {
            assert(calling_center as int == center_of(calling_rec));
            assert(called_center0 as int == center_of(called_rec));
        }
        let called_center = if calling_center < called_center0 {
            called_center0 - 1
        } else {
            proof {
                assert(cross_called_col(calling_center as int, called_center0 as int)
                    == called_center0 + 1);
                assert(called_center0 + 1 < w);
            }
            called_center0 + 1
        };
        proof {
            assert(called_center as int == cross_called_col(
                calling_center as int,
                called_center0 as int,
            ));
        }
        let label_len = f.function.as_str().unicode_len();
        let hi = if called_center > calling_center {
            called_center
        } else {
            calling_center
        };
        let lo = if called_center > calling_center {
            calling_center
        } else {
            called_center
        };
        proof {
            assert(hi - lo >= 4);
            assert(hi as int - lo as int - 1 >= 1);
        }
        let label_height = (label_len - 1) / (hi - lo - 1) + 1;
        proof {
            assert(label_height as int == cross_label_height(names, rects, f@));
            assert(bottom_boundary + EXTRA_VERTICAL_MARGIN + label_height == cross_call_row(
                names,
                rects,
                f@,
                bottom_boundary as int,
            ));
        }
        let row = bottom_boundary + EXTRA_VERTICAL_MARGIN + label_height;
        canvas.draw_line_with_label((row, calling_center), (row, called_center),
            f.function.as_str(), true);
        row
    }

    /// Draws one self-call loop at cursor `bottom_boundary`: a rightward
    /// stub from the component's center, a corner, a vertical labeled
    /// segment, and a closing arrowed line back into the lifeline; returns
    /// the loop's bottom row, the new cursor.
    fn draw_same_component_call(
        &self,
        canvas: &mut Canvas,
        f: &FunctionCall,
        bottom_boundary: usize,
        Ghost(names): Ghost<Seq<Seq<char>>>,
    ) -> (r: usize)
        requires
            old(canvas).wf(),
            is_placement(self.placement(), names),
            forall|i: int, j: int|
                0 <= i < j < names.len() ==> (#[trigger] names[i]) != (#[trigger] names[j]),
            forall|i: int| 0 <= i < names.len() ==> (#[trigger] names[i]).len() > 0,
            placement_fits(names, old(canvas).spec_width(), old(canvas).spec_height()),
            f@.0 == f@.1,
            names.contains(f@.1),
            f@.2.len() >= 1,
            edge_fits(
                names,
                placed_rects(names),
                f@,
                bottom_boundary as int,
                old(canvas).spec_width(),
                old(canvas).spec_height(),
            ),
        ensures
            final(canvas).wf(),
            final(canvas).spec_width() == old(canvas).spec_width(),
            final(canvas).spec_height() == old(canvas).spec_height(),
            rect_covers(final(canvas).spec_boundary(), old(canvas).spec_boundary()),
            final(canvas).grid() == self_call_grid(
                old(canvas).grid(),
                names,
                placed_rects(names),
                f@,
                bottom_boundary as int,
            ),
            r as int == self_call_row(f@, bottom_boundary as int),
            ({
                let c = center_of(rect_of(names, placed_rects(names), f@.1));
                let top = bottom_boundary + EXTRA_VERTICAL_MARGIN;
                let bot = top + self_label_height(f@) + 2;
                let loop_col = c + DEFAULT_SELF_CALL_WIDTH;
                &&& final(canvas).grid()[top as int][loop_col] == '┐'
                &&& final(canvas).grid()[bot][loop_col] == '┘'
                &&& forall|j: int|
                    c < j < loop_col ==> #[trigger] final(canvas).grid()[top as int][j] == '─'
                &&& forall|j: int|
                    c + 1 < j < loop_col ==> #[trigger] final(canvas).grid()[bot][j] == '─'
                &&& final(canvas).grid()[bot][c + 1] == '◄'
            }),
    {
        let ghost w = old(canvas).spec_width();
        let ghost h = old(canvas).spec_height();
        let ghost rects = placed_rects(names);
        proof {
            lemma_placed_rects(names, w, h);
            lemma_placed_rects_len(names);
            lemma_lookup_matches(self.placement(), names, f@.1);
            lemma_self_call_shape(
                old(canvas).grid(),
                names,
                f@,
                bottom_boundary as int,
                w,
                h,
            );
        }
        let called_opt = self.lookup_rect(&f.component);
        let called_rec = called_opt.unwrap();
        proof {
            assert(called_rec == rect_of(names, rects, f@.1));
            assert(called_rec.left <= called_rec.right);
        }
        let called_center = called_rec.left + (called_rec.right - called_rec.left) / 2;
        proof {
            assert(called_center as int == center_of(called_rec));
        }
        let top = bottom_boundary + EXTRA_VERTICAL_MARGIN;
        let right_col = called_center + DEFAULT_SELF_CALL_WIDTH;
        canvas.draw_line(&(top, called_center), &(top, right_col));
        canvas.draw_point(&(top, right_col), '┐');
        let label_len = f.function.as_str().unicode_len();
        let label_height = (label_len - 1) / DEFAULT_SELF_CALL_WIDTH + 1;
        proof {
            assert(label_height as int == self_label_height(f@));
        }
        let bot = top + label_height + 2;
        canvas.draw_line_with_label((top, right_col), (bot, right_col), f.function.as_str(),
            false);
        canvas.draw_arrowed_line(&(bot, right_col), &(bot, called_center + 1));
        canvas.draw_point(&(bot, right_col), '┘');
        proof {
            assert(final(canvas).grid() =~~= self_call_grid(
                old(canvas).grid(),
                names,
                rects,
                f@,
                bottom_boundary as int,
            ));
        }
        bot
    }
}

/// The cursor that the call-edge pass computes does not depend on the grid.
pub proof fn lemma_edges_pass_bb(
    g1: Seq<Seq<char>>,
    g2: Seq<Seq<char>>,
    names: Seq<Seq<char>>,
    rects: Seq<Rectangle>,
    edges: Seq<(Seq<char>, Seq<char>, Seq<char>)>,
    bb: int,
)
    ensures
        edges_pass(g1, names, rects, edges, bb).1 == edges_pass(g2, names, rects, edges, bb).1,
    decreases edges.len(),
{
    if edges.len() > 0 {
        lemma_edges_pass_bb(g1, g2, names, rects, edges.drop_last(), bb);
    }
}

impl Painter {
    /// Pass two: processes the call edges in textual order, drawing a cross-
    /// component arrow or a self-call loop for each, and returns the final
    /// cursor plus one trailing margin: the target bottom for the lifecycle
    /// lines.
    fn draw_function_calls(&self, canvas: &mut Canvas, callgraph: &CallGraph) -> (r: usize)
        requires
            old(canvas).wf(),
            is_placement(self.placement(), callgraph.order_view()),
            forall|i: int, j: int|
                0 <= i < j < callgraph.order_view().len() ==> (#[trigger] callgraph.order_view()[
                    i
                ]) != (#[trigger] callgraph.order_view()[j]),
            forall|i: int|
                0 <= i < callgraph.order_view().len() ==> (#[trigger] callgraph.order_view()[
                    i
                ]).len() > 0,
            placement_fits(
                callgraph.order_view(),
                old(canvas).spec_width(),
                old(canvas).spec_height(),
            ),
            forall|k: int|
                0 <= k < callgraph.edges_view().len() ==> callgraph.order_view().contains(
                    (#[trigger] callgraph.edges_view()[k]).1,
                ) && callgraph.edges_view()[k].2.len() >= 1,
            edges_fit(
                callgraph.order_view(),
                placed_rects(callgraph.order_view()),
                callgraph.edges_view(),
                max_bottom(placed_rects(callgraph.order_view())),
                old(canvas).spec_width(),
                old(canvas).spec_height(),
            ),
            callgraph.order_view().len() > 0 ==> edges_pass(
                Seq::empty(),
                callgraph.order_view(),
                placed_rects(callgraph.order_view()),
                callgraph.edges_view(),
                max_bottom(placed_rects(callgraph.order_view())),
            ).1 + EXTRA_VERTICAL_MARGIN < old(canvas).spec_height(),
        ensures
            final(canvas).wf(),
            final(canvas).spec_width() == old(canvas).spec_width(),
            final(canvas).spec_height() == old(canvas).spec_height(),
            rect_covers(final(canvas).spec_boundary(), old(canvas).spec_boundary()),
            final(canvas).grid() == edges_pass(
                old(canvas).grid(),
                callgraph.order_view(),
                placed_rects(callgraph.order_view()),
                callgraph.edges_view(),
                max_bottom(placed_rects(callgraph.order_view())),
            ).0,
            callgraph.order_view().len() == 0 ==> final(canvas).spec_boundary() == old(
                canvas,
            ).spec_boundary(),
            r as int == edges_pass(
                Seq::empty(),
                callgraph.order_view(),
                placed_rects(callgraph.order_view()),
                callgraph.edges_view(),
                max_bottom(placed_rects(callgraph.order_view())),
            ).1 + EXTRA_VERTICAL_MARGIN,
    {
        let ghost names = callgraph.order_view();
        let ghost rects = placed_rects(names);
        let ghost edges = callgraph.edges_view();
        let ghost w = old(canvas).spec_width();
        let ghost h = old(canvas).spec_height();
        proof {
            lemma_placed_rects_len(names);
        }
        let mut bottom_boundary: usize = 0;
        let m = self.components.len();
        let mut i: usize = 0;
        while i < m
            invariant
                is_placement(self.placement(), names),
                names == callgraph.order_view(),
                rects == placed_rects(names),
                rects.len() == names.len(),
                m == self.components@.len(),
                m == names.len(),
                i <= m,
                bottom_boundary as int == max_bottom(rects.take(i as int)),
            decreases m - i,
        {
            proof {
                assert(self.placement()[i as int] == (names[i as int], rects[i as int]));
                assert(self.placement()[i as int] == (self.components@[i as int].0@,
                    self.components@[i as int].1));
                assert(rects.take(i as int + 1).drop_last() =~= rects.take(i as int));
                assert(rects.take(i as int + 1).last() == rects[i as int]);
            }
            let rec_bottom = self.components[i].1.bottom;
            if rec_bottom > bottom_boundary {
                bottom_boundary = rec_bottom;
            }
            i = i + 1;
        }
        proof {
            assert(rects.take(m as int) =~= rects);
        }
        proof {
            assert(edges.skip(0) =~= edges);
            assert(edges.take(0) =~= Seq::<(Seq<char>, Seq<char>, Seq<char>)>::empty());
        }
        let ne = callgraph.func_calls.len();
        let mut k: usize = 0;
        while k < ne
            invariant
                canvas.wf(),
                canvas.spec_width() == w,
                canvas.spec_height() == h,
                rect_covers(canvas.spec_boundary(), old(canvas).spec_boundary()),
                names.len() == 0 ==> canvas.spec_boundary() == old(canvas).spec_boundary(),
                is_placement(self.placement(), names),
                names == callgraph.order_view(),
                rects == placed_rects(names),
                edges == callgraph.edges_view(),
                ne == edges.len(),
                k <= ne,
                forall|a: int, b: int|
                    0 <= a < b < names.len() ==> (#[trigger] names[a]) != (#[trigger] names[b]),
                forall|a: int| 0 <= a < names.len() ==> (#[trigger] names[a]).len() > 0,
                placement_fits(names, w, h),
                forall|q: int|
                    0 <= q < edges.len() ==> names.contains((#[trigger] edges[q]).1)
                        && edges[q].2.len() >= 1,
                canvas.grid() == edges_pass(
                    old(canvas).grid(),
                    names,
                    rects,
                    edges.take(k as int),
                    max_bottom(rects),
                ).0,
                bottom_boundary as int == edges_pass(
                    Seq::empty(),
                    names,
                    rects,
                    edges.take(k as int),
                    max_bottom(rects),
                ).1,
                edges_fit(names, rects, edges.skip(k as int), bottom_boundary as int, w, h),
            decreases ne - k,
        {
            let f = &callgraph.func_calls[k];
            proof {
                assert(f@ == edges[k as int]);
                assert(names.contains(edges[k as int].1));
                assert(names.len() > 0);
                assert(edges.skip(k as int)[0] == edges[k as int]);
                assert(edges.skip(k as int).drop_first() =~= edges.skip(k as int + 1));
                assert(edges.take(k as int + 1).drop_last() =~= edges.take(k as int));
                assert(edges.take(k as int + 1).last() == edges[k as int]);
                assert(edge_step(Seq::empty(), names, rects, edges[k as int],
                    bottom_boundary as int).1 == edge_step(canvas.grid(), names, rects,
                    edges[k as int], bottom_boundary as int).1);
            }
            let ghost bb_pre = bottom_boundary as int;
            let ghost g_pre = canvas.grid();
            if !(f.caller == f.component) {
                bottom_boundary = self.draw_cross_component_call(canvas, f, bottom_boundary,
                    Ghost(names));
            } else {
                bottom_boundary = self.draw_same_component_call(canvas, f, bottom_boundary,
                    Ghost(names));
            }
            proof {
                lemma_edges_pass_bb(old(canvas).grid(), Seq::empty(), names, rects,
                    edges.take(k as int), max_bottom(rects));
                assert(edges_pass(old(canvas).grid(), names, rects, edges.take(k as int),
                    max_bottom(rects)) == (g_pre, bb_pre));
                assert(canvas.grid() == edge_step(g_pre, names, rects, edges[k as int],
                    bb_pre).0);
                assert(bottom_boundary as int == edge_step(g_pre, names, rects, edges[k as int],
                    bb_pre).1);
                assert(edges_pass(old(canvas).grid(), names, rects, edges.take(k as int + 1),
                    max_bottom(rects)) == edge_step(g_pre, names, rects, edges[k as int],
                    bb_pre));
                lemma_edges_pass_bb(old(canvas).grid(), Seq::empty(), names, rects,
                    edges.take(k as int + 1), max_bottom(rects));
            }
            k = k + 1;
        }
        proof {
            assert(edges.take(ne as int) =~= edges);
            if names.len() == 0 {
                assert(edges.len() == 0 || names.contains(edges[0].1));
                if edges.len() > 0 {
                    let q = choose|q: int| 0 <= q < names.len() && names[q] == edges[0].1;
                    assert(false);
                }
                assert(edges.take(0) =~= edges);
                assert(bottom_boundary as int == max_bottom(rects));
                assert(max_bottom(rects) == 0) by {
                    assert(rects.len() == 0);
                }
            }
        }
        bottom_boundary + EXTRA_VERTICAL_MARGIN
    }

    /// Pass three: from the bottom of each component's rectangle, draws a
    /// non-overwriting vertical lifecycle line down to `bottom`, centered on
    /// the rectangle.
    fn draw_lifecycle_line(&self, canvas: &mut Canvas, bottom: usize, Ghost(names): Ghost<
        Seq<Seq<char>>,
    >)
        requires
            old(canvas).wf(),
            is_placement(self.placement(), names),
            forall|i: int| 0 <= i < names.len() ==> (#[trigger] names[i]).len() > 0,
            placement_fits(names, old(canvas).spec_width(), old(canvas).spec_height()),
            names.len() > 0 ==> (bottom as int) < old(canvas).spec_height(),
        ensures
            final(canvas).wf(),
            final(canvas).spec_width() == old(canvas).spec_width(),
            final(canvas).spec_height() == old(canvas).spec_height(),
            rect_covers(final(canvas).spec_boundary(), old(canvas).spec_boundary()),
            final(canvas).grid() == lifecycle_grid(
                old(canvas).grid(),
                placed_rects(names),
                bottom as int,
            ),
            names.len() == 0 ==> final(canvas).spec_boundary() == old(canvas).spec_boundary(),
    {
        let ghost rects = placed_rects(names);
        let ghost w = old(canvas).spec_width();
        let ghost h = old(canvas).spec_height();
        proof {
            lemma_placed_rects(names, w, h);
            lemma_placed_rects_len(names);
            assert(rects.take(0) =~= Seq::<Rectangle>::empty());
        }
        let m = self.components.len();
        let mut i: usize = 0;
        while i < m
            invariant
                canvas.wf(),
                canvas.spec_width() == w,
                canvas.spec_height() == h,
                rect_covers(canvas.spec_boundary(), old(canvas).spec_boundary()),
                names.len() == 0 ==> canvas.spec_boundary() == old(canvas).spec_boundary(),
                is_placement(self.placement(), names),
                rects == placed_rects(names),
                rects.len() == names.len(),
                forall|q: int| 0 <= q < names.len() ==> (#[trigger] names[q]).len() > 0,
                placement_fits(names, w, h),
                m == self.components@.len(),
                m == names.len(),
                i <= m,
                names.len() > 0 ==> (bottom as int) < h,
                canvas.grid() == lifecycle_grid(old(canvas).grid(), rects.take(i as int), bottom as int),
            decreases m - i,
        {
            proof {
                lemma_placed_rects(names, w, h);
                assert(self.placement()[i as int] == (names[i as int], rects[i as int]));
                assert(self.placement()[i as int] == (self.components@[i as int].0@,
                    self.components@[i as int].1));
                assert(rects.take(i as int + 1).drop_last() =~= rects.take(i as int));
                assert(rects.take(i as int + 1).last() == rects[i as int]);
            }
            let rec = self.components[i].1;
            let center = rec.left + (rec.right - rec.left) / 2;
            proof {
                assert(center as int == center_of(rec));
                assert(center_of(rec) <= rec.right);
            }
            canvas.draw_line_under(&(rec.bottom, center), &(bottom, center));
            i = i + 1;
        }
        proof {
            assert(rects.take(m as int) =~= rects);
        }
    }

    /// Parses the call-graph text and draws the whole diagram in three
    /// passes: component rectangles, call edges, lifecycle lines. The canvas
    /// afterwards holds exactly the diagram that the specification-level
    /// layout assigns to the parsed model.
    pub fn draw(&mut self, canvas: &mut Canvas, callgraph_str: &str)
        requires
            old(canvas).wf(),
            old(self).placement() == Seq::<(Seq<char>, Rectangle)>::empty(),
            diagram_fits(
                parse(callgraph_str@),
                old(canvas).spec_width(),
                old(canvas).spec_height(),
            ),
        ensures
            final(canvas).wf(),
            final(canvas).spec_width() == old(canvas).spec_width(),
            final(canvas).spec_height() == old(canvas).spec_height(),
            rect_covers(final(canvas).spec_boundary(), old(canvas).spec_boundary()),
            final(canvas).grid() == diagram_grid(old(canvas).grid(), parse(callgraph_str@)),
            parse(callgraph_str@).order.len() == 0 ==> final(canvas).spec_boundary() == old(
                canvas,
            ).spec_boundary(),
            is_placement(final(self).placement(), parse(callgraph_str@).order),
            forall|i: int, j: int|
                0 <= i < j < final(self).placement().len()
                    ==> (#[trigger] final(self).placement()[i]).1.right + HORIZONTAL_GAP
                    <= (#[trigger] final(self).placement()[j]).1.left,
    {
        let callgraph = CallGraph::new(callgraph_str);
        proof {
            crate::callgraph::lemma_parse_inv(callgraph_str@);
            lemma_edges_pass_bb(
                components_grid(old(canvas).grid(), callgraph.order_view()),
                Seq::empty(),
                callgraph.order_view(),
                placed_rects(callgraph.order_view()),
                callgraph.edges_view(),
                max_bottom(placed_rects(callgraph.order_view())),
            );
        }
        self.draw_components(canvas, &callgraph);
        let length = self.draw_function_calls(canvas, &callgraph);
        self.draw_lifecycle_line(canvas, length, Ghost(callgraph.order_view()));
        proof {
            lemma_placement_non_overlap(
                callgraph.order_view(),
                old(canvas).spec_width(),
                old(canvas).spec_height(),
            );
        }
    }
}

/// The placement map holds exactly the given names, in order, each with its
/// placed rectangle.
pub open spec fn is_placement(pv: Seq<(Seq<char>, Rectangle)>, names: Seq<Seq<char>>) -> bool {
    &&& pv.len() == names.len()
    &&& forall|i: int|
        0 <= i < names.len() ==> #[trigger] pv[i] == (names[i], placed_rects(names)[i])
}

proof fn lemma_max_bottom_lt(rects: Seq<Rectangle>, h: int)
    requires
        rects.len() > 0,
        forall|i: int| 0 <= i < rects.len() ==> (#[trigger] rects[i]).bottom < h,
    ensures
        0 <= max_bottom(rects) < h,
    decreases rects.len(),
{
    if rects.len() > 1 {
        assert(forall|i: int|
            0 <= i < rects.len() - 1 ==> rects.drop_last()[i] == #[trigger] rects[i]);
        lemma_max_bottom_lt(rects.drop_last(), h);
        assert(rects.last() == rects[rects.len() - 1]);
        assert(max_bottom(rects) == vstd::math::max(
            max_bottom(rects.drop_last()),
            rects.last().bottom as int,
        ));
    } else {
        assert(rects.last() == rects[0]);
        assert(max_bottom(rects.drop_last()) == 0);
        assert(max_bottom(rects) == vstd::math::max(0, rects[0].bottom as int));
    }
}

/// Places every component's rectangle without drawing, checking as it goes
/// that each one stays on a `width x height` grid: the resulting placement
/// map exactly when the placement pass fits.
fn place_all(graph: &CallGraph, width: usize, height: usize) -> (r: Option<Painter>)
    requires
        forall|i: int|
            0 <= i < graph.order_view().len() ==> (#[trigger] graph.order_view()[i]).len() > 0,
        forall|i: int, j: int|
            0 <= i < j < graph.order_view().len() ==> (#[trigger] graph.order_view()[i]) != (
            #[trigger] graph.order_view()[j]),
    ensures
        r is Some <==> placement_fits(graph.order_view(), width as int, height as int),
        r matches Some(p) ==> is_placement(p.placement(), graph.order_view()),
{
    let ghost names = graph.order_view();
    let ghost w = width as int;
    let ghost h = height as int;
    proof {
        lemma_placed_rects_len(names);
        assert(names.take(0) =~= Seq::<Seq<char>>::empty());
        assert(placed_rects(names.take(0)) =~= Seq::<Rectangle>::empty());
    }
    let mut placements = Painter { components: Vec::new() };
    proof {
        assert(placements.placement() =~= Seq::<(Seq<char>, Rectangle)>::empty());
    }
    let n = graph.components_in_order.len();
    let mut right_boundary: usize = 0;
    let mut idx: usize = 0;
    while idx < n
        invariant
            names == graph.order_view(),
            w == width as int,
            h == height as int,
            n == names.len(),
            idx <= n,
            forall|i: int| 0 <= i < names.len() ==> (#[trigger] names[i]).len() > 0,
            forall|i: int|
                0 <= i < idx ==> placed_right_int(#[trigger] names.take(i + 1)) < w && (
                names[i].len() - 1) / (MAX_COMPONENT_WIDTH as int) + 3 < h,
            is_placement(placements.placement(), names.take(idx as int)),
            placements.components@.len() == idx,
            right_boundary as int == placed_right_int(names.take(idx as int)),
        decreases n - idx,
    {
        proof {
            assert(names[idx as int] == graph.components_in_order@[idx as int]@);
            assert(names.take(idx as int + 1) =~= names.take(idx as int).push(names[idx as int]));
            assert(names.take(idx as int + 1).drop_last() =~= names.take(idx as int));
        }
        let component: &String = &graph.components_in_order[idx];
        let clen = component.as_str().unicode_len();
        let bottom = (clen - 1) / MAX_COMPONENT_WIDTH + 3;
        if bottom >= height {
            proof {
                assert((names[idx as int].len() - 1) / (MAX_COMPONENT_WIDTH as int) + 3 >= h);
                assert(!placement_fits(names, w, h));
            }
            return None;
        }
        let rec_width = if clen >= MAX_COMPONENT_WIDTH {
            MAX_COMPONENT_WIDTH
        } else {
            clen + 1
        };
        let step = HORIZONTAL_GAP + rec_width;
        proof {
            assert(rec_width as int == rect_width_of(names[idx as int].len() as int));
            assert(placed_right_int(names.take(idx as int + 1)) == right_boundary + step);
        }
        if width <= step || right_boundary >= width - step {
            proof {
                assert(placed_right_int(names.take(idx as int + 1)) >= w);
                assert(!placement_fits(names, w, h));
            }
            return None;
        }
        let rec = Rectangle { left: HORIZONTAL_GAP + right_boundary, right: step + right_boundary, top: 1, bottom };
        proof {
            let prefix = names.take(idx as int + 1);
            assert forall|i: int|
                0 <= i < prefix.len() implies placed_right_int(#[trigger] prefix.take(i + 1)) < w
                && (prefix[i].len() - 1) / (MAX_COMPONENT_WIDTH as int) + 3 < h by {
                assert(prefix.take(i + 1) =~= names.take(i + 1));
                assert(prefix[i] == names[i]);
            }
            assert(placement_fits(prefix, w, h));
            lemma_placed_rects(prefix, w, h);
            lemma_placed_rects_prefix(names, idx as int + 1);
            lemma_placed_rects_prefix(names, idx as int);
            assert(placed_rects(prefix)[idx as int].right as int == placed_right_int(prefix));
            assert(rec == placed_rects(prefix)[idx as int]);
            lemma_placed_rects_len(names);
            assert(placed_rects(names).take(idx as int + 1)[idx as int] == placed_rects(
                names,
            )[idx as int]);
            assert(rec == placed_rects(names)[idx as int]);
        }
        let ghost pv0 = placements.placement();
        placements.components.push((component.clone(), rec));
        proof {
            assert(placements.placement() =~= pv0.push((component@, rec)));
            assert forall|i: int|
                0 <= i < idx as int + 1 implies #[trigger] placements.placement()[i] == (
            names.take(idx as int + 1)[i], placed_rects(names.take(idx as int + 1))[i]) by {
                lemma_placed_rects_prefix(names, idx as int + 1);
                lemma_placed_rects_prefix(names, idx as int);
                if i < idx as int {
                    assert(placements.placement()[i] == pv0[i]);
                    assert(pv0[i] == (names.take(idx as int)[i], placed_rects(
                        names.take(idx as int),
                    )[i]));
                } else {
                    assert(placements.placement()[i] == (component@, rec));
                }
            }
            assert(is_placement(placements.placement(), names.take(idx as int + 1)));
        }
        right_boundary = rec.right;
        idx = idx + 1;
    }
    proof {
        assert(names.take(n as int) =~= names);
        assert forall|i: int|
            0 <= i < names.len() implies placed_right_int(#[trigger] names.take(i + 1)) < w && (
            names[i].len() - 1) / (MAX_COMPONENT_WIDTH as int) + 3 < h by {}
        assert(placement_fits(names, w, h));
    }
    Some(placements)
}

impl Painter {
    /// The lowest rectangle edge of this placement map: the starting cursor
    /// of the call-edge pass.
    fn start_cursor(&self, Ghost(names): Ghost<Seq<Seq<char>>>) -> (bb: usize)
        requires
            is_placement(self.placement(), names),
        ensures
            bb as int == max_bottom(placed_rects(names)),
    {
        let ghost rects = placed_rects(names);
        proof {
            lemma_placed_rects_len(names);
            assert(rects.take(0) =~= Seq::<Rectangle>::empty());
        }
        let mut bb: usize = 0;
        let m = self.components.len();
        let mut i: usize = 0;
        while i < m
            invariant
                is_placement(self.placement(), names),
                rects == placed_rects(names),
                rects.len() == names.len(),
                m == self.components@.len(),
                m == names.len(),
                i <= m,
                bb as int == max_bottom(rects.take(i as int)),
            decreases m - i,
        {
            proof {
                assert(self.placement()[i as int] == (names[i as int], rects[i as int]));
                assert(self.placement()[i as int] == (self.components@[i as int].0@,
                    self.components@[i as int].1));
                assert(rects.take(i as int + 1).drop_last() =~= rects.take(i as int));
                assert(rects.take(i as int + 1).last() == rects[i as int]);
            }
            let rec_bottom = self.components[i].1.bottom;
            if rec_bottom > bb {
                bb = rec_bottom;
            }
            i = i + 1;
        }
        proof {
            assert(rects.take(m as int) =~= rects);
        }
        bb
    }

    /// Checks one edge at cursor `bb` without drawing: the cursor after the
    /// edge exactly when the edge fits the grid.
    #[verifier::rlimit(40)]
    fn check_one_edge(
        &self,
        f: &FunctionCall,
        bb: usize,
        width: usize,
        height: usize,
        Ghost(names): Ghost<Seq<Seq<char>>>,
    ) -> (r: Option<usize>)
        requires
            is_placement(self.placement(), names),
            forall|i: int, j: int|
                0 <= i < j < names.len() ==> (#[trigger] names[i]) != (#[trigger] names[j]),
            forall|i: int| 0 <= i < names.len() ==> (#[trigger] names[i]).len() > 0,
            placement_fits(names, width as int, height as int),
            width <= usize::MAX,
            height <= usize::MAX,
            names.contains(f@.1),
            f@.2.len() >= 1,
            (bb as int) < height as int,
        ensures
            r is Some <==> edge_fits(
                names,
                placed_rects(names),
                f@,
                bb as int,
                width as int,
                height as int,
            ),
            r matches Some(b) ==> b as int == edge_step(
                Seq::empty(),
                names,
                placed_rects(names),
                f@,
                bb as int,
            ).1 && (b as int) < height as int,
    {
        let ghost rects = placed_rects(names);
        let ghost w = width as int;
        let ghost h = height as int;
        proof {
            lemma_placed_rects(names, w, h);
            lemma_placed_rects_len(names);
            lemma_lookup_matches(self.placement(), names, f@.1);
            lemma_lookup_matches(self.placement(), names, f@.0);
        }
        let llen = f.function.as_str().unicode_len();
        if f.caller == f.component {
            let called_rec = self.lookup_rect(&f.component).unwrap();
            proof {
                assert(called_rec == rect_of(names, rects, f@.1));
                assert(called_rec.left <= called_rec.right);
            }
            let c = called_rec.left + (called_rec.right - called_rec.left) / 2;
            proof {
                assert(c as int == center_of(called_rec));
            }
            if width <= DEFAULT_SELF_CALL_WIDTH || c >= width - DEFAULT_SELF_CALL_WIDTH {
                proof {
                    assert(!edge_fits(names, rects, f@, bb as int, w, h));
                }
                return None;
            }
            let right_col = c + DEFAULT_SELF_CALL_WIDTH;
            let lh = (llen - 1) / DEFAULT_SELF_CALL_WIDTH + 1;
            proof {
                assert(lh as int == self_label_height(f@));
            }
            if height - 1 - bb < 4 || lh > height - 1 - bb - 4 {
                proof {
                    assert(bb + EXTRA_VERTICAL_MARGIN + self_label_height(f@) + 2 >= h);
                    assert(!edge_fits(names, rects, f@, bb as int, w, h));
                }
                return None;
            }
            let top = bb + EXTRA_VERTICAL_MARGIN;
            let bot = top + lh + 2;
            if lh < 2 {
                proof {
                    assert(!crate::canvas::labelled_line_fits(
                        (top, right_col),
                        (bot, right_col),
                        f@.2.len() as int,
                        w,
                        h,
                    ));
                    assert(!edge_fits(names, rects, f@, bb as int, w, h));
                }
                return None;
            }
            let wv = (llen - 1) / (lh - 1) + 1;
            if right_col < wv / 2 + 1 || wv / 2 + 1 >= width - right_col {
                proof {
                    assert(!crate::canvas::labelled_line_fits(
                        (top, right_col),
                        (bot, right_col),
                        f@.2.len() as int,
                        w,
                        h,
                    ));
                    assert(!edge_fits(names, rects, f@, bb as int, w, h));
                }
                return None;
            }
            proof {
                assert(crate::canvas::labelled_line_fits(
                    (top, right_col),
                    (bot, right_col),
                    f@.2.len() as int,
                    w,
                    h,
                ));
                assert(edge_fits(names, rects, f@, bb as int, w, h));
                assert(bot as int == self_call_row(f@, bb as int));
            }
            Some(bot)
        } else {
            let called_rec = self.lookup_rect(&f.component).unwrap();
            let calling_rec = match self.lookup_rect(&f.caller) {
                Some(rc) => rc,
                None => (Rectangle { left: 0, right: 0, top: 0, bottom: 0 }),
            };
            proof {
                assert(called_rec == rect_of(names, rects, f@.1));
                assert(calling_rec == rect_of(names, rects, f@.0));
                assert(calling_rec.left <= calling_rec.right);
                assert(called_rec.left <= called_rec.right);
            }
            let calling_center = calling_rec.left + (calling_rec.right - calling_rec.left) / 2;
            let called_center0 = called_rec.left + (called_rec.right - called_rec.left) / 2;
            proof {
                assert(calling_center as int == center_of(calling_rec));
                assert(called_center0 as int == center_of(called_rec));
            }
            let called_center = if calling_center < called_center0 {
                called_center0 - 1
            } else {
                called_center0 + 1
            };
            proof {
                assert(called_center as int == cross_called_col(
                    calling_center as int,
                    called_center0 as int,
                ));
            }
            if called_center >= width {
                proof {
                    assert(!edge_fits(names, rects, f@, bb as int, w, h));
                }
                return None;
            }
            let hi = if called_center > calling_center {
                called_center
            } else {
                calling_center
            };
            let lo = if called_center > calling_center {
                calling_center
            } else {
                called_center
            };
            if hi - lo < 4 {
                proof {
                    let row0 = cross_call_row(names, rects, f@, bb as int);
                    assert(!crate::canvas::labelled_line_fits(
                        ((row0 as usize), calling_center),
                        ((row0 as usize), called_center),
                        f@.2.len() as int,
                        w,
                        h,
                    ));
                    assert(!edge_fits(names, rects, f@, bb as int, w, h));
                }
                return None;
            }
            let lh = (llen - 1) / (hi - lo - 1) + 1;
            proof {
                assert(lh as int == cross_label_height(names, rects, f@));
            }
            if height - 1 - bb < 2 || lh > height - 1 - bb - 2 {
                proof {
                    assert(cross_call_row(names, rects, f@, bb as int) >= h);
                    assert(!edge_fits(names, rects, f@, bb as int, w, h));
                }
                return None;
            }
            let row = bb + EXTRA_VERTICAL_MARGIN + lh;
            let q = (llen - 1) / (hi - lo - 3);
            if row < q || row - q < 2 {
                proof {
                    assert((row as int) < q + 2);
                    assert(!crate::canvas::labelled_line_fits(
                        (row, calling_center),
                        (row, called_center),
                        f@.2.len() as int,
                        w,
                        h,
                    ));
                    assert(!edge_fits(names, rects, f@, bb as int, w, h));
                }
                return None;
            }
            proof {
                assert(row >= q + 2);
                assert(crate::canvas::labelled_line_fits(
                    (row, calling_center),
                    (row, called_center),
                    f@.2.len() as int,
                    w,
                    h,
                ));
                assert(edge_fits(names, rects, f@, bb as int, w, h));
                assert(row as int == cross_call_row(names, rects, f@, bb as int));
            }
            Some(row)
        }
    }

    /// Threads the cursor through every edge without drawing: the final
    /// cursor exactly when the whole call-edge pass fits the grid.
    fn check_edges(
        &self,
        graph: &CallGraph,
        bb0: usize,
        width: usize,
        height: usize,
        Ghost(names): Ghost<Seq<Seq<char>>>,
    ) -> (r: Option<usize>)
        requires
            is_placement(self.placement(), names),
            names == graph.order_view(),
            forall|i: int, j: int|
                0 <= i < j < names.len() ==> (#[trigger] names[i]) != (#[trigger] names[j]),
            forall|i: int| 0 <= i < names.len() ==> (#[trigger] names[i]).len() > 0,
            placement_fits(names, width as int, height as int),
            width <= usize::MAX,
            height <= usize::MAX,
            forall|q: int|
                0 <= q < graph.edges_view().len() ==> names.contains(
                    (#[trigger] graph.edges_view()[q]).1,
                ) && graph.edges_view()[q].2.len() >= 1,
            names.len() > 0 ==> (bb0 as int) < height as int,
        ensures
            r is Some <==> edges_fit(
                names,
                placed_rects(names),
                graph.edges_view(),
                bb0 as int,
                width as int,
                height as int,
            ),
            r matches Some(b) ==> b as int == edges_pass(
                Seq::empty(),
                names,
                placed_rects(names),
                graph.edges_view(),
                bb0 as int,
            ).1 && (names.len() > 0 ==> (b as int) < height as int),
    {
        let ghost rects = placed_rects(names);
        let ghost edges = graph.edges_view();
        let ghost w = width as int;
        let ghost h = height as int;
        proof {
            assert(edges.skip(0) =~= edges);
            assert(edges.take(0) =~= Seq::<(Seq<char>, Seq<char>, Seq<char>)>::empty());
        }
        let mut bb = bb0;
        let ne = graph.func_calls.len();
        let mut k: usize = 0;
        while k < ne
            invariant
                is_placement(self.placement(), names),
                names == graph.order_view(),
                rects == placed_rects(names),
                edges == graph.edges_view(),
                w == width as int,
                h == height as int,
                ne == edges.len(),
                k <= ne,
                forall|i: int, j: int|
                    0 <= i < j < names.len() ==> (#[trigger] names[i]) != (#[trigger] names[j]),
                forall|i: int| 0 <= i < names.len() ==> (#[trigger] names[i]).len() > 0,
                placement_fits(names, w, h),
                forall|q: int|
                    0 <= q < edges.len() ==> names.contains((#[trigger] edges[q]).1)
                        && edges[q].2.len() >= 1,
                names.len() > 0 ==> (bb as int) < h,
                bb as int == edges_pass(Seq::empty(), names, rects, edges.take(k as int), bb0 as int).1,
                edges_fit(names, rects, edges, bb0 as int, w, h) <==> edges_fit(
                    names,
                    rects,
                    edges.skip(k as int),
                    bb as int,
                    w,
                    h,
                ),
            decreases ne - k,
        {
            let f = &graph.func_calls[k];
            proof {
                assert(f@ == edges[k as int]);
                assert(names.contains(edges[k as int].1));
                assert(names.len() > 0);
                assert(edges.skip(k as int)[0] == edges[k as int]);
                assert(edges.skip(k as int).drop_first() =~= edges.skip(k as int + 1));
                assert(edges.take(k as int + 1).drop_last() =~= edges.take(k as int));
                assert(edges.take(k as int + 1).last() == edges[k as int]);
            }
            let step = self.check_one_edge(f, bb, width, height, Ghost(names));
            match step {
                Some(next) => {
                    proof {
                        assert(edges_pass(
                            Seq::empty(),
                            names,
                            rects,
                            edges.take(k as int + 1),
                            bb0 as int,
                        ).1 == next as int);
                    }
                    bb = next;
                },
                None => {
                    proof {
                        assert(!edges_fit(names, rects, edges.skip(k as int), bb as int, w, h));
                    }
                    return None;
                },
            }
            k = k + 1;
        }
        proof {
            assert(edges.take(ne as int) =~= edges);
            assert(edges.skip(ne as int) =~= Seq::<(Seq<char>, Seq<char>, Seq<char>)>::empty());
        }
        Some(bb)
    }
}

/// Decides, without drawing, whether the diagram of `callgraph_str` fits a
/// `width x height` canvas: exactly the geometric precondition of
/// [`Painter::draw`]. Callers that cannot establish that precondition test
/// it with this function first.
pub fn diagram_fits_check(callgraph_str: &str, width: usize, height: usize) -> (r: bool)
    ensures
        r == diagram_fits(parse(callgraph_str@), width as int, height as int),
{
    let graph = CallGraph::new(callgraph_str);
    let ghost st = parse(callgraph_str@);
    let ghost names = st.order;
    let ghost rects = placed_rects(names);
    let ghost w = width as int;
    let ghost h = height as int;
    proof {
        crate::callgraph::lemma_parse_inv(callgraph_str@);
        lemma_placed_rects_len(names);
    }
    let placements = match place_all(&graph, width, height) {
        Some(p) => p,
        None => {
            return false;
        },
    };
    let bb0 = placements.start_cursor(Ghost(names));
    proof {
        if names.len() > 0 {
            lemma_placed_rects(names, w, h);
            lemma_max_bottom_lt(rects, h);
        }
    }
    let bb = match placements.check_edges(&graph, bb0, width, height, Ghost(names)) {
        Some(b) => b,
        None => {
            return false;
        },
    };
    if graph.components_in_order.len() > 0 {
        if height - 1 - bb < EXTRA_VERTICAL_MARGIN {
            proof {
                assert(edges_pass(Seq::empty(), names, rects, st.edges, max_bottom(rects)).1
                    + EXTRA_VERTICAL_MARGIN >= h);
                assert(!diagram_fits(st, w, h));
            }
            return false;
        }
    }
    proof {
        if names.len() > 0 {
            assert(edges_pass(Seq::empty(), names, rects, st.edges, max_bottom(rects)).1
                + EXTRA_VERTICAL_MARGIN < h);
        }
        assert(diagram_fits(st, w, h));
    }
    true
}

/// Empty or whitespace-only input draws nothing: the parse has no
/// components, so `draw` keeps both the grid and the drawn-region boundary
/// of its canvas unchanged — on a fresh canvas the drawn region stays
/// inverted and serializes to the empty string.
pub proof fn lemma_empty_input_draws_nothing(g: Seq<Seq<char>>, text: Seq<char>)
    requires
        crate::callgraph::all_ws(text),
    ensures
        parse(text).order.len() == 0,
        diagram_grid(g, parse(text)) == g,
{
    crate::callgraph::lemma_empty_input(text);
    let st = parse(text);
    assert(components_grid(g, st.order) == g);
    assert(placed_rects(st.order) =~= Seq::<Rectangle>::empty());
    assert(edges_pass(g, st.order, placed_rects(st.order), st.edges, max_bottom(
        placed_rects(st.order),
    )) == (g, max_bottom(placed_rects(st.order))));
    assert(lifecycle_grid(g, placed_rects(st.order), max_bottom(placed_rects(st.order))
        + EXTRA_VERTICAL_MARGIN) == g);
}

/// Self-call shape: drawing a same-component edge leaves a closed loop
/// anchored at the component's center column `c`: a horizontal stub on the
/// loop's top row, corner glyphs at both ends of the vertical run at column
/// `c + DEFAULT_SELF_CALL_WIDTH`, and an arrowed closing segment pointing
/// back left into the lifeline on the bottom row.
pub proof fn lemma_self_call_shape(
    g: Seq<Seq<char>>,
    names: Seq<Seq<char>>,
    e: (Seq<char>, Seq<char>, Seq<char>),
    bb: int,
    width: int,
    height: int,
)
    requires
        e.0 == e.1,
        names.contains(e.1),
        e.2.len() >= 1,
        forall|i: int, j: int|
            0 <= i < j < names.len() ==> (#[trigger] names[i]) != (#[trigger] names[j]),
        forall|i: int| 0 <= i < names.len() ==> (#[trigger] names[i]).len() > 0,
        placement_fits(names, width, height),
        width <= usize::MAX,
        height <= usize::MAX,
        edge_fits(names, placed_rects(names), e, bb, width, height),
        bb >= 0,
        g.len() == height,
        forall|r: int| 0 <= r < g.len() ==> (#[trigger] g[r]).len() == width,
    ensures
        ({
            let c = center_of(rect_of(names, placed_rects(names), e.1));
            let top = bb + EXTRA_VERTICAL_MARGIN;
            let bot = top + self_label_height(e) + 2;
            let loop_col = c + DEFAULT_SELF_CALL_WIDTH;
            let gd = self_call_grid(g, names, placed_rects(names), e, bb);
            &&& gd[top][loop_col] == '┐'
            &&& gd[bot][loop_col] == '┘'
            &&& forall|j: int| c < j < loop_col ==> gd[top][j] == '─'
            &&& forall|j: int| c + 1 < j < loop_col ==> gd[bot][j] == '─'
            &&& gd[bot][c + 1] == '◄'
        }),
{
    let rects = placed_rects(names);
    lemma_placed_rects(names, width, height);
    lemma_placed_rects_len(names);
    let c = center_of(rect_of(names, rects, e.1));
    let i = choose|i: int| 0 <= i < names.len() && names[i] == e.1;
    assert(rect_of(names, rects, e.1) == rects[i]);
    assert(rects[i].left <= rects[i].right);
    assert(0 <= c);
    let top = bb + EXTRA_VERTICAL_MARGIN;
    let lh = self_label_height(e);
    let bot = top + lh + 2;
    let loop_col = c + DEFAULT_SELF_CALL_WIDTH;
    assert(loop_col < width && bot < height && c + 1 < width);
    assert(lh >= 1);
    let a = ((top as usize), (loop_col as usize));
    let b = ((bot as usize), (loop_col as usize));
    let g1 = line_grid(g, ((top as usize), (c as usize)), a, true);
    let g2 = grid_set(g1, top, loop_col, '┐');
    let lrect = crate::canvas::v_label_rect(a, b, e.2.len() as int);
    let lined = line_grid(g2, a, b, true);
    let g3 = labelled_interior_grid(lined, lrect, e.2);
    assert(line_with_label_grid(g2, a, b, e.2, false) == g3);
    let g4 = grid_set(
        line_grid(g3, b, ((bot as usize), ((c + 1) as usize)), true),
        bot,
        c + 1,
        arrow_char(b, ((bot as usize), ((c + 1) as usize))),
    );
    let gd = grid_set(g4, bot, loop_col, '┘');
    assert(gd == self_call_grid(g, names, rects, e, bb));

    // Shapes are preserved layer by layer.
    assert(g1.len() == height && forall|r: int|
        0 <= r < g1.len() ==> (#[trigger] g1[r]).len() == width);
    assert(g2.len() == height);
    assert(g2[top].len() == width) by {
        assert(g2[top] == g1[top].update(loop_col, '┐'));
    }
    assert(forall|r: int| 0 <= r < g2.len() && r != top ==> #[trigger] g2[r] == g1[r]);
    assert(lined.len() == height && forall|r: int|
        0 <= r < lined.len() ==> (#[trigger] lined[r]).len() == width);

    // The label rectangle's interior misses the loop's top and bottom rows.
    let fits = crate::canvas::labelled_line_fits(a, b, e.2.len() as int, width, height);
    assert(fits);
    assert(lrect.top == top + 1 && lrect.bottom == bot - 1);
    assert(lrect.right < width);
    crate::canvas::lemma_label_grid_frame(
        lined,
        lrect,
        e.2,
        0,
        lrect.top + 1,
        lrect.left + 1,
        false,
    );
    assert(g3.len() == height);
    assert(forall|r: int| 0 <= r < g3.len() ==> (#[trigger] g3[r]).len() == width);

    // Top row of the loop.
    assert(g3[top][loop_col] == lined[top][loop_col]);
    assert(lined[top][loop_col] == g2[top][loop_col]);
    assert(g2[top][loop_col] == '┐');
    assert forall|j: int| c < j < loop_col implies gd[top][j] == '─' by {
        assert(g1[top][j] == '─');
        assert(g2[top] == g1[top].update(loop_col, '┐'));
        assert(g2[top][j] == '─');
        assert(lined[top][j] == g2[top][j]);
        assert(g3[top][j] == lined[top][j]);
        assert(g4[top] == g3[top]) by {
            assert(line_grid(g3, b, ((bot as usize), ((c + 1) as usize)), true)[top] == g3[top]);
        }
        assert(gd[top][j] == g4[top][j]);
    }
    assert(gd[top][loop_col] == g3[top][loop_col]) by {
        assert(g4[top] == g3[top]) by {
            assert(line_grid(g3, b, ((bot as usize), ((c + 1) as usize)), true)[top] == g3[top]);
        }
    }

    // Bottom row of the loop.
    let closing = line_grid(g3, b, ((bot as usize), ((c + 1) as usize)), true);
    assert(closing.len() == height && closing[bot].len() == width);
    assert(gd[bot][loop_col] == '┘') by {
        assert(gd[bot] == g4[bot].update(loop_col, '┘'));
    }
    assert(arrow_char(b, ((bot as usize), ((c + 1) as usize))) == '◄');
    assert(gd[bot][c + 1] == '◄') by {
        assert(g4[bot] == closing[bot].update(c + 1, '◄'));
        assert(gd[bot] == g4[bot].update(loop_col, '┘'));
    }
    assert forall|j: int| c + 1 < j < loop_col implies gd[bot][j] == '─' by {
        assert(closing[bot][j] == '─');
        assert(g4[bot] == closing[bot].update(c + 1, '◄'));
        assert(gd[bot] == g4[bot].update(loop_col, '┘'));
    }
}

} // verus!



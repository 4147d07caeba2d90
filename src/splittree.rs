use vstd::arithmetic::div_mod::{
    lemma_div_is_ordered, lemma_div_multiples_vanish, lemma_div_pos_is_pos, lemma_fundamental_div_mod,
};
use vstd::prelude::*;

use crate::geometry::{BufferPosition, Orientation, Rect, Size};

verus! {

/// What a border cell shows: a vertical line, a horizontal line, or nothing.
#[derive(Debug, Clone, Copy, PartialEq, Eq, Structural)]
pub struct BorderInfo {
    pub in_vertical_border: bool,
    pub in_horizontal_border: bool,
}

pub open spec fn no_border() -> BorderInfo {
    BorderInfo { in_vertical_border: false, in_horizontal_border: false }
}

impl Default for BorderInfo {
    fn default() -> (r: BorderInfo)
        ensures
            r == no_border(),
    {
        BorderInfo { in_vertical_border: false, in_horizontal_border: false }
    }
}

/// A grid of border flags, one row after the other.
pub struct BorderMap(pub Vec<Vec<BorderInfo>>);

impl BorderMap {
    pub open spec fn rows(&self) -> int {
        self.0@.len() as int
    }

    pub open spec fn cols(&self) -> int {
        if self.0@.len() > 0 {
            self.0@[0]@.len() as int
        } else {
            0
        }
    }

    /// The cell in row `r` and column `c`.
    pub open spec fn cell(&self, r: int, c: int) -> BorderInfo {
        self.0@[r]@[c]
    }

    /// Every row has the same length, and both dimensions fit a `u16`.
    pub open spec fn wf(&self) -> bool {
        &&& self.rows() <= u16::MAX
        &&& self.cols() <= u16::MAX
        &&& forall|r: int| 0 <= r < self.rows() ==> (#[trigger] self.0@[r])@.len() == self.cols()
    }

    /// The grid has the dimensions of `size`.
    pub open spec fn has_size(&self, size: Size) -> bool {
        &&& self.wf()
        &&& self.rows() == size.h
        &&& (size.h > 0 ==> self.cols() == size.w)
    }

    /// A grid of `size` without any border.
    pub fn new(size: Size) -> (r: Self)
        ensures
            r.has_size(size),
            forall|y: int, x: int| 0 <= y < size.h && 0 <= x < size.w ==> r.cell(y, x) == no_border(),
    {
        let mut rows: Vec<Vec<BorderInfo>> = Vec::new();
        let mut y: u16 = 0;
        while y < size.h
            invariant
                y <= size.h,
                rows@.len() == y,
                forall|r: int| 0 <= r < y ==> (#[trigger] rows@[r])@.len() == size.w,
                forall|r: int, c: int| 0 <= r < y && 0 <= c < size.w ==> rows@[r]@[c] == no_border(),
            decreases size.h - y,
        {
            let mut row: Vec<BorderInfo> = Vec::new();
            let mut x: u16 = 0;
            while x < size.w
                invariant
                    x <= size.w,
                    row@.len() == x,
                    forall|c: int| 0 <= c < x ==> row@[c] == no_border(),
                decreases size.w - x,
            {
                row.push(BorderInfo::default());
                x += 1;
            }
            rows.push(row);
            y += 1;
        }
        BorderMap(rows)
    }

    /// The dimensions of the grid.
    pub fn size(&self) -> (r: Size)
        requires
            self.wf(),
        ensures
            r.h == self.rows(),
            r.w == self.cols(),
    {
        let h = self.0.len() as u16;
        let w = if h > 0 {
            self.0[0].len() as u16
        } else {
            0
        };
        Size { w, h }
    }

    /// Sets the vertical flag on `len` cells going down from `pos`.
    pub fn add_vertical(&mut self, pos: BufferPosition, len: u16)
        requires
            old(self).wf(),
            pos.row + len <= old(self).rows(),
            pos.col < old(self).cols(),
        ensures
            final(self).wf(),
            final(self).rows() == old(self).rows(),
            final(self).cols() == old(self).cols(),
            forall|y: int, x: int|
                0 <= y < old(self).rows() && 0 <= x < old(self).cols() ==> #[trigger] final(self).cell(y, x)
                    == if x == pos.col && pos.row <= y < pos.row + len {
                    BorderInfo { in_vertical_border: true, ..old(self).cell(y, x) }
                } else {
                    old(self).cell(y, x)
                },
    {
        let mut i: u16 = 0;
        while i < len
            invariant
                i <= len,
                self.wf(),
                pos.row + len <= self.rows(),
                pos.col < self.cols(),
                self.rows() == old(self).rows(),
                self.cols() == old(self).cols(),
                forall|y: int, x: int|
                    0 <= y < old(self).rows() && 0 <= x < old(self).cols() ==> #[trigger] self.cell(y, x)
                        == if x == pos.col && pos.row <= y < pos.row + i {
                        BorderInfo { in_vertical_border: true, ..old(self).cell(y, x) }
                    } else {
                        old(self).cell(y, x)
                    },
            decreases len - i,
        {
            let r = (pos.row + i) as usize;
            let c = pos.col as usize;
            let ghost before = *self;
            let mut cell = self.0[r][c];
            cell.in_vertical_border = true;
            self.0[r][c] = cell;
            assert forall|y: int, x: int|
                0 <= y < old(self).rows() && 0 <= x < old(self).cols() implies #[trigger] self.cell(y, x)
                    == if x == pos.col && pos.row <= y < pos.row + i + 1 {
                    BorderInfo { in_vertical_border: true, ..old(self).cell(y, x) }
                } else {
                    old(self).cell(y, x)
                } by {
                assert(before.cell(y, x) == before.0@[y]@[x]);
                if y != r {
                    assert(self.0@[y] == before.0@[y]);
                }
            }
            assert forall|y: int| 0 <= y < self.rows() implies (#[trigger] self.0@[y])@.len() == self.cols() by {
                assert(before.0@[y]@.len() == before.cols());
                if self.rows() > 0 {
                    assert(before.0@[0]@.len() == before.cols());
                }
            }
            i += 1;
        }
    }

    /// Sets the horizontal flag on `len` cells going right from `pos`.
    pub fn add_horizontal(&mut self, pos: BufferPosition, len: u16)
        requires
            old(self).wf(),
            pos.row < old(self).rows(),
            pos.col + len <= old(self).cols(),
        ensures
            final(self).wf(),
            final(self).rows() == old(self).rows(),
            final(self).cols() == old(self).cols(),
            forall|y: int, x: int|
                0 <= y < old(self).rows() && 0 <= x < old(self).cols() ==> #[trigger] final(self).cell(y, x)
                    == if y == pos.row && pos.col <= x < pos.col + len {
                    BorderInfo { in_horizontal_border: true, ..old(self).cell(y, x) }
                } else {
                    old(self).cell(y, x)
                },
    {
        let mut i: u16 = 0;
        while i < len
            invariant
                i <= len,
                self.wf(),
                pos.row < self.rows(),
                pos.col + len <= self.cols(),
                self.rows() == old(self).rows(),
                self.cols() == old(self).cols(),
                forall|y: int, x: int|
                    0 <= y < old(self).rows() && 0 <= x < old(self).cols() ==> #[trigger] self.cell(y, x)
                        == if y == pos.row && pos.col <= x < pos.col + i {
                        BorderInfo { in_horizontal_border: true, ..old(self).cell(y, x) }
                    } else {
                        old(self).cell(y, x)
                    },
            decreases len - i,
        {
            let r = pos.row as usize;
            let c = (pos.col + i) as usize;
            let ghost before = *self;
            let mut cell = self.0[r][c];
            cell.in_horizontal_border = true;
            self.0[r][c] = cell;
            assert forall|y: int, x: int|
                0 <= y < old(self).rows() && 0 <= x < old(self).cols() implies #[trigger] self.cell(y, x)
                    == if y == pos.row && pos.col <= x < pos.col + i + 1 {
                    BorderInfo { in_horizontal_border: true, ..old(self).cell(y, x) }
                } else {
                    old(self).cell(y, x)
                } by {
                assert(before.cell(y, x) == before.0@[y]@[x]);
                if y != r {
                    assert(self.0@[y] == before.0@[y]);
                }
            }
            assert forall|y: int| 0 <= y < self.rows() implies (#[trigger] self.0@[y])@.len() == self.cols() by {
                assert(before.0@[y]@.len() == before.cols());
                if self.rows() > 0 {
                    assert(before.0@[0]@.len() == before.cols());
                }
            }
            i += 1;
        }
    }

    /// Copies `inner` into this grid with its top-left cell at `pos`.
    pub fn update(&mut self, inner: BorderMap, pos: BufferPosition)
        requires
            old(self).wf(),
            inner.wf(),
            pos.row + inner.rows() <= old(self).rows(),
            pos.col + inner.cols() <= old(self).cols(),
        ensures
            final(self).wf(),
            final(self).rows() == old(self).rows(),
            final(self).cols() == old(self).cols(),
            forall|y: int, x: int|
                0 <= y < old(self).rows() && 0 <= x < old(self).cols() ==> #[trigger] final(self).cell(y, x)
                    == if pos.row <= y < pos.row + inner.rows() && pos.col <= x < pos.col
                    + inner.cols() {
                    inner.cell(y - pos.row, x - pos.col)
                } else {
                    old(self).cell(y, x)
                },
    {
        let inner_size = inner.size();
        let mut row: u16 = 0;
        while row < inner_size.h
            invariant
                row <= inner_size.h,
                inner_size.h == inner.rows(),
                inner_size.w == inner.cols(),
                inner.wf(),
                self.wf(),
                pos.row + inner.rows() <= self.rows(),
                pos.col + inner.cols() <= self.cols(),
                self.rows() == old(self).rows(),
                self.cols() == old(self).cols(),
                forall|y: int, x: int|
                    0 <= y < old(self).rows() && 0 <= x < old(self).cols() ==> #[trigger] self.cell(y, x)
                        == if pos.row <= y < pos.row + row && pos.col <= x < pos.col + inner.cols() {
                        inner.cell(y - pos.row, x - pos.col)
                    } else {
                        old(self).cell(y, x)
                    },
            decreases inner_size.h - row,
        {
            let r = (row + pos.row) as usize;
            let ghost before = *self;
            let mut col: u16 = 0;
            while col < inner_size.w
                invariant
                    col <= inner_size.w,
                    inner_size.w == inner.cols(),
                    inner_size.h == inner.rows(),
                    row < inner.rows(),
                    r == row + pos.row,
                    inner.wf(),
                    self.wf(),
                    self.rows() == before.rows(),
                    self.cols() == before.cols(),
                    pos.row + inner.rows() <= self.rows(),
                    pos.col + inner.cols() <= self.cols(),
                    forall|y: int, x: int|
                        0 <= y < before.rows() && 0 <= x < before.cols() ==> #[trigger] self.cell(y, x)
                            == if y == r && pos.col <= x < pos.col + col {
                            inner.cell(row as int, x - pos.col)
                        } else {
                            before.cell(y, x)
                        },
                decreases inner_size.w - col,
            {
                let v = inner.0[row as usize][col as usize];
                let ghost b2 = *self;
                self.0[r][(col + pos.col) as usize] = v;
                assert forall|y: int, x: int|
                    0 <= y < before.rows() && 0 <= x < before.cols() implies #[trigger] self.cell(y, x)
                        == if y == r && pos.col <= x < pos.col + col + 1 {
                        inner.cell(row as int, x - pos.col)
                    } else {
                        before.cell(y, x)
                    } by {
                    assert(b2.cell(y, x) == b2.0@[y]@[x]);
                    if y != r {
                        assert(self.0@[y] == b2.0@[y]);
                    }
                }
                assert forall|y: int| 0 <= y < self.rows() implies (#[trigger] self.0@[y])@.len() == self.cols() by {
                    assert(b2.0@[y]@.len() == b2.cols());
                    if self.rows() > 0 {
                        assert(b2.0@[0]@.len() == b2.cols());
                    }
                }
                col += 1;
            }
            row += 1;
        }
    }
}


/// How much room a child of a split asks for along the split's axis.
#[derive(Debug, Clone, Copy, PartialEq, Eq, Structural)]
pub enum SplitSize {
    /// A share of the room left after the fixed children, by weight.
    Proportion(u16),
    /// A fixed number of cells.
    Fixed(u16),
}

/// What a child of a split holds: a pane, named by its surface number, or a
/// nested split.
pub enum SplitContent {
    Leaf(usize),
    Branch(Split),
}

/// One layout node: children laid out along one axis, each with its size.
pub struct Split {
    pub sizes: Vec<SplitSize>,
    pub content: Vec<SplitContent>,
}

/// The layout of the whole window: a split and the axis of its top level.
pub struct SplitTree {
    pub root: Split,
    pub top_orientation: Orientation,
}

/// The outcome of a layout: the rectangle of each pane, with its surface
/// number, and the border flags of the laid-out area.
pub struct SplitMap {
    pub rects: Vec<(Rect, usize)>,
    pub border_map: BorderMap,
}

/// The room along the axis of `o`.
pub open spec fn axis_len(size: Size, o: Orientation) -> int {
    match o {
        Orientation::Horizontal => size.w as int,
        Orientation::Vertical => size.h as int,
    }
}

/// The room across the axis of `o`.
pub open spec fn cross_len(size: Size, o: Orientation) -> int {
    match o {
        Orientation::Horizontal => size.h as int,
        Orientation::Vertical => size.w as int,
    }
}

/// Every child but the first is preceded by a separator cell.
pub open spec fn sep(i: int) -> int {
    if i > 0 {
        1
    } else {
        0
    }
}

pub open spec fn fixed_part(sizes: Seq<SplitSize>, i: int) -> int {
    match sizes[i] {
        SplitSize::Fixed(x) => x + sep(i),
        SplitSize::Proportion(_) => 0,
    }
}

/// The room that the fixed children among the first `k` take, separators
/// included.
pub open spec fn fixed_sum(sizes: Seq<SplitSize>, k: int) -> int
    decreases k,
{
    if k <= 0 {
        0
    } else {
        fixed_sum(sizes, k - 1) + fixed_part(sizes, k - 1)
    }
}

pub open spec fn weight(sizes: Seq<SplitSize>, i: int) -> int {
    match sizes[i] {
        SplitSize::Proportion(w) => w as int,
        SplitSize::Fixed(_) => 0,
    }
}

/// The sum of the weights of the first `k` children.
pub open spec fn weight_sum(sizes: Seq<SplitSize>, k: int) -> int
    decreases k,
{
    if k <= 0 {
        0
    } else {
        weight_sum(sizes, k - 1) + weight(sizes, k - 1)
    }
}

/// The last proportional child among the first `k`, or -1.
pub open spec fn last_prop(sizes: Seq<SplitSize>, k: int) -> int
    decreases k,
{
    if k <= 0 {
        -1
    } else if sizes[k - 1] is Proportion {
        k - 1
    } else {
        last_prop(sizes, k - 1)
    }
}

/// The room along the axis that is left for the proportional children.
pub open spec fn remaining(sizes: Seq<SplitSize>, axis: int) -> int {
    axis - fixed_sum(sizes, sizes.len() as int)
}

/// The rounded-down share of child `i` of the room `rem`.
pub open spec fn share(sizes: Seq<SplitSize>, i: int, rem: int) -> int {
    if sizes[i] is Proportion {
        rem * weight(sizes, i) / weight_sum(sizes, sizes.len() as int)
    } else {
        0
    }
}

/// The shares of the first `k` children.
pub open spec fn share_sum(sizes: Seq<SplitSize>, k: int, rem: int) -> int
    decreases k,
{
    if k <= 0 {
        0
    } else {
        share_sum(sizes, k - 1, rem) + share(sizes, k - 1, rem)
    }
}

/// The room along the axis that child `i` takes, its separator included:
/// a fixed child its size, a proportional child its share, and the last
/// proportional child all that the shares before it leave over.
pub open spec fn extent(sizes: Seq<SplitSize>, i: int, axis: int) -> int {
    let rem = remaining(sizes, axis);
    match sizes[i] {
        SplitSize::Fixed(x) => x + sep(i),
        SplitSize::Proportion(_) => if i == last_prop(sizes, sizes.len() as int) {
            rem - share_sum(sizes, i, rem)
        } else {
            share(sizes, i, rem)
        },
    }
}

/// Where child `i` starts along the axis, relative to the split's start.
pub open spec fn offset(sizes: Seq<SplitSize>, i: int, axis: int) -> int
    decreases i,
{
    if i <= 0 {
        0
    } else {
        offset(sizes, i - 1, axis) + extent(sizes, i - 1, axis)
    }
}

/// The rectangle of child `i` of a split laid out in `r` along `o`, without
/// its separator.
pub open spec fn child_rect(r: Rect, o: Orientation, sizes: Seq<SplitSize>, i: int) -> Rect {
    let axis = axis_len(r.size, o);
    let a = offset(sizes, i, axis) + sep(i);
    let len = extent(sizes, i, axis) - sep(i);
    match o {
        Orientation::Horizontal => Rect {
            pos: BufferPosition { row: r.pos.row, col: (r.pos.col + a) as u16 },
            size: Size { w: len as u16, h: r.size.h },
        },
        Orientation::Vertical => Rect {
            pos: BufferPosition { row: (r.pos.row + a) as u16, col: r.pos.col },
            size: Size { w: r.size.w, h: len as u16 },
        },
    }
}

/// Child `i` gets at least the minimum size on both axes.
pub open spec fn child_room_ok(r: Rect, o: Orientation, sizes: Seq<SplitSize>, i: int, min: Size) -> bool {
    &&& extent(sizes, i, axis_len(r.size, o)) - sep(i) >= axis_len(min, o)
    &&& cross_len(r.size, o) >= cross_len(min, o)
}

/// The rectangle lies within the range of cell coordinates.
pub open spec fn rect_in_grid(r: Rect) -> bool {
    &&& r.pos.row + r.size.h <= u16::MAX
    &&& r.pos.col + r.size.w <= u16::MAX
}

impl SplitContent {
    pub open spec fn is_wf(&self) -> bool
        decreases self,
    {
        match self {
            SplitContent::Leaf(_) => true,
            SplitContent::Branch(b) => b.is_wf(),
        }
    }
}

impl Split {
    pub open spec fn sizes_view(&self) -> Seq<SplitSize> {
        self.sizes@
    }

    pub open spec fn content_view(&self) -> Seq<SplitContent> {
        self.content@
    }

    /// At least one child, as many sizes as children, a positive total
    /// weight where a child is proportional, and the same for nested splits.
    pub open spec fn is_wf(&self) -> bool
        decreases self,
    {
        &&& self.sizes@.len() == self.content@.len()
        &&& self.sizes@.len() >= 1
        &&& last_prop(self.sizes@, self.sizes@.len() as int) >= 0 ==> weight_sum(
            self.sizes@,
            self.sizes@.len() as int,
        ) > 0
        &&& forall|i: int|
            0 <= i < self.content@.len() ==> (#[trigger] self.content@[i]).is_wf()
    }
}


/// The coordinate of the cell (`y`, `x`) along the axis of `o`.
pub open spec fn along(o: Orientation, y: int, x: int) -> int {
    match o {
        Orientation::Horizontal => x,
        Orientation::Vertical => y,
    }
}

/// The flag of a separator between children laid out along `o`.
pub open spec fn separator_flag(o: Orientation) -> BorderInfo {
    match o {
        Orientation::Horizontal => BorderInfo { in_vertical_border: true, in_horizontal_border: false },
        Orientation::Vertical => BorderInfo { in_vertical_border: false, in_horizontal_border: true },
    }
}

impl Split {
    /// Laid out in `r` along `o`, the split and every nested split give each
    /// child at least `min` cells on both axes, and the fixed children fit.
    pub open spec fn fits(&self, r: Rect, o: Orientation, min: Size) -> bool
        decreases self,
    {
        &&& fixed_sum(self.sizes@, self.sizes@.len() as int) <= axis_len(r.size, o)
        &&& forall|i: int|
            0 <= i < self.sizes@.len() ==> child_room_ok(r, o, self.sizes@, i, min)
        &&& forall|i: int|
            0 <= i < self.content@.len() ==> match #[trigger] self.content@[i] {
                SplitContent::Leaf(_) => true,
                SplitContent::Branch(b) => b.fits(child_rect(r, o, self.sizes@, i), o.flipped(), min),
            }
    }

    /// The panes of the split laid out in `r` along `o`, in the order of the
    /// tree, each with its rectangle.
    pub open spec fn leaves(&self, r: Rect, o: Orientation) -> Seq<(Rect, usize)>
        decreases self, self.content_view().len() + 1,
    {
        self.leaves_from(r, o, 0)
    }

    /// The panes of children `i` and after.
    pub open spec fn leaves_from(&self, r: Rect, o: Orientation, i: int) -> Seq<(Rect, usize)>
        decreases self, self.content_view().len() - i,
    {
        if i < 0 || i >= self.content@.len() {
            Seq::empty()
        } else {
            let cr = child_rect(r, o, self.sizes@, i);
            let here = match self.content@[i] {
                SplitContent::Leaf(id) => seq![(cr, id)],
                SplitContent::Branch(b) => b.leaves(cr, o.flipped()),
            };
            here + self.leaves_from(r, o, i + 1)
        }
    }

    /// The border flags of the cell (`y`, `x`) of `r` when the split is laid
    /// out there along `o`: the separator before every child but the first
    /// spans the whole of `r` across the axis, and nested splits draw theirs.
    pub open spec fn border_at(&self, r: Rect, o: Orientation, y: int, x: int) -> BorderInfo
        decreases self, self.content_view().len() + 1,
    {
        self.border_from(r, o, y, x, 0)
    }

    /// The border flags of the cell, looked up from child `i` on.
    pub open spec fn border_from(&self, r: Rect, o: Orientation, y: int, x: int, i: int) -> BorderInfo
        decreases self, self.content_view().len() - i,
    {
        if i < 0 || i >= self.content@.len() {
            no_border()
        } else {
            let axis = axis_len(r.size, o);
            let a = along(o, y, x) - along(o, r.pos.row as int, r.pos.col as int);
            let start = offset(self.sizes@, i, axis);
            if start <= a < start + extent(self.sizes@, i, axis) {
                if i > 0 && a == start {
                    separator_flag(o)
                } else {
                    match self.content@[i] {
                        SplitContent::Leaf(_) => no_border(),
                        SplitContent::Branch(b) => b.border_at(
                            child_rect(r, o, self.sizes@, i),
                            o.flipped(),
                            y,
                            x,
                        ),
                    }
                }
            } else {
                self.border_from(r, o, y, x, i + 1)
            }
        }
    }
}

proof fn lemma_fixed_sum_mono(sizes: Seq<SplitSize>, i: int, j: int)
    requires
        0 <= i <= j <= sizes.len(),
    ensures
        0 <= fixed_sum(sizes, i) <= fixed_sum(sizes, j),
    decreases j,
{
    if i < j {
        lemma_fixed_sum_mono(sizes, i, j - 1);
    } else if j > 0 {
        lemma_fixed_sum_mono(sizes, 0, j - 1);
    }
}

proof fn lemma_weight_sum_mono(sizes: Seq<SplitSize>, i: int, j: int)
    requires
        0 <= i <= j <= sizes.len(),
    ensures
        0 <= weight_sum(sizes, i) <= weight_sum(sizes, j),
    decreases j,
{
    if i < j {
        lemma_weight_sum_mono(sizes, i, j - 1);
    } else if j > 0 {
        lemma_weight_sum_mono(sizes, 0, j - 1);
    }
}

proof fn lemma_floor_sum(a: int, b: int, d: int)
    requires
        0 <= a,
        0 <= b,
        0 < d,
    ensures
        a / d + b / d <= (a + b) / d,
{
    lemma_fundamental_div_mod(a, d);
    lemma_fundamental_div_mod(b, d);
    let q = a / d + b / d;
    assert(a % d >= 0 && b % d >= 0) by {
        vstd::arithmetic::div_mod::lemma_mod_bound(a, d);
        vstd::arithmetic::div_mod::lemma_mod_bound(b, d);
    }
    assert(d * q <= a + b) by (nonlinear_arith)
        requires
            a == d * (a / d) + (a % d),
            b == d * (b / d) + (b % d),
            a % d >= 0,
            b % d >= 0,
            q == a / d + b / d,
    ;
    lemma_div_is_ordered(d * q, a + b, d);
    lemma_div_multiples_vanish(q, d);
}

/// The shares of the first `k` children add up to no more than `rem`.
proof fn lemma_share_sum_bound(sizes: Seq<SplitSize>, k: int, rem: int)
    requires
        0 <= k <= sizes.len(),
        0 <= rem,
        weight_sum(sizes, sizes.len() as int) > 0,
    ensures
        0 <= share_sum(sizes, k, rem) <= rem * weight_sum(sizes, k) / weight_sum(sizes, sizes.len() as int),
        rem * weight_sum(sizes, k) / weight_sum(sizes, sizes.len() as int) <= rem,
    decreases k,
{
    let w = weight_sum(sizes, sizes.len() as int);
    lemma_weight_sum_mono(sizes, k, sizes.len() as int);
    if k > 0 {
        lemma_share_sum_bound(sizes, k - 1, rem);
        lemma_weight_sum_mono(sizes, k - 1, sizes.len() as int);
        let a = rem * weight_sum(sizes, k - 1);
        let b = rem * weight(sizes, k - 1);
        assert(weight(sizes, k - 1) >= 0);
        assert(a >= 0 && b >= 0) by (nonlinear_arith)
            requires
                rem >= 0,
                weight_sum(sizes, k - 1) >= 0,
                weight(sizes, k - 1) >= 0,
                a == rem * weight_sum(sizes, k - 1),
                b == rem * weight(sizes, k - 1),
        ;
        lemma_floor_sum(a, b, w);
        assert(a + b == rem * weight_sum(sizes, k)) by (nonlinear_arith)
            requires
                a == rem * weight_sum(sizes, k - 1),
                b == rem * weight(sizes, k - 1),
                weight_sum(sizes, k) == weight_sum(sizes, k - 1) + weight(sizes, k - 1),
        ;
        if sizes[k - 1] is Proportion {
            assert(share(sizes, k - 1, rem) == b / w);
        } else {
            assert(share(sizes, k - 1, rem) == 0);
        }
        lemma_div_pos_is_pos(b, w);
    }
    assert(rem * weight_sum(sizes, k) <= rem * w) by (nonlinear_arith)
        requires
            rem >= 0,
            weight_sum(sizes, k) <= w,
    ;
    assert(rem * weight_sum(sizes, k) >= 0) by (nonlinear_arith)
        requires
            rem >= 0,
            weight_sum(sizes, k) >= 0,
    ;
    lemma_div_is_ordered(rem * weight_sum(sizes, k), rem * w, w);
    vstd::arithmetic::div_mod::lemma_div_by_multiple(rem, w);
    assert(rem * w == w * rem) by (nonlinear_arith);
    lemma_div_multiples_vanish(rem, w);
}

proof fn lemma_last_prop(sizes: Seq<SplitSize>, k: int)
    requires
        0 <= k <= sizes.len(),
    ensures
        -1 <= last_prop(sizes, k) < k,
        last_prop(sizes, k) >= 0 ==> sizes[last_prop(sizes, k)] is Proportion,
        forall|j: int| last_prop(sizes, k) < j < k ==> sizes[j] is Fixed,
    decreases k,
{
    if k > 0 {
        lemma_last_prop(sizes, k - 1);
    }
}

/// Along the axis, the children before `k` take their fixed room plus their
/// shares, and from the last proportional child on they take all the room
/// that the fixed children leave.
proof fn lemma_offsets(sizes: Seq<SplitSize>, k: int, axis: int)
    requires
        0 <= k <= sizes.len(),
        fixed_sum(sizes, sizes.len() as int) <= axis,
        last_prop(sizes, sizes.len() as int) >= 0 ==> weight_sum(sizes, sizes.len() as int) > 0,
    ensures
        k <= last_prop(sizes, sizes.len() as int) || last_prop(sizes, sizes.len() as int) < 0 ==> offset(
            sizes,
            k,
            axis,
        ) == fixed_sum(sizes, k) + share_sum(sizes, k, remaining(sizes, axis)),
        last_prop(sizes, sizes.len() as int) < 0 ==> share_sum(sizes, k, remaining(sizes, axis)) == 0,
        0 <= last_prop(sizes, sizes.len() as int) < k ==> offset(sizes, k, axis) == fixed_sum(sizes, k)
            + remaining(sizes, axis),
        forall|j: int| 0 <= j < k ==> extent(sizes, j, axis) >= 0,
        0 <= offset(sizes, k, axis) <= fixed_sum(sizes, k) + remaining(sizes, axis),
        offset(sizes, k, axis) <= axis,
    decreases k,
{
    let n = sizes.len() as int;
    let rem = remaining(sizes, axis);
    let lp = last_prop(sizes, n);
    lemma_last_prop(sizes, n);
    lemma_fixed_sum_mono(sizes, k, n);
    if k > 0 {
        lemma_offsets(sizes, k - 1, axis);
        let j = k - 1;
        if lp >= 0 {
            lemma_share_sum_bound(sizes, j, rem);
            lemma_share_sum_bound(sizes, k, rem);
        } else {
            assert(sizes[j] is Fixed);
            assert(share(sizes, j, rem) == 0);
        }
        if sizes[j] is Proportion && j != lp {
            let w = weight_sum(sizes, n);
            assert(rem * weight(sizes, j) >= 0) by (nonlinear_arith)
                requires
                    rem >= 0,
                    weight(sizes, j) >= 0,
            ;
            lemma_div_pos_is_pos(rem * weight(sizes, j), w);
        }
        if j > lp {
            assert(sizes[j] is Fixed);
            assert(share(sizes, j, rem) == 0);
            assert(extent(sizes, j, axis) == fixed_part(sizes, j));
        }
        if j == lp {
            assert(fixed_part(sizes, j) == 0);
        }
        if j < lp && sizes[j] is Fixed {
            assert(extent(sizes, j, axis) == fixed_part(sizes, j));
        }
        assert(extent(sizes, j, axis) >= 0);
    }
}

proof fn lemma_offset_mono(sizes: Seq<SplitSize>, i: int, j: int, axis: int)
    requires
        0 <= i <= j <= sizes.len(),
        forall|k: int| 0 <= k < sizes.len() ==> extent(sizes, k, axis) >= 0,
    ensures
        offset(sizes, i, axis) <= offset(sizes, j, axis),
    decreases j - i,
{
    if i < j {
        lemma_offset_mono(sizes, i, j - 1, axis);
    }
}

impl Split {
    /// Looking up a cell from child `i` on gives what looking it up from a
    /// later child `j` gives, when the cell lies at or after child `j`.
    proof fn lemma_border_skip(&self, r: Rect, o: Orientation, y: int, x: int, i: int, j: int)
        requires
            0 <= i <= j <= self.sizes@.len(),
            self.sizes@.len() == self.content@.len(),
            forall|k: int| 0 <= k < self.sizes@.len() ==> extent(self.sizes@, k, axis_len(r.size, o)) >= 0,
            along(o, y, x) - along(o, r.pos.row as int, r.pos.col as int) >= offset(
                self.sizes@,
                j,
                axis_len(r.size, o),
            ),
        ensures
            self.border_from(r, o, y, x, i) == self.border_from(r, o, y, x, j),
        decreases j - i,
    {
        if i < j {
            lemma_offset_mono(self.sizes@, i + 1, j, axis_len(r.size, o));
            self.lemma_border_skip(r, o, y, x, i + 1, j);
        }
    }

    pub fn new(sizes: Vec<SplitSize>, content: Vec<SplitContent>) -> (r: Split)
        ensures
            r.sizes_view() == sizes@,
            r.content_view() == content@,
            sizes@.len() == content@.len() && sizes@.len() >= 1 && (last_prop(sizes@, sizes@.len() as int)
                >= 0 ==> weight_sum(sizes@, sizes@.len() as int) > 0) && (forall|i: int|
                0 <= i < content@.len() ==> (#[trigger] content@[i]).is_wf()) ==> r.is_wf(),
    {
        Split { sizes, content }
    }

    #[verifier::spinoff_prover]
    #[verifier::rlimit(50)]
    /// Lays the split out in `rect` along `orientation`. Fixed children get
    /// their size, the others share what is left by weight, rounded down, and
    /// the last proportional child takes what the rounding leaves over. Every
    /// child but the first gives up its first cell along the axis to a
    /// separator. Nested splits are laid out across. There is no layout when
    /// the fixed children do not fit or some child would be smaller than
    /// `min_split_size`.
    pub fn compute_rects(&self, rect: Rect, min_split_size: Size, orientation: Orientation) -> (r:
        Option<SplitMap>)
        requires
            self.is_wf(),
            rect_in_grid(rect),
        ensures
            r is Some <==> self.fits(rect, orientation, min_split_size),
            r matches Some(m) ==> m.rects@ == self.leaves(rect, orientation),
            r matches Some(m) ==> m.border_map.has_size(rect.size),
            r matches Some(m) ==> forall|y: int, x: int|
                0 <= y < rect.size.h && 0 <= x < rect.size.w ==> #[trigger] m.border_map.cell(y, x)
                    == self.border_at(rect, orientation, rect.pos.row + y, rect.pos.col + x),
        decreases self,
    {
        let n = self.sizes.len();
        let ghost sizes = self.sizes@;
        let ghost o = orientation;
        let axis: u16 = match orientation {
            Orientation::Horizontal => rect.size.w,
            Orientation::Vertical => rect.size.h,
        };
        let cross: u16 = match orientation {
            Orientation::Horizontal => rect.size.h,
            Orientation::Vertical => rect.size.w,
        };
        let axis_min: u16 = match orientation {
            Orientation::Horizontal => min_split_size.w,
            Orientation::Vertical => min_split_size.h,
        };
        let cross_min: u16 = match orientation {
            Orientation::Horizontal => min_split_size.h,
            Orientation::Vertical => min_split_size.w,
        };
        assert(axis == axis_len(rect.size, o) && cross == cross_len(rect.size, o));
        let mut fixed_total: u32 = 0;
        let mut wsum: u128 = 0;
        let mut last: usize = n;
        let mut i: usize = 0;
        while i < n
            invariant
                n == sizes.len(),
                sizes == self.sizes@,
                i <= n,
                o == orientation,
                axis == axis_len(rect.size, o),
                fixed_total == fixed_sum(sizes, i as int),
                fixed_total <= axis,
                wsum == weight_sum(sizes, i as int),
                wsum <= 65535 * i,
                last == (if last_prop(sizes, i as int) < 0 {
                    n as int
                } else {
                    last_prop(sizes, i as int)
                }),
            decreases n - i,
        {
            match self.sizes[i] {
                SplitSize::Fixed(x) => {
                    let add: u32 = if i > 0 {
                        x as u32 + 1
                    } else {
                        x as u32
                    };
                    fixed_total = fixed_total + add;
                    if fixed_total > axis as u32 {
                        proof {
                            assert(fixed_total == fixed_sum(sizes, i + 1));
                            lemma_fixed_sum_mono(sizes, i + 1, n as int);
                            assert(fixed_sum(sizes, n as int) > axis_len(rect.size, o));
                        }
                        return None;
                    }
                },
                SplitSize::Proportion(w) => {
                    wsum = wsum + w as u128;
                    last = i;
                },
            }
            i += 1;
        }
        let rem: u32 = axis as u32 - fixed_total;
        proof {
            lemma_fixed_sum_mono(sizes, 0, n as int);
            lemma_offsets(sizes, n as int, axis as int);
            lemma_last_prop(sizes, n as int);
            if last < n {
                lemma_share_sum_bound(sizes, n as int, rem as int);
            }
        }
        let ghost lp = last_prop(sizes, n as int);
        let mut rects: Vec<(Rect, usize)> = Vec::new();
        let mut border_map = BorderMap::new(rect.size);
        let mut cur: u32 = 0;
        let mut used: u32 = 0;
        let mut i: usize = 0;
        while i < n
            invariant
                n == sizes.len(),
                sizes == self.sizes@,
                self.is_wf(),
                rect_in_grid(rect),
                axis == axis_len(rect.size, o),
                cross == cross_len(rect.size, o),
                axis_min == axis_len(min_split_size, o),
                cross_min == cross_len(min_split_size, o),
                o == orientation,
                fixed_sum(sizes, n as int) <= axis,
                rem == remaining(sizes, axis as int),
                rem <= axis,
                wsum == weight_sum(sizes, n as int),
                lp == last_prop(sizes, n as int),
                last == (if lp < 0 { n as int } else { lp }),
                lp >= 0 ==> wsum > 0,
                wsum <= 65535 * n,
                forall|k: int| 0 <= k < n ==> extent(sizes, k, axis as int) >= 0,
                i <= n,
                cur == offset(sizes, i as int, axis as int),
                i <= last ==> used == share_sum(sizes, i as int, rem as int),
                forall|j: int| 0 <= j < i ==> child_room_ok(rect, o, sizes, j, min_split_size),
                forall|j: int|
                    0 <= j < i ==> match #[trigger] self.content@[j] {
                        SplitContent::Leaf(_) => true,
                        SplitContent::Branch(b) => b.fits(child_rect(rect, o, sizes, j), o.flipped(), min_split_size),
                    },
                rects@ + self.leaves_from(rect, o, i as int) == self.leaves(rect, o),
                border_map.has_size(rect.size),
                forall|y: int, x: int|
                    0 <= y < rect.size.h && 0 <= x < rect.size.w ==> #[trigger] border_map.cell(y, x) == if along(
                        o,
                        y,
                        x,
                    ) < cur {
                        self.border_at(rect, o, rect.pos.row + y, rect.pos.col + x)
                    } else {
                        no_border()
                    },
            decreases n - i,
        {
            proof {
                lemma_offsets(sizes, i + 1, axis as int);
                lemma_offsets(sizes, i as int, axis as int);
                lemma_offset_mono(sizes, i + 1, n as int, axis as int);
                lemma_offsets(sizes, n as int, axis as int);
            }
            let sep: u32 = if i > 0 {
                1
            } else {
                0
            };
            let ext: u32 = match self.sizes[i] {
                SplitSize::Fixed(x) => x as u32 + sep,
                SplitSize::Proportion(w) => {
                    if i == last {
                        proof {
                            lemma_share_sum_bound(sizes, i as int, rem as int);
                        }
                        rem - used
                    } else {
                        proof {
                            lemma_last_prop(sizes, n as int);
                        }
                        assert(lp >= 0);
                        assert(rem * w <= 65535 * 65535) by (nonlinear_arith)
                            requires
                                rem <= 65535,
                                w <= 65535,
                        ;
                        let sh = ((rem as u128 * w as u128) / wsum) as u32;
                        proof {
                            lemma_last_prop(sizes, n as int);
                            lemma_share_sum_bound(sizes, i + 1, rem as int);
                        }
                        used = used + sh;
                        sh
                    }
                },
            };
            assert(ext == extent(sizes, i as int, axis as int));
            if ext < sep + axis_min as u32 || cross < cross_min {
                assert(!child_room_ok(rect, o, sizes, i as int, min_split_size));
                return None;
            }
            let len: u16 = (ext - sep) as u16;
            let apos: u16 = (cur + sep) as u16;
            let child = match orientation {
                Orientation::Horizontal => Rect {
                    pos: BufferPosition { row: rect.pos.row, col: rect.pos.col + apos },
                    size: Size { w: len, h: rect.size.h },
                },
                Orientation::Vertical => Rect {
                    pos: BufferPosition { row: rect.pos.row + apos, col: rect.pos.col },
                    size: Size { w: rect.size.w, h: len },
                },
            };
            assert(child == child_rect(rect, o, sizes, i as int));
            let ghost map0 = border_map;
            if i > 0 && cross > 0 {
                match orientation {
                    Orientation::Horizontal => {
                        border_map.add_vertical(BufferPosition { row: 0, col: cur as u16 }, cross);
                    },
                    Orientation::Vertical => {
                        border_map.add_horizontal(BufferPosition { row: cur as u16, col: 0 }, cross);
                    },
                }
            }
            let ghost rects0 = rects@;
            assert(self.content@[i as int].is_wf());
            match &self.content[i] {
                SplitContent::Leaf(id) => {
                    rects.push((child, *id));
                },
                SplitContent::Branch(b) => {
                    match b.compute_rects(child, min_split_size, orientation.flip()) {
                        None => {
                            return None;
                        },
                        Some(m) => {
                            let SplitMap { rects: mut inner_rects, border_map: inner_map } = m;
                            if cross > 0 {
                                let local = match orientation {
                                    Orientation::Horizontal => BufferPosition { row: 0, col: apos },
                                    Orientation::Vertical => BufferPosition { row: apos, col: 0 },
                                };
                                border_map.update(inner_map, local);
                            }
                            rects.append(&mut inner_rects);
                        },
                    }
                },
            }
            proof {
                assert(rects@ + self.leaves_from(rect, o, i + 1) == self.leaves(rect, o)) by {
                    assert(rects@ + self.leaves_from(rect, o, i + 1) =~= rects0 + self.leaves_from(
                        rect,
                        o,
                        i as int,
                    ));
                }
                assert forall|y: int, x: int|
                    0 <= y < rect.size.h && 0 <= x < rect.size.w implies #[trigger] border_map.cell(y, x)
                        == if along(o, y, x) < cur + ext {
                        self.border_at(rect, o, rect.pos.row + y, rect.pos.col + x)
                    } else {
                        no_border()
                    } by {
                    let a = along(o, y, x);
                    let ay = rect.pos.row + y;
                    let ax = rect.pos.col + x;
                    assert(along(o, ay, ax) - along(o, rect.pos.row as int, rect.pos.col as int) == a);
                    if cur <= a {
                        self.lemma_border_skip(rect, o, ay, ax, 0, i as int);
                    }
                    if a >= cur + ext {
                        assert(border_map.cell(y, x) == map0.cell(y, x));
                    }
                }
            }
            cur = cur + ext;
            i += 1;
        }
        proof {
            assert(self.leaves_from(rect, o, n as int) =~= Seq::<(Rect, usize)>::empty());
            assert(rects@ =~= self.leaves(rect, o));
            assert forall|y: int, x: int|
                0 <= y < rect.size.h && 0 <= x < rect.size.w implies #[trigger] border_map.cell(y, x)
                    == self.border_at(rect, o, rect.pos.row + y, rect.pos.col + x) by {
                let ay = rect.pos.row + y;
                let ax = rect.pos.col + x;
                if along(o, y, x) >= cur {
                    self.lemma_border_skip(rect, o, ay, ax, 0, n as int);
                }
            }
        }
        Some(SplitMap { rects, border_map })
    }
}

impl SplitContent {
    pub fn is_valid(&self) -> (r: bool)
        ensures
            r == self.is_wf(),
        decreases self,
    {
        match self {
            SplitContent::Leaf(_) => true,
            SplitContent::Branch(b) => b.is_valid(),
        }
    }
}

impl Split {
    /// Whether the split can be laid out: see `is_wf`.
    pub fn is_valid(&self) -> (r: bool)
        ensures
            r == self.is_wf(),
        decreases self,
    {
        let n = self.sizes.len();
        if n == 0 || n != self.content.len() {
            return false;
        }
        let mut wsum: u128 = 0;
        let mut any_prop = false;
        let mut i: usize = 0;
        while i < n
            invariant
                n == self.sizes@.len(),
                i <= n,
                wsum == weight_sum(self.sizes@, i as int),
                wsum <= 65535 * i,
                any_prop == (last_prop(self.sizes@, i as int) >= 0),
            decreases n - i,
        {
            if let SplitSize::Proportion(w) = self.sizes[i] {
                wsum = wsum + w as u128;
                any_prop = true;
            }
            i += 1;
        }
        if any_prop && wsum == 0 {
            return false;
        }
        let mut j: usize = 0;
        while j < n
            invariant
                n == self.content@.len(),
                j <= n,
                forall|k: int| 0 <= k < j ==> (#[trigger] self.content@[k]).is_wf(),
            decreases n - j,
        {
            if !self.content[j].is_valid() {
                return false;
            }
            j += 1;
        }
        true
    }
}

/// The minimum room along the axis for child `i`: its fixed size or the
/// minimum pane size, whichever is more, and its separator.
pub open spec fn min_extent(sizes: Seq<SplitSize>, i: int, min_axis: int) -> int {
    match sizes[i] {
        SplitSize::Fixed(x) => if x >= min_axis {
            x + sep(i)
        } else {
            min_axis + sep(i)
        },
        SplitSize::Proportion(_) => min_axis + sep(i),
    }
}

/// The minimum room along the axis for the first `k` children.
pub open spec fn min_total(sizes: Seq<SplitSize>, k: int, min_axis: int) -> int
    decreases k,
{
    if k <= 0 {
        0
    } else {
        min_total(sizes, k - 1, min_axis) + min_extent(sizes, k - 1, min_axis)
    }
}

/// Where the room along the axis is less than the children's minimum sizes
/// and separators together, or the room across is less than the minimum,
/// there is no layout.
pub proof fn lemma_too_small_has_no_layout(s: &Split, r: Rect, o: Orientation, min: Size)
    requires
        s.is_wf(),
        axis_len(r.size, o) < min_total(s.sizes_view(), s.sizes_view().len() as int, axis_len(min, o))
            || cross_len(r.size, o) < cross_len(min, o),
    ensures
        !s.fits(r, o, min),
{
    let sizes = s.sizes_view();
    let n = sizes.len() as int;
    let axis = axis_len(r.size, o);
    let m = axis_len(min, o);
    if s.fits(r, o, min) {
        assert(child_room_ok(r, o, sizes, 0, min));
        lemma_offsets(sizes, n, axis);
        assert forall|k: int| 0 <= k <= n implies min_total(sizes, k, m) <= offset(sizes, k, axis) by {
            lemma_min_le_offset(s, r, o, min, k);
        }
    }
}

proof fn lemma_min_le_offset(s: &Split, r: Rect, o: Orientation, min: Size, k: int)
    requires
        s.is_wf(),
        s.fits(r, o, min),
        0 <= k <= s.sizes_view().len(),
    ensures
        min_total(s.sizes_view(), k, axis_len(min, o)) <= offset(s.sizes_view(), k, axis_len(r.size, o)),
    decreases k,
{
    if k > 0 {
        lemma_min_le_offset(s, r, o, min, k - 1);
        assert(child_room_ok(r, o, s.sizes_view(), k - 1, min));
    }
}

impl SplitTree {
    pub fn new(root: Split, top_orientation: Orientation) -> (r: SplitTree)
        ensures
            r.root_view() == root,
            r.orientation_view() == top_orientation,
    {
        SplitTree { root, top_orientation }
    }

    pub open spec fn root_view(&self) -> Split {
        self.root
    }

    pub open spec fn orientation_view(&self) -> Orientation {
        self.top_orientation
    }

    pub fn is_valid(&self) -> (r: bool)
        ensures
            r == self.root_view().is_wf(),
    {
        self.root.is_valid()
    }

    /// Lays the tree out on a terminal of `term_size` (width, height), with
    /// panes of at least one cell; none where the terminal is too small.
    pub fn compute_rects(&self, term_size: (u16, u16)) -> (r: Option<SplitMap>)
        requires
            self.root_view().is_wf(),
        ensures
            ({
                let full = Rect {
                    pos: BufferPosition { row: 0, col: 0 },
                    size: Size { w: term_size.0, h: term_size.1 },
                };
                let o = self.orientation_view();
                let min = Size { w: 1, h: 1 };
                &&& r is Some <==> self.root_view().fits(full, o, min)
                &&& r matches Some(m) ==> m.rects@ == self.root_view().leaves(full, o)
                &&& r matches Some(m) ==> m.border_map.has_size(full.size)
                &&& r matches Some(m) ==> forall|y: int, x: int|
                    0 <= y < full.size.h && 0 <= x < full.size.w ==> #[trigger] m.border_map.cell(y, x)
                        == self.root_view().border_at(full, o, y, x)
            }),
    {
        let full = Rect { pos: BufferPosition::new(0, 0), size: Size::new(term_size.0, term_size.1) };
        self.root.compute_rects(full, Size { w: 1, h: 1 }, self.top_orientation)
    }
}

/// The number of pane rectangles in `leaves` that hold the cell (`y`, `x`).
pub open spec fn count_in(leaves: Seq<(Rect, usize)>, y: int, x: int) -> nat
    decreases leaves.len(),
{
    if leaves.len() == 0 {
        0
    } else {
        count_in(leaves.drop_last(), y, x) + if leaves.last().0.contains_cell(y, x) {
            1nat
        } else {
            0nat
        }
    }
}

/// Every cell of every rectangle of `leaves` lies in `r`.
pub open spec fn all_inside(leaves: Seq<(Rect, usize)>, r: Rect) -> bool {
    forall|j: int, y: int, x: int|
        0 <= j < leaves.len() && #[trigger] leaves[j].0.contains_cell(y, x) ==> r.contains_cell(y, x)
}

proof fn lemma_count_single(cr: Rect, id: usize, y: int, x: int)
    ensures
        count_in(seq![(cr, id)], y, x) == if cr.contains_cell(y, x) {
            1nat
        } else {
            0nat
        },
{
    assert(seq![(cr, id)].drop_last() =~= Seq::<(Rect, usize)>::empty());
    assert(count_in(Seq::<(Rect, usize)>::empty(), y, x) == 0);
}

proof fn lemma_count_concat(a: Seq<(Rect, usize)>, b: Seq<(Rect, usize)>, y: int, x: int)
    ensures
        count_in(a + b, y, x) == count_in(a, y, x) + count_in(b, y, x),
    decreases b.len(),
{
    if b.len() == 0 {
        assert(a + b =~= a);
    } else {
        lemma_count_concat(a, b.drop_last(), y, x);
        assert((a + b).drop_last() =~= a + b.drop_last());
        assert((a + b).last() == b.last());
    }
}

proof fn lemma_count_outside(a: Seq<(Rect, usize)>, r: Rect, y: int, x: int)
    requires
        all_inside(a, r),
        !r.contains_cell(y, x),
    ensures
        count_in(a, y, x) == 0,
    decreases a.len(),
{
    if a.len() > 0 {
        assert(all_inside(a.drop_last(), r)) by {
            assert forall|j: int, yy: int, xx: int|
                0 <= j < a.drop_last().len() && #[trigger] a.drop_last()[j].0.contains_cell(yy, xx)
                implies r.contains_cell(yy, xx) by {
                assert(a.drop_last()[j] == a[j]);
            }
        }
        lemma_count_outside(a.drop_last(), r, y, x);
        assert(!a[a.len() - 1].0.contains_cell(y, x));
    }
}

/// Laid out in `r`, child `k` gets the cells of `r` whose coordinate along
/// the axis lies in its part, its separator left out.
proof fn lemma_child_cells(r: Rect, o: Orientation, sizes: Seq<SplitSize>, k: int, y: int, x: int)
    requires
        rect_in_grid(r),
        0 <= k < sizes.len(),
        0 <= offset(sizes, k, axis_len(r.size, o)),
        sep(k) <= extent(sizes, k, axis_len(r.size, o)),
        offset(sizes, k, axis_len(r.size, o)) + extent(sizes, k, axis_len(r.size, o)) <= axis_len(
            r.size,
            o,
        ),
    ensures
        rect_in_grid(child_rect(r, o, sizes, k)),
        child_rect(r, o, sizes, k).contains_cell(y, x) <==> ({
            let a = along(o, y, x) - along(o, r.pos.row as int, r.pos.col as int);
            let off = offset(sizes, k, axis_len(r.size, o));
            &&& r.contains_cell(y, x)
            &&& off + sep(k) <= a < off + extent(sizes, k, axis_len(r.size, o))
        }),
{
}

impl Split {
    /// Laid out in `r` along `o`, every split of the tree uses all the room
    /// along its axis: it has a proportional child, or its fixed children
    /// fill the room exactly.
    pub open spec fn fills(&self, r: Rect, o: Orientation) -> bool
        decreases self,
    {
        &&& (last_prop(self.sizes@, self.sizes@.len() as int) >= 0 || fixed_sum(
            self.sizes@,
            self.sizes@.len() as int,
        ) == axis_len(r.size, o))
        &&& forall|i: int|
            0 <= i < self.content@.len() ==> match #[trigger] self.content@[i] {
                SplitContent::Leaf(_) => true,
                SplitContent::Branch(b) => b.fills(child_rect(r, o, self.sizes@, i), o.flipped()),
            }
    }

    proof fn lemma_level_facts(&self, r: Rect, o: Orientation, min: Size)
        requires
            self.is_wf(),
            self.fits(r, o, min),
        ensures
            forall|k: int|
                0 <= k < self.sizes@.len() ==> 0 <= offset(self.sizes@, k, axis_len(r.size, o)) && sep(k)
                    <= #[trigger] extent(self.sizes@, k, axis_len(r.size, o)) && offset(
                    self.sizes@,
                    k,
                    axis_len(r.size, o),
                ) + extent(self.sizes@, k, axis_len(r.size, o)) <= axis_len(r.size, o),
            forall|k: int| 0 <= k < self.sizes@.len() ==> extent(self.sizes@, k, axis_len(r.size, o)) >= 0,
    {
        let sizes = self.sizes@;
        let axis = axis_len(r.size, o);
        let n = sizes.len() as int;
        lemma_offsets(sizes, n, axis);
        assert forall|k: int| 0 <= k < n implies 0 <= offset(sizes, k, axis) && sep(k) <= #[trigger] extent(
            sizes,
            k,
            axis,
        ) && offset(sizes, k, axis) + extent(sizes, k, axis) <= axis by {
            lemma_offsets(sizes, k, axis);
            lemma_offsets(sizes, k + 1, axis);
            assert(child_room_ok(r, o, sizes, k, min));
            assert(axis_len(min, o) >= 0);
        }
    }

    /// The panes of the split laid out in `r` lie in `r`.
    proof fn lemma_leaves_inside(&self, r: Rect, o: Orientation, min: Size)
        requires
            self.is_wf(),
            self.fits(r, o, min),
            rect_in_grid(r),
        ensures
            all_inside(self.leaves(r, o), r),
        decreases self, self.content_view().len() + 1,
    {
        self.lemma_leaves_from_inside(r, o, min, 0);
    }

    proof fn lemma_leaves_from_inside(&self, r: Rect, o: Orientation, min: Size, k: int)
        requires
            self.is_wf(),
            self.fits(r, o, min),
            rect_in_grid(r),
            0 <= k,
        ensures
            all_inside(self.leaves_from(r, o, k), r),
        decreases self, self.content_view().len() - k,
    {
        if k < self.content@.len() {
            self.lemma_level_facts(r, o, min);
            let cr = child_rect(r, o, self.sizes@, k);
            let rest = self.leaves_from(r, o, k + 1);
            self.lemma_leaves_from_inside(r, o, min, k + 1);
            let here = match self.content@[k] {
                SplitContent::Leaf(id) => seq![(cr, id)],
                SplitContent::Branch(b) => b.leaves(cr, o.flipped()),
            };
            assert(self.leaves_from(r, o, k) == here + rest);
            assert(extent(self.sizes@, k, axis_len(r.size, o)) >= sep(k));
            assert forall|yy: int, xx: int| cr.contains_cell(yy, xx) implies r.contains_cell(yy, xx) by {
                lemma_child_cells(r, o, self.sizes@, k, yy, xx);
            }
            lemma_child_cells(r, o, self.sizes@, k, 0, 0);
            match self.content@[k] {
                SplitContent::Leaf(id) => {},
                SplitContent::Branch(b) => {
                    assert(self.content@[k].is_wf());
                    b.lemma_leaves_inside(cr, o.flipped(), min);
                },
            }
            let all = here + rest;
            assert forall|j: int, y: int, x: int|
                0 <= j < all.len() && #[trigger] all[j].0.contains_cell(y, x) implies r.contains_cell(y, x) by {
                if j < here.len() {
                    assert(all[j] == here[j]);
                    assert(cr.contains_cell(y, x));
                } else {
                    assert(all[j] == rest[j - here.len()]);
                }
            }
        }
    }

    /// The child whose part along the axis holds `a`.
    proof fn lemma_find_child(&self, r: Rect, o: Orientation, min: Size, a: int, k: int) -> (i: int)
        requires
            self.is_wf(),
            self.fits(r, o, min),
            0 <= k < self.sizes@.len(),
            offset(self.sizes@, k, axis_len(r.size, o)) <= a < offset(
                self.sizes@,
                self.sizes@.len() as int,
                axis_len(r.size, o),
            ),
        ensures
            k <= i < self.sizes@.len(),
            offset(self.sizes@, i, axis_len(r.size, o)) <= a < offset(self.sizes@, i + 1, axis_len(r.size, o)),
        decreases self.sizes@.len() - k,
    {
        let axis = axis_len(r.size, o);
        if a < offset(self.sizes@, k + 1, axis) {
            k
        } else {
            self.lemma_find_child(r, o, min, a, k + 1)
        }
    }

    /// Counting the panes of children `k` and after that hold a cell of
    /// child `i`'s part: only child `i` can hold it.
    proof fn lemma_count_from(&self, r: Rect, o: Orientation, min: Size, y: int, x: int, i: int, k: int)
        requires
            self.is_wf(),
            self.fits(r, o, min),
            rect_in_grid(r),
            0 <= i < self.sizes@.len(),
            0 <= k,
            offset(self.sizes@, i, axis_len(r.size, o)) <= along(o, y, x) - along(
                o,
                r.pos.row as int,
                r.pos.col as int,
            ) < offset(self.sizes@, i + 1, axis_len(r.size, o)),
        ensures
            count_in(self.leaves_from(r, o, k), y, x) == if k <= i {
                count_in(
                    match self.content@[i] {
                        SplitContent::Leaf(id) => seq![(child_rect(r, o, self.sizes@, i), id)],
                        SplitContent::Branch(b) => b.leaves(child_rect(r, o, self.sizes@, i), o.flipped()),
                    },
                    y,
                    x,
                )
            } else {
                0
            },
        decreases self.content_view().len() - k,
    {
        let n = self.content@.len() as int;
        let axis = axis_len(r.size, o);
        if k >= n {
            assert(self.leaves_from(r, o, k) =~= Seq::<(Rect, usize)>::empty());
        } else {
            self.lemma_level_facts(r, o, min);
            self.lemma_count_from(r, o, min, y, x, i, k + 1);
            let cr = child_rect(r, o, self.sizes@, k);
            let here = match self.content@[k] {
                SplitContent::Leaf(id) => seq![(cr, id)],
                SplitContent::Branch(b) => b.leaves(cr, o.flipped()),
            };
            let rest = self.leaves_from(r, o, k + 1);
            assert(self.leaves_from(r, o, k) == here + rest);
            lemma_count_concat(here, rest, y, x);
            assert(count_in(self.leaves_from(r, o, k), y, x) == count_in(here, y, x) + count_in(rest, y, x));
            if k != i {
                lemma_child_cells(r, o, self.sizes@, k, y, x);
                lemma_child_cells(r, o, self.sizes@, k, 0, 0);
                if k < i {
                    lemma_offset_mono(self.sizes@, k + 1, i, axis);
                } else {
                    lemma_offset_mono(self.sizes@, i + 1, k, axis);
                }
                assert(!cr.contains_cell(y, x));
                match self.content@[k] {
                    SplitContent::Leaf(id) => {
                        lemma_count_single(cr, id, y, x);
                    },
                    SplitContent::Branch(b) => {
                        assert(self.content@[k].is_wf());
                        b.lemma_leaves_inside(cr, o.flipped(), min);
                        lemma_count_outside(here, cr, y, x);
                    },
                }
                assert(count_in(here, y, x) == 0);
            }
        }
    }

    /// Laid out in `r`, a tree in which no split leaves room unused covers
    /// every cell of `r` exactly once: either with a border, and then
    /// with no pane, or with exactly one pane.
    #[verifier::spinoff_prover]
    #[verifier::rlimit(60)]
    proof fn lemma_cell_covered_once(&self, r: Rect, o: Orientation, min: Size, y: int, x: int)
        requires
            self.is_wf(),
            self.fits(r, o, min),
            self.fills(r, o),
            rect_in_grid(r),
            r.contains_cell(y, x),
        ensures
            if self.border_at(r, o, y, x) != no_border() {
                count_in(self.leaves(r, o), y, x) == 0
            } else {
                count_in(self.leaves(r, o), y, x) == 1
            },
        decreases self,
    {
        let sizes = self.sizes@;
        let n = sizes.len() as int;
        let axis = axis_len(r.size, o);
        let a = along(o, y, x) - along(o, r.pos.row as int, r.pos.col as int);
        lemma_offsets(sizes, n, axis);
        lemma_offsets(sizes, 0, axis);
        self.lemma_level_facts(r, o, min);
        lemma_last_prop(sizes, n);
        assert(offset(sizes, n, axis) == axis);
        assert(0 <= a < axis);
        let i = self.lemma_find_child(r, o, min, a, 0);
        self.lemma_border_skip(r, o, y, x, 0, i);
        self.lemma_count_from(r, o, min, y, x, i, 0);
        lemma_child_cells(r, o, sizes, i, y, x);
        lemma_child_cells(r, o, sizes, i, 0, 0);
        let cr = child_rect(r, o, sizes, i);
        if i > 0 && a == offset(sizes, i, axis) {
            assert(!cr.contains_cell(y, x));
            match self.content@[i] {
                SplitContent::Leaf(id) => {
                    lemma_count_single(cr, id, y, x);
                },
                SplitContent::Branch(b) => {
                    assert(self.content@[i].is_wf());
                    b.lemma_leaves_inside(cr, o.flipped(), min);
                    lemma_count_outside(b.leaves(cr, o.flipped()), cr, y, x);
                },
            }
        } else {
            assert(cr.contains_cell(y, x));
            match self.content@[i] {
                SplitContent::Leaf(id) => {
                    lemma_count_single(cr, id, y, x);
                },
                SplitContent::Branch(b) => {
                    assert(self.content@[i].is_wf());
                    b.lemma_cell_covered_once(cr, o.flipped(), min, y, x);
                },
            }
        }
    }
}

/// Laid out in `r` without failing, a tree in which no split leaves room
/// unused tiles `r`: every cell of `r` is either a border cell
/// held by no pane, or held by exactly one pane, and no pane reaches out of
/// `r`.
pub proof fn lemma_layout_tiles(s: &Split, r: Rect, o: Orientation, min: Size)
    requires
        s.is_wf(),
        s.fits(r, o, min),
        s.fills(r, o),
        rect_in_grid(r),
    ensures
        all_inside(s.leaves(r, o), r),
        forall|y: int, x: int|
            r.contains_cell(y, x) ==> if #[trigger] s.border_at(r, o, y, x) != no_border() {
                count_in(s.leaves(r, o), y, x) == 0
            } else {
                count_in(s.leaves(r, o), y, x) == 1
            },
{
    s.lemma_leaves_inside(r, o, min);
    assert forall|y: int, x: int| r.contains_cell(y, x) implies if #[trigger] s.border_at(r, o, y, x)
        != no_border() {
        count_in(s.leaves(r, o), y, x) == 0
    } else {
        count_in(s.leaves(r, o), y, x) == 1
    } by {
        s.lemma_cell_covered_once(r, o, min, y, x);
    }
}

} // verus!

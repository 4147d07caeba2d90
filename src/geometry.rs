use vstd::prelude::*;

verus! {

/// A cell position on the terminal grid.
#[derive(Debug, Clone, Copy, PartialEq, Eq, Structural, Hash, Default, PartialOrd, Ord)]
pub struct BufferPosition {
    pub row: u16,
    pub col: u16,
}

impl BufferPosition {
    pub fn new(row: u16, col: u16) -> (r: Self)
        ensures
            r.row == row,
            r.col == col,
    {
        BufferPosition { row, col }
    }
}

/// A width and a height in cells.
#[derive(Debug, Clone, Copy, PartialEq, Eq, Structural, Hash, PartialOrd, Ord)]
pub struct Size {
    pub w: u16,
    pub h: u16,
}

impl Size {
    pub fn new(w: u16, h: u16) -> (r: Self)
        ensures
            r.w == w,
            r.h == h,
    {
        Size { w, h }
    }
}

/// A rectangle of cells: its top-left corner and its size.
#[derive(Debug, Clone, Copy, PartialEq, Eq, Structural, Hash, PartialOrd, Ord)]
pub struct Rect {
    pub pos: BufferPosition,
    pub size: Size,
}

impl Rect {
    pub fn new(row: u16, col: u16, w: u16, h: u16) -> (r: Self)
        ensures
            r.pos.row == row,
            r.pos.col == col,
            r.size.w == w,
            r.size.h == h,
    {
        Rect { pos: BufferPosition { row, col }, size: Size { w, h } }
    }

    /// Whether the cell (`row`, `col`) lies inside the rectangle.
    pub open spec fn contains_cell(&self, row: int, col: int) -> bool {
        &&& self.pos.row <= row < self.pos.row + self.size.h
        &&& self.pos.col <= col < self.pos.col + self.size.w
    }
}

pub fn rect(row: u16, col: u16, w: u16, h: u16) -> (r: Rect)
    ensures
        r == (Rect { pos: BufferPosition { row, col }, size: Size { w, h } }),
{
    Rect::new(row, col, w, h)
}

/// How a text buffer is rendered.
pub enum BufferType {
    Raw,
    Fancy,
}

/// The axis along which the children of a split are laid out:
/// `Horizontal` places them side by side, `Vertical` stacks them.
#[derive(Debug, Clone, Copy, PartialEq, Eq, Structural)]
pub enum Orientation {
    Horizontal,
    Vertical,
}

impl Orientation {
    pub open spec fn flipped(self) -> Orientation {
        match self {
            Orientation::Horizontal => Orientation::Vertical,
            Orientation::Vertical => Orientation::Horizontal,
        }
    }

    pub fn flip(&self) -> (r: Self)
        ensures
            r == self.flipped(),
    {
        match self {
            Orientation::Horizontal => Orientation::Vertical,
            Orientation::Vertical => Orientation::Horizontal,
        }
    }
}

/// An unsigned coordinate that ranges can be built over.
pub trait RangeCompatibleNumber: Copy + Sized {
    /// The mathematical value of the coordinate.
    spec fn as_int(&self) -> int;

    proof fn lemma_bounds(&self)
        ensures
            0 <= self.as_int() <= usize::MAX,
    ;

    fn to_usize(&self) -> (r: usize)
        ensures
            r as int == self.as_int(),
    ;

    fn less_than(&self, o: &Self) -> (r: bool)
        ensures
            r == (self.as_int() < o.as_int()),
    ;

    fn minus(&self, o: &Self) -> (r: Self)
        requires
            o.as_int() <= self.as_int(),
        ensures
            r.as_int() == self.as_int() - o.as_int(),
    ;
}

impl RangeCompatibleNumber for usize {
    open spec fn as_int(&self) -> int {
        *self as int
    }

    proof fn lemma_bounds(&self) {
    }

    fn to_usize(&self) -> (r: usize) {
        *self
    }

    fn less_than(&self, o: &Self) -> (r: bool) {
        *self < *o
    }

    fn minus(&self, o: &Self) -> (r: Self) {
        *self - *o
    }
}

impl RangeCompatibleNumber for u16 {
    open spec fn as_int(&self) -> int {
        *self as int
    }

    proof fn lemma_bounds(&self) {
    }

    fn to_usize(&self) -> (r: usize) {
        *self as usize
    }

    fn less_than(&self, o: &Self) -> (r: bool) {
        *self < *o
    }

    fn minus(&self, o: &Self) -> (r: Self) {
        *self - *o
    }
}

/// A half-open interval `[start, end)`.
#[derive(Debug, Clone, Copy)]
pub struct Range<T> {
    pub start: T,
    pub end: T,
}

impl<T: RangeCompatibleNumber> Range<T> {
    pub open spec fn lo(&self) -> int {
        self.start.as_int()
    }

    pub open spec fn hi(&self) -> int {
        self.end.as_int()
    }

    /// The interval is well formed: it does not end before it starts.
    pub open spec fn wf(&self) -> bool {
        self.lo() <= self.hi()
    }

    pub open spec fn contains_point(&self, p: int) -> bool {
        self.lo() <= p < self.hi()
    }

    /// The two intervals share no point.
    pub open spec fn disjoint_from(&self, o: &Range<T>) -> bool {
        o.lo() >= self.hi() || self.lo() >= o.hi() || self.lo() >= self.hi() || o.lo() >= o.hi()
    }

    pub fn new(start: T, end: T) -> (r: Self)
        requires
            start.as_int() <= end.as_int(),
        ensures
            r.start == start,
            r.end == end,
    {
        Range { start, end }
    }

    /// Splits the interval at `v`. A cut at zero or before the start leaves
    /// no left part, a cut at or after the end leaves no right part.
    pub fn split_at_index(self, v: T) -> (r: (Option<Self>, Option<Self>))
        requires
            self.wf(),
        ensures
            (v.as_int() == 0 || v.as_int() < self.lo()) ==> r == (None::<Self>, Some(self)),
            !(v.as_int() == 0 || v.as_int() < self.lo()) && v.as_int() >= self.hi() ==> r == (
            Some(self), None::<Self>),
            !(v.as_int() == 0 || v.as_int() < self.lo()) && v.as_int() < self.hi() ==> {
                &&& r.0 == Some(Range { start: self.start, end: v })
                &&& r.1 == Some(Range { start: v, end: self.end })
            },
    {
        if v.to_usize() == 0 || v.less_than(&self.start) {
            (None, Some(self))
        } else if !v.less_than(&self.end) {
            (Some(self), None)
        } else {
            (Some(Range { start: self.start, end: v }), Some(Range { start: v, end: self.end }))
        }
    }

    /// The interval cut down to at most `w` points, keeping its start.
    pub fn shortened_to(&self, w: T) -> (r: Self)
        requires
            self.wf(),
        ensures
            r.start == self.start,
            r.wf(),
            self.hi() - self.lo() > w.as_int() ==> r.hi() == self.lo() + w.as_int(),
            self.hi() - self.lo() <= w.as_int() ==> r == *self,
    {
        let l = self.len();
        proof {
            w.lemma_bounds();
            self.start.lemma_bounds();
        }
        if w.less_than(&l) {
            let cut = l.minus(&w);
            Range { start: self.start, end: self.end.minus(&cut) }
        } else {
            *self
        }
    }

    pub fn len(&self) -> (r: T)
        requires
            self.wf(),
        ensures
            r.as_int() == self.hi() - self.lo(),
    {
        self.end.minus(&self.start)
    }

    pub fn into_native(self) -> (r: std::ops::Range<usize>)
        ensures
            r.start as int == self.lo(),
            r.end as int == self.hi(),
    {
        self.start.to_usize()..self.end.to_usize()
    }

    /// Classifies how `foreign` lies over this interval. The intervals are
    /// half-open: two that only touch, or where either is empty, share no
    /// point and are `Disjoint`. (A classification by closed bounds would
    /// call touching intervals overlapping and produce empty pieces.)
    pub fn get_overlap_with(&self, foreign: &Range<T>) -> (r: OverlapDescription<T>)
        requires
            self.wf(),
            foreign.wf(),
        ensures
            r is Disjoint <==> self.disjoint_from(foreign),
            r is Complete <==> !self.disjoint_from(foreign) && foreign.lo() <= self.lo()
                && self.hi() <= foreign.hi(),
            r is Left <==> !self.disjoint_from(foreign) && foreign.lo() <= self.lo() && foreign.hi()
                < self.hi(),
            r is Right <==> !self.disjoint_from(foreign) && self.lo() < foreign.lo() && self.hi()
                <= foreign.hi(),
            r is Inner <==> !self.disjoint_from(foreign) && self.lo() < foreign.lo() && foreign.hi()
                < self.hi(),
            r matches OverlapDescription::Left { foreign: f, old } ==> f.start == self.start
                && f.end == foreign.end && old.start == foreign.end && old.end == self.end,
            r matches OverlapDescription::Right { old, foreign: f } ==> old.start == self.start
                && old.end == foreign.start && f.start == foreign.start && f.end == self.end,
            r matches OverlapDescription::Inner { old_l, foreign: f, old_r } ==> old_l.start
                == self.start && old_l.end == foreign.start && f.start == foreign.start && f.end
                == foreign.end && old_r.start == foreign.end && old_r.end == self.end,
    {
        if !foreign.start.less_than(&self.end) || !self.start.less_than(&foreign.end)
            || !self.start.less_than(&self.end) || !foreign.start.less_than(&foreign.end) {
            return OverlapDescription::Disjoint;
        }
        if self.start.less_than(&foreign.start) {
            if !foreign.end.less_than(&self.end) {
                OverlapDescription::Right {
                    old: Range { start: self.start, end: foreign.start },
                    foreign: Range { start: foreign.start, end: self.end },
                }
            } else {
                OverlapDescription::Inner {
                    old_l: Range { start: self.start, end: foreign.start },
                    foreign: Range { start: foreign.start, end: foreign.end },
                    old_r: Range { start: foreign.end, end: self.end },
                }
            }
        } else {
            if foreign.end.less_than(&self.end) {
                OverlapDescription::Left {
                    foreign: Range { start: self.start, end: foreign.end },
                    old: Range { start: foreign.end, end: self.end },
                }
            } else {
                OverlapDescription::Complete
            }
        }
    }

    pub fn overlaps(&self, foreign: &Range<T>) -> (r: bool)
        requires
            self.wf(),
            foreign.wf(),
        ensures
            r == !self.disjoint_from(foreign),
    {
        let d = self.get_overlap_with(foreign);
        !matches!(d, OverlapDescription::Disjoint)
    }
}

pub fn range<T: RangeCompatibleNumber>(start: T, end: T) -> (r: Range<T>)
    requires
        start.as_int() <= end.as_int(),
    ensures
        r.start == start,
        r.end == end,
{
    Range { start, end }
}

/// Describes how a foreign interval lies over an interval.
#[derive(Debug)]
pub enum OverlapDescription<T> {
    /// They share no point.
    Disjoint,
    /// The foreign interval covers the whole interval.
    Complete,
    /// The foreign interval covers a prefix; a suffix remains.
    Left { foreign: Range<T>, old: Range<T> },
    /// The foreign interval covers a suffix; a prefix remains.
    Right { old: Range<T>, foreign: Range<T> },
    /// The foreign interval lies strictly inside; a prefix and a suffix remain.
    Inner { old_l: Range<T>, foreign: Range<T>, old_r: Range<T> },
}

impl<T: RangeCompatibleNumber> From<std::ops::Range<T>> for Range<T> {
    fn from(value: std::ops::Range<T>) -> Range<T> {
        Range { start: value.start, end: value.end }
    }
}

impl<T: RangeCompatibleNumber> vstd::std_specs::convert::FromSpecImpl<std::ops::Range<T>> for Range<T> {
    open spec fn obeys_from_spec() -> bool {
        true
    }

    open spec fn from_spec(v: std::ops::Range<T>) -> Range<T> {
        Range { start: v.start, end: v.end }
    }
}

impl From<(u16, u16)> for Size {
    fn from(value: (u16, u16)) -> Size {
        Size { w: value.0, h: value.1 }
    }
}

impl vstd::std_specs::convert::FromSpecImpl<(u16, u16)> for Size {
    open spec fn obeys_from_spec() -> bool {
        true
    }

    open spec fn from_spec(v: (u16, u16)) -> Size {
        Size { w: v.0, h: v.1 }
    }
}

} // verus!

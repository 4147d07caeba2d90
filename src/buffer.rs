use vstd::prelude::*;
use vstd::view::View as ViewOf;

use crate::document::Document;
use crate::geometry::{BufferPosition, OverlapDescription, Range, Rect, Size};
use crate::atext::{replaced, unstyled, AText, StyledChar};
use crate::style::{cursor_style, highlight_of, resolve_or_plain, Style, StyledRange};

verus! {

/// The number of line breaks in `s`.
pub open spec fn count_nl(s: Seq<char>) -> nat
    decreases s.len(),
{
    if s.len() == 0 {
        0
    } else {
        count_nl(s.drop_last()) + if s.last() == '\n' {
            1nat
        } else {
            0nat
        }
    }
}

proof fn lemma_count_nl_step(s: Seq<char>, i: int)
    requires
        0 <= i < s.len(),
    ensures
        count_nl(s.take(i + 1)) == count_nl(s.take(i)) + if s[i] == '\n' {
            1nat
        } else {
            0nat
        },
{
    assert(s.take(i + 1).drop_last() =~= s.take(i));
}

proof fn lemma_count_nl_prefix(s: Seq<char>)
    ensures
        forall|i: int| 0 <= i <= s.len() ==> #[trigger] count_nl(s.take(i)) <= count_nl(s),
{
    assert forall|i: int| 0 <= i <= s.len() implies #[trigger] count_nl(s.take(i)) <= count_nl(s) by {
        lemma_count_nl_mono(s, i, s.len() as int);
        assert(s.take(s.len() as int) =~= s);
    }
}

proof fn lemma_count_nl_mono(s: Seq<char>, i: int, j: int)
    requires
        0 <= i <= j <= s.len(),
    ensures
        count_nl(s.take(i)) <= count_nl(s.take(j)),
    decreases j - i,
{
    if i < j {
        lemma_count_nl_mono(s, i, j - 1);
        lemma_count_nl_step(s, j - 1);
    }
}

proof fn lemma_count_nl_le_len(s: Seq<char>)
    ensures
        count_nl(s) <= s.len(),
        s.len() > 0 && s.last() != '\n' ==> count_nl(s) < s.len(),
    decreases s.len(),
{
    if s.len() > 0 {
        lemma_count_nl_le_len(s.drop_last());
    }
}

/// Position `s` is where line `k` of `text` starts: at the beginning or
/// right after a line break, with `k` line breaks before it.
pub open spec fn starts_line(text: Seq<char>, k: int, s: int) -> bool {
    &&& 0 <= s <= text.len()
    &&& (s == 0 || text[s - 1] == '\n')
    &&& count_nl(text.take(s)) == k
}

/// `[s, e)` is line `k` of `text`, without its line break.
pub open spec fn is_line(text: Seq<char>, k: int, s: int, e: int) -> bool {
    &&& starts_line(text, k, s)
    &&& s <= e <= text.len()
    &&& forall|p: int| s <= p < e ==> text[p] != '\n'
    &&& (e == text.len() || text[e] == '\n')
}

/// The ranges of the lines of `text`, line breaks left out. A text with `n`
/// line breaks has `n + 1` lines.
pub fn get_line_ranges(text: &Vec<char>) -> (res: Vec<Range<usize>>)
    ensures
        res@.len() == count_nl(text@) + 1,
        forall|k: int|
            0 <= k < res@.len() ==> is_line(text@, k, #[trigger] res@[k].start as int, res@[k].end as int),
{
    let mut res: Vec<Range<usize>> = Vec::new();
    let mut start: usize = 0;
    let mut i: usize = 0;
    while i < text.len()
        invariant
            start <= i <= text@.len(),
            starts_line(text@, res@.len() as int, start as int),
            count_nl(text@.take(i as int)) == res@.len(),
            forall|p: int| start <= p < i ==> text@[p] != '\n',
            forall|k: int|
                0 <= k < res@.len() ==> is_line(text@, k, #[trigger] res@[k].start as int, res@[k].end as int),
        decreases text@.len() - i,
    {
        proof {
            lemma_count_nl_step(text@, i as int);
        }
        if text[i] == '\n' {
            let ghost before = res@;
            res.push(Range { start, end: i });
            assert forall|k: int| 0 <= k < res@.len() implies is_line(
                text@,
                k,
                #[trigger] res@[k].start as int,
                res@[k].end as int,
            ) by {
                if k < before.len() {
                    assert(res@[k] == before[k]);
                }
            }
            start = i + 1;
        }
        i += 1;
    }
    let ghost before = res@;
    assert(text@.take(text@.len() as int) =~= text@);
    res.push(Range { start, end: text.len() });
    assert forall|k: int| 0 <= k < res@.len() implies is_line(
        text@,
        k,
        #[trigger] res@[k].start as int,
        res@[k].end as int,
    ) by {
        if k < before.len() {
            assert(res@[k] == before[k]);
        }
    }
    res
}

impl BufferPosition {
    /// The index in the text of `doc` of the cell at this row and column:
    /// the start of line `row`, or the end of the text where it has fewer
    /// lines, plus the column.
    pub fn to_text_pos(&self, doc: &Document) -> (r: usize)
        requires
            doc.wf(),
            doc@.len() + self.col <= usize::MAX,
        ensures
            ({
                let text = doc.chars();
                let p = r - self.col;
                &&& r >= self.col
                &&& count_nl(text) >= self.row ==> starts_line(text, self.row as int, p)
                &&& count_nl(text) < self.row ==> p == text.len()
            }),
    {
        let text = doc.content().text();
        proof {
            lemma_count_nl_prefix(text@);
        }
        if self.row == 0 {
            assert(text@.take(0) =~= Seq::<char>::empty());
            return self.col as usize;
        }
        let mut seen: usize = 0;
        let mut i: usize = 0;
        while i < text.len()
            invariant
                i <= text@.len(),
                text@ == doc.chars(),
                doc@.len() == text@.len(),
                doc@.len() + self.col <= usize::MAX,
                seen == count_nl(text@.take(i as int)),
                seen < self.row,
            decreases text@.len() - i,
        {
            proof {
                lemma_count_nl_step(text@, i as int);
            }
            if text[i] == '\n' {
                seen += 1;
                if seen == self.row as usize {
                    proof {
                        lemma_count_nl_prefix(text@);
                        assert(count_nl(text@.take(i + 1)) <= count_nl(text@));
                    }
                    return i + 1 + self.col as usize;
                }
            }
            i += 1;
        }
        assert(text@.take(text@.len() as int) =~= text@);
        text.len() + self.col as usize
    }
}

/// An index into a document's text.
#[derive(Debug, Clone, Copy, PartialEq, Eq, Structural, Default)]
pub struct TextPosition(pub usize);

/// A highlighted range of a document's text.
#[derive(Debug, Clone, Copy)]
pub struct Selection<T> {
    pub range: Range<T>,
}

/// Some range of `sels` holds `p`.
pub open spec fn covered(sels: Seq<Range<usize>>, p: int) -> bool {
    exists|j: int| 0 <= j < sels.len() && (#[trigger] sels[j]).contains_point(p)
}

/// No range of `sels` from index `k` on holds a point of `range`.
pub open spec fn untouched_from(sels: Seq<Range<usize>>, k: int, range: Range<usize>) -> bool {
    forall|p: int| range.start <= p < range.end ==> !#[trigger] covered_from(sels, k, p)
}

/// Some range of `sels` from index `k` on holds `p`.
pub open spec fn covered_from(sels: Seq<Range<usize>>, k: int, p: int) -> bool {
    exists|j: int| k <= j < sels.len() && (#[trigger] sels[j]).contains_point(p)
}

/// The pieces follow each other without gap or overlap from `lo` to `hi`,
/// and none is empty.
pub open spec fn tiles(pieces: Seq<StyledRange<usize>>, lo: int, hi: int) -> bool {
    &&& (pieces.len() == 0 <==> lo >= hi)
    &&& pieces.len() > 0 ==> pieces[0].range.start == lo && pieces.last().range.end == hi
    &&& forall|k: int|
        0 <= k < pieces.len() ==> #[trigger] pieces[k].range.start < pieces[k].range.end
    &&& forall|k: int|
        0 <= k < pieces.len() - 1 ==> #[trigger] pieces[k].range.end == pieces[k + 1].range.start
}

/// The part of `selection` that lies in `line`, if any.
pub fn to_line_range(selection: &Selection<usize>, line: Range<usize>) -> (r: Option<Range<usize>>)
    requires
        selection.range.wf(),
        line.wf(),
    ensures
        r is Some <==> !selection.range.disjoint_from(&line),
        r matches Some(x) ==> x.wf() && forall|p: int|
            #[trigger] x.contains_point(p) <==> (selection.range.contains_point(p) && line.contains_point(p)),
{
    let s = if selection.range.start > line.start {
        selection.range.start
    } else {
        line.start
    };
    let e = if selection.range.end < line.end {
        selection.range.end
    } else {
        line.end
    };
    if s < e {
        Some(Range { start: s, end: e })
    } else {
        None
    }
}

fn piece(style: crate::style::Style, start: usize, end: usize) -> (r: StyledRange<usize>)
    ensures
        r.style == style,
        r.range.start == start,
        r.range.end == end,
{
    StyledRange { style, range: Range { start, end } }
}

proof fn lemma_tiles_concat(a: Seq<StyledRange<usize>>, b: Seq<StyledRange<usize>>, lo: int, mid: int, hi: int)
    requires
        tiles(a, lo, mid),
        tiles(b, mid, hi),
        lo <= mid <= hi,
    ensures
        tiles(a + b, lo, hi),
{
    let c = a + b;
    if a.len() == 0 {
        assert(c =~= b);
    } else if b.len() == 0 {
        assert(c =~= a);
    } else {
        assert forall|k: int| 0 <= k < c.len() - 1 implies #[trigger] c[k].range.end == c[k + 1].range.start by {
            if k < a.len() - 1 {
                assert(c[k] == a[k] && c[k + 1] == a[k + 1]);
            } else if k == a.len() - 1 {
                assert(c[k] == a.last() && c[k + 1] == b[0]);
            } else {
                assert(c[k] == b[k - a.len()] && c[k + 1] == b[k + 1 - a.len()]);
            }
        }
        assert forall|k: int| 0 <= k < c.len() implies #[trigger] c[k].range.start < c[k].range.end by {
            if k < a.len() {
                assert(c[k] == a[k]);
            } else {
                assert(c[k] == b[k - a.len()]);
            }
        }
    }
}

/// The styles of the pieces: highlighted where some selection from `k` on
/// holds the position, the base style elsewhere.
pub open spec fn styled_by_selections(
    pieces: Seq<StyledRange<usize>>,
    sels: Seq<Range<usize>>,
    k: int,
    base: crate::style::Style,
) -> bool {
    forall|j: int, p: int|
        #![trigger pieces[j], covered_from(sels, k, p)]
        0 <= j < pieces.len() && pieces[j].range.start <= p < pieces[j].range.end ==> pieces[j].style == if covered_from(
            sels,
            k,
            p,
        ) {
            highlight_of(base)
        } else {
            base
        }
}

proof fn lemma_styled_skip(
    b: Seq<StyledRange<usize>>,
    sels: Seq<Range<usize>>,
    k: int,
    base: crate::style::Style,
    lo: int,
    hi: int,
)
    requires
        tiles(b, lo, hi),
        styled_by_selections(b, sels, k + 1, base),
        0 <= k < sels.len(),
        forall|p: int| lo <= p < hi ==> !sels[k].contains_point(p),
    ensures
        styled_by_selections(b, sels, k, base),
{
    assert forall|j: int, p: int|
        #![trigger b[j], covered_from(sels, k, p)]
        0 <= j < b.len() && b[j].range.start <= p < b[j].range.end implies b[j].style == if covered_from(
            sels,
            k,
            p,
        ) {
            highlight_of(base)
        } else {
            base
        } by {
        lemma_tiles_bounds(b, lo, hi, j);
        if covered_from(sels, k, p) {
            let i = choose|i: int| k <= i < sels.len() && (#[trigger] sels[i]).contains_point(p);
            assert(i != k);
            assert(covered_from(sels, k + 1, p));
        }
        if covered_from(sels, k + 1, p) {
            let i = choose|i: int| k + 1 <= i < sels.len() && (#[trigger] sels[i]).contains_point(p);
            assert(sels[i].contains_point(p));
        }
    }
}

proof fn lemma_styled_concat(
    a: Seq<StyledRange<usize>>,
    b: Seq<StyledRange<usize>>,
    sels: Seq<Range<usize>>,
    k: int,
    base: crate::style::Style,
)
    requires
        styled_by_selections(a, sels, k, base),
        styled_by_selections(b, sels, k, base),
    ensures
        styled_by_selections(a + b, sels, k, base),
{
    let c = a + b;
    assert forall|j: int, p: int|
        #![trigger c[j], covered_from(sels, k, p)]
        0 <= j < c.len() && c[j].range.start <= p < c[j].range.end implies c[j].style == if covered_from(
            sels,
            k,
            p,
        ) {
            highlight_of(base)
        } else {
            base
        } by {
        if j < a.len() {
            assert(c[j] == a[j]);
        } else {
            assert(c[j] == b[j - a.len()]);
        }
    }
}

proof fn lemma_styled_selected(
    f: StyledRange<usize>,
    sels: Seq<Range<usize>>,
    k: int,
    base: crate::style::Style,
)
    requires
        0 <= k < sels.len(),
        f.style == highlight_of(base),
        forall|p: int| f.range.start <= p < f.range.end ==> sels[k].contains_point(p),
    ensures
        styled_by_selections(seq![f], sels, k, base),
{
    assert forall|j: int, p: int|
        #![trigger seq![f][j], covered_from(sels, k, p)]
        0 <= j < 1 && seq![f][j].range.start <= p < seq![f][j].range.end implies seq![f][j].style
            == if covered_from(sels, k, p) {
            highlight_of(base)
        } else {
            base
        } by {
        assert(sels[k].contains_point(p));
    }
}

fn adjust_from(segment: StyledRange<usize>, selections: &[Range<usize>], k: usize) -> (r: Vec<
    StyledRange<usize>,
>)
    requires
        segment.range.start < segment.range.end,
        k <= selections@.len(),
        forall|j: int| 0 <= j < selections@.len() ==> (#[trigger] selections@[j]).wf(),
    ensures
        tiles(r@, segment.range.start as int, segment.range.end as int),
        styled_by_selections(r@, selections@, k as int, segment.style),
        untouched_from(selections@, k as int, segment.range) ==> r@ == seq![segment],
    decreases selections@.len() - k,
{
    let ghost sels = selections@;
    if k >= selections.len() {
        let r = vec![segment];
        assert forall|j: int, p: int|
            #![trigger r@[j], covered_from(sels, k as int, p)]
            0 <= j < r@.len() && r@[j].range.start <= p < r@[j].range.end implies !covered_from(
                sels,
                k as int,
                p,
            ) by {}
        return r;
    }
    let cur = &selections[k];
    let base = segment.style;
    let hl = base.on_grey();
    let ghost seg_r = segment.range;
    assert(cur.wf());
    proof {
        if !seg_r.disjoint_from(cur) {
            let p = if seg_r.start >= cur.start {
                seg_r.start as int
            } else {
                cur.start as int
            };
            assert(sels[k as int].contains_point(p));
            assert(covered_from(sels, k as int, p));
            assert(!untouched_from(sels, k as int, seg_r));
        }
        if untouched_from(sels, k as int, seg_r) {
            assert forall|p: int| seg_r.start <= p < seg_r.end implies !#[trigger] covered_from(
                sels,
                k + 1,
                p,
            ) by {
                if covered_from(sels, k + 1, p) {
                    let j = choose|j: int| k + 1 <= j < sels.len() && (#[trigger] sels[j]).contains_point(p);
                    assert(sels[j].contains_point(p));
                    assert(covered_from(sels, k as int, p));
                }
            }
        }
    }
    match segment.range.get_overlap_with(cur) {
        OverlapDescription::Disjoint => {
            let r = adjust_from(segment, selections, k + 1);
            proof {
                lemma_styled_skip(r@, sels, k as int, base, seg_r.start as int, seg_r.end as int);
            }
            r
        },
        OverlapDescription::Complete => {
            let r = vec![piece(hl, segment.range.start, segment.range.end)];
            proof {
                lemma_styled_selected(r@[0], sels, k as int, base);
                assert(r@ =~= seq![r@[0]]);
            }
            r
        },
        OverlapDescription::Left { foreign, old } => {
            let mut r = vec![piece(hl, foreign.start, foreign.end)];
            let mut rest = adjust_from(StyledRange { style: base, range: old }, selections, k + 1);
            let ghost a = r@;
            let ghost b = rest@;
            proof {
                lemma_styled_selected(a[0], sels, k as int, base);
                assert(a =~= seq![a[0]]);
                lemma_styled_skip(b, sels, k as int, base, old.start as int, old.end as int);
                lemma_styled_concat(a, b, sels, k as int, base);
                lemma_tiles_concat(a, b, seg_r.start as int, old.start as int, seg_r.end as int);
            }
            r.append(&mut rest);
            r
        },
        OverlapDescription::Right { old, foreign } => {
            let mut r = adjust_from(StyledRange { style: base, range: old }, selections, k + 1);
            let mut last = vec![piece(hl, foreign.start, foreign.end)];
            let ghost a = r@;
            let ghost b = last@;
            proof {
                lemma_styled_selected(b[0], sels, k as int, base);
                assert(b =~= seq![b[0]]);
                lemma_styled_skip(a, sels, k as int, base, old.start as int, old.end as int);
                lemma_styled_concat(a, b, sels, k as int, base);
                lemma_tiles_concat(a, b, seg_r.start as int, old.end as int, seg_r.end as int);
            }
            r.append(&mut last);
            r
        },
        OverlapDescription::Inner { old_l, foreign, old_r } => {
            let mut r = adjust_from(StyledRange { style: base, range: old_l }, selections, k + 1);
            let mut mid = vec![piece(hl, foreign.start, foreign.end)];
            let mut right = adjust_from(StyledRange { style: base, range: old_r }, selections, k + 1);
            let ghost a = r@;
            let ghost b = mid@;
            let ghost c = right@;
            proof {
                lemma_styled_selected(b[0], sels, k as int, base);
                assert(b =~= seq![b[0]]);
                lemma_styled_skip(a, sels, k as int, base, old_l.start as int, old_l.end as int);
                lemma_styled_skip(c, sels, k as int, base, old_r.start as int, old_r.end as int);
                lemma_styled_concat(a, b, sels, k as int, base);
                lemma_styled_concat(a + b, c, sels, k as int, base);
                lemma_tiles_concat(a, b, seg_r.start as int, foreign.start as int, foreign.end as int);
                lemma_tiles_concat(a + b, c, seg_r.start as int, foreign.end as int, seg_r.end as int);
            }
            r.append(&mut mid);
            r.append(&mut right);
            assert(r@ =~= a + b + c);
            r
        },
    }
}

/// Cuts a styled segment where selections cover it: the pieces follow each
/// other without gap from the segment's start to its end, in order, and a
/// piece is highlighted exactly where some selection holds it.
pub fn adjust_for_seletions(segment: StyledRange<usize>, selections: &[Range<usize>]) -> (r: Vec<
    StyledRange<usize>,
>)
    requires
        segment.range.start < segment.range.end,
        forall|j: int| 0 <= j < selections@.len() ==> (#[trigger] selections@[j]).wf(),
    ensures
        tiles(r@, segment.range.start as int, segment.range.end as int),
        forall|j: int, p: int|
            #![trigger r@[j], covered(selections@, p)]
            0 <= j < r@.len() && r@[j].range.start <= p < r@[j].range.end ==> r@[j].style == if covered(
                selections@,
                p,
            ) {
                highlight_of(segment.style)
            } else {
                segment.style
            },
        (forall|p: int|
            segment.range.start <= p < segment.range.end ==> !#[trigger] covered(selections@, p)) ==> r@
            == seq![segment],
{
    let r = adjust_from(segment, selections, 0);
    assert forall|p: int| covered(selections@, p) == covered_from(selections@, 0, p) by {
        if covered(selections@, p) {
            let j = choose|j: int| 0 <= j < selections@.len() && (#[trigger] selections@[j]).contains_point(p);
            assert(selections@[j].contains_point(p));
        }
    }
    proof {
        if forall|p: int|
            segment.range.start <= p < segment.range.end ==> !#[trigger] covered(selections@, p) {
            assert forall|p: int| segment.range.start <= p < segment.range.end implies !#[trigger] covered_from(
                selections@,
                0,
                p,
            ) by {
                if covered_from(selections@, 0, p) {
                    let j = choose|j: int| 0 <= j < selections@.len() && (#[trigger] selections@[j]).contains_point(p);
                    assert(selections@[j].contains_point(p));
                    assert(covered(selections@, p));
                }
            }
        }
    }
    r
}

/// Some piece holds `p`.
pub open spec fn in_some_piece(pieces: Seq<StyledRange<usize>>, p: int) -> bool {
    exists|j: int| 0 <= j < pieces.len() && #[trigger] pieces[j].range.start <= p < pieces[j].range.end
}

/// Pieces that follow each other without gap from `lo` to `hi` are ordered,
/// pairwise disjoint, and together hold exactly the positions of `[lo, hi)`.
pub proof fn lemma_tiles_partition(pieces: Seq<StyledRange<usize>>, lo: int, hi: int)
    requires
        tiles(pieces, lo, hi),
    ensures
        forall|i: int, j: int|
            0 <= i < j < pieces.len() ==> #[trigger] pieces[i].range.end <= #[trigger] pieces[j].range.start,
        forall|p: int| lo <= p < hi <==> #[trigger] in_some_piece(pieces, p),
{
    assert forall|i: int, j: int| 0 <= i < j < pieces.len() implies #[trigger] pieces[i].range.end
        <= #[trigger] pieces[j].range.start by {
        lemma_tiles_gap(pieces, lo, hi, i, j);
    }
    assert forall|p: int| lo <= p < hi implies #[trigger] in_some_piece(pieces, p) by {
        lemma_tiles_find(pieces, lo, hi, p, 0);
    }
    assert forall|p: int| #[trigger] in_some_piece(pieces, p) implies lo <= p < hi by {
        let j = choose|j: int| 0 <= j < pieces.len() && #[trigger] pieces[j].range.start <= p < pieces[j].range.end;
        lemma_tiles_bounds(pieces, lo, hi, j);
    }
}

proof fn lemma_tiles_gap(pieces: Seq<StyledRange<usize>>, lo: int, hi: int, i: int, j: int)
    requires
        tiles(pieces, lo, hi),
        0 <= i < j < pieces.len(),
    ensures
        pieces[i].range.end <= pieces[j].range.start,
    decreases j - i,
{
    if j > i + 1 {
        lemma_tiles_gap(pieces, lo, hi, i, j - 1);
        assert(pieces[j - 1].range.end == pieces[j].range.start);
        assert(pieces[j - 1].range.start < pieces[j - 1].range.end);
    } else {
        assert(pieces[i].range.end == pieces[i + 1].range.start);
    }
}

proof fn lemma_tiles_bounds(pieces: Seq<StyledRange<usize>>, lo: int, hi: int, j: int)
    requires
        tiles(pieces, lo, hi),
        0 <= j < pieces.len(),
    ensures
        lo <= pieces[j].range.start,
        pieces[j].range.end <= hi,
{
    if j > 0 {
        lemma_tiles_gap(pieces, lo, hi, 0, j);
        assert(pieces[0].range.start < pieces[0].range.end);
    }
    if j < pieces.len() - 1 {
        lemma_tiles_gap(pieces, lo, hi, j, pieces.len() - 1);
        assert(pieces.last().range.start < pieces.last().range.end);
    }
}

proof fn lemma_tiles_find(pieces: Seq<StyledRange<usize>>, lo: int, hi: int, p: int, i: int)
    requires
        tiles(pieces, lo, hi),
        0 <= i < pieces.len(),
        pieces[i].range.start <= p < hi,
    ensures
        exists|j: int| 0 <= j < pieces.len() && #[trigger] pieces[j].range.start <= p < pieces[j].range.end,
    decreases pieces.len() - i,
{
    if p < pieces[i].range.end {
        assert(pieces[i].range.start <= p < pieces[i].range.end);
    } else {
        if i == pieces.len() - 1 {
        } else {
            assert(pieces[i].range.end == pieces[i + 1].range.start);
            lemma_tiles_find(pieces, lo, hi, p, i + 1);
        }
    }
}

/// The style of a position where the cursor may stand: the cursor's style
/// on the cursor, `base` elsewhere.
pub open spec fn with_cursor(base: Style, cursor: int, visible: bool, p: int) -> Style {
    if visible && p == cursor {
        cursor_style()
    } else {
        base
    }
}

/// The style in which position `p` of a document is drawn: the cursor's
/// style on a visible cursor, the highlighted style of the character inside
/// a selection, and the character's own style elsewhere.
pub open spec fn expected_style(
    doc: Seq<StyledChar>,
    sels: Seq<Range<usize>>,
    cursor: int,
    visible: bool,
    p: int,
) -> Style {
    if visible && p == cursor {
        cursor_style()
    } else if covered(sels, p) {
        highlight_of(resolve_or_plain(doc[p].1))
    } else {
        resolve_or_plain(doc[p].1)
    }
}

/// Cuts `frag` around the cursor, if it stands in it: the part before, the
/// cursor cell in the cursor's style, the part after.
fn cursor_split(frag: StyledRange<usize>, cursor: usize, visible: bool) -> (r: Vec<StyledRange<usize>>)
    requires
        frag.range.start < frag.range.end,
    ensures
        tiles(r@, frag.range.start as int, frag.range.end as int),
        forall|j: int, p: int|
            #![trigger r@[j], with_cursor(frag.style, cursor as int, visible, p)]
            0 <= j < r@.len() && r@[j].range.start <= p < r@[j].range.end ==> r@[j].style == with_cursor(
                frag.style,
                cursor as int,
                visible,
                p,
            ),
{
    let mut r: Vec<StyledRange<usize>> = Vec::new();
    if visible && frag.range.start <= cursor && cursor < frag.range.end {
        if frag.range.start < cursor {
            r.push(piece(frag.style, frag.range.start, cursor));
        }
        r.push(piece(Style::cursor(), cursor, cursor + 1));
        if cursor + 1 < frag.range.end {
            r.push(piece(frag.style, cursor + 1, frag.range.end));
        }
        assert forall|j: int, p: int|
            #![trigger r@[j], with_cursor(frag.style, cursor as int, visible, p)]
            0 <= j < r@.len() && r@[j].range.start <= p < r@[j].range.end implies r@[j].style == with_cursor(
                frag.style,
                cursor as int,
                visible,
                p,
            ) by {}
    } else {
        r.push(frag);
        assert forall|j: int, p: int|
            #![trigger r@[j], with_cursor(frag.style, cursor as int, visible, p)]
            0 <= j < r@.len() && r@[j].range.start <= p < r@[j].range.end implies r@[j].style == with_cursor(
                frag.style,
                cursor as int,
                visible,
                p,
            ) by {}
    }
    r
}

/// The style of position `p` of a segment drawn in `base`, given the
/// selections of its line and the cursor.
pub open spec fn segment_style(
    line_sels: Seq<Range<usize>>,
    base: Style,
    cursor: int,
    visible: bool,
    p: int,
) -> Style {
    if visible && p == cursor {
        cursor_style()
    } else if covered(line_sels, p) {
        highlight_of(base)
    } else {
        base
    }
}

/// The pieces of one styled segment: cut where selections cover it and
/// around the cursor.
fn render_segment(seg: StyledRange<usize>, line_sels: &Vec<Range<usize>>, cursor: usize, visible: bool) -> (r:
    Vec<StyledRange<usize>>)
    requires
        seg.range.start < seg.range.end,
        forall|j: int| 0 <= j < line_sels@.len() ==> (#[trigger] line_sels@[j]).wf(),
    ensures
        tiles(r@, seg.range.start as int, seg.range.end as int),
        forall|j: int, p: int|
            #![trigger r@[j], segment_style(line_sels@, seg.style, cursor as int, visible, p)]
            0 <= j < r@.len() && r@[j].range.start <= p < r@[j].range.end ==> r@[j].style == segment_style(
                line_sels@,
                seg.style,
                cursor as int,
                visible,
                p,
            ),
{
    let frags = adjust_for_seletions(seg, line_sels.as_slice());
    let mut r: Vec<StyledRange<usize>> = Vec::new();
    let mut i: usize = 0;
    while i < frags.len()
        invariant
            i <= frags@.len(),
            tiles(frags@, seg.range.start as int, seg.range.end as int),
            forall|j: int, p: int|
                #![trigger frags@[j], covered(line_sels@, p)]
                0 <= j < frags@.len() && frags@[j].range.start <= p < frags@[j].range.end ==> frags@[j].style
                    == if covered(line_sels@, p) {
                    highlight_of(seg.style)
                } else {
                    seg.style
                },
            tiles(
                r@,
                seg.range.start as int,
                if i == 0 {
                    seg.range.start as int
                } else {
                    frags@[i - 1].range.end as int
                },
            ),
            forall|j: int, p: int|
                #![trigger r@[j], segment_style(line_sels@, seg.style, cursor as int, visible, p)]
                0 <= j < r@.len() && r@[j].range.start <= p < r@[j].range.end ==> r@[j].style == segment_style(
                    line_sels@,
                    seg.style,
                    cursor as int,
                    visible,
                    p,
                ),
        decreases frags@.len() - i,
    {
        let fr = frags[i];
        let mut part = cursor_split(fr, cursor, visible);
        let ghost a = r@;
        let ghost b = part@;
        proof {
            if i > 0 {
                assert(frags@[i - 1].range.end == frags@[i as int].range.start);
                lemma_tiles_bounds(frags@, seg.range.start as int, seg.range.end as int, i - 1);
            }
            lemma_tiles_concat(
                a,
                b,
                seg.range.start as int,
                fr.range.start as int,
                fr.range.end as int,
            );
        }
        r.append(&mut part);
        proof {
            assert forall|j: int, p: int|
                #![trigger r@[j], segment_style(line_sels@, seg.style, cursor as int, visible, p)]
                0 <= j < r@.len() && r@[j].range.start <= p < r@[j].range.end implies r@[j].style
                    == segment_style(line_sels@, seg.style, cursor as int, visible, p) by {
                if j < a.len() {
                    assert(r@[j] == a[j]);
                } else {
                    let jj = j - a.len();
                    assert(r@[j] == b[jj]);
                    assert(b[jj].style == with_cursor(fr.style, cursor as int, visible, p));
                    lemma_tiles_bounds(b, fr.range.start as int, fr.range.end as int, jj);
                    assert(frags@[i as int].range.start <= p < frags@[i as int].range.end);
                    assert(fr.style == if covered(line_sels@, p) {
                        highlight_of(seg.style)
                    } else {
                        seg.style
                    });
                }
            }
        }
        i += 1;
    }
    r
}

/// The pieces of the line `line` of `doc`: its styled runs, cut where the
/// selections cover them and around the cursor.
#[verifier::spinoff_prover]
#[verifier::rlimit(60)]
fn render_line(doc: &Document, line: Range<usize>, sels: &Vec<Range<usize>>, cursor: usize, visible: bool) -> (r:
    Vec<StyledRange<usize>>)
    requires
        doc.wf(),
        line.start <= line.end <= doc@.len(),
        forall|j: int| 0 <= j < sels@.len() ==> (#[trigger] sels@[j]).wf(),
    ensures
        tiles(r@, line.start as int, line.end as int),
        forall|j: int, p: int|
            #![trigger r@[j], expected_style(doc@, sels@, cursor as int, visible, p)]
            0 <= j < r@.len() && r@[j].range.start <= p < r@[j].range.end ==> r@[j].style == expected_style(
                doc@,
                sels@,
                cursor as int,
                visible,
                p,
            ),
{
    let mut line_sels: Vec<Range<usize>> = Vec::new();
    let mut k: usize = 0;
    while k < sels.len()
        invariant
            k <= sels@.len(),
            line.wf(),
            forall|j: int| 0 <= j < sels@.len() ==> (#[trigger] sels@[j]).wf(),
            forall|j: int| 0 <= j < line_sels@.len() ==> (#[trigger] line_sels@[j]).wf(),
            forall|p: int|
                line.contains_point(p) ==> (covered(line_sels@, p) <==> covered(sels@.take(k as int), p)),
        decreases sels@.len() - k,
    {
        let sel = Selection { range: sels[k] };
        let ghost before = line_sels@;
        assert(sels@[k as int].wf());
        match to_line_range(&sel, line) {
            Some(x) => {
                line_sels.push(x);
            },
            None => {},
        }
        proof {
            assert forall|p: int| line.contains_point(p) implies (covered(line_sels@, p) <==> covered(
                sels@.take(k + 1),
                p,
            )) by {
                let t0 = sels@.take(k as int);
                let t1 = sels@.take(k + 1);
                assert(t1 =~= t0.push(sels@[k as int]));
                if covered(t1, p) {
                    let j = choose|j: int| 0 <= j < t1.len() && (#[trigger] t1[j]).contains_point(p);
                    if j < k {
                        assert(t0[j] == t1[j]);
                        assert(covered(t0, p));
                        assert(covered(before, p));
                        let i = choose|i: int| 0 <= i < before.len() && (#[trigger] before[i]).contains_point(p);
                        assert(line_sels@[i] == before[i]);
                    } else {
                        assert(sel.range.contains_point(p));
                        assert(line_sels@.last().contains_point(p));
                    }
                }
                if covered(line_sels@, p) {
                    let i = choose|i: int| 0 <= i < line_sels@.len() && (#[trigger] line_sels@[i]).contains_point(p);
                    if i < before.len() {
                        assert(before[i] == line_sels@[i]);
                        assert(covered(before, p));
                        let j = choose|j: int| 0 <= j < t0.len() && (#[trigger] t0[j]).contains_point(p);
                        assert(t1[j] == t0[j]);
                    } else {
                        assert(t1[k as int] == sels@[k as int]);
                        assert(t1[k as int].contains_point(p));
                    }
                }
            }
        }
        k += 1;
    }
    assert(sels@.take(sels@.len() as int) =~= sels@);
    let segs = doc.content().get_range_style_pairs(line);
    assert(tiles(segs@, line.start as int, line.end as int));
    let mut r: Vec<StyledRange<usize>> = Vec::new();
    let mut i: usize = 0;
    while i < segs.len()
        invariant
            i <= segs@.len(),
            doc.wf(),
            line.start <= line.end <= doc@.len(),
            forall|j: int| 0 <= j < line_sels@.len() ==> (#[trigger] line_sels@[j]).wf(),
            forall|p: int| line.contains_point(p) ==> (covered(line_sels@, p) <==> covered(sels@, p)),
            tiles(segs@, line.start as int, line.end as int),
            crate::atext::is_run_encoding(doc@, line.start as int, line.end as int, segs@),
            tiles(
                r@,
                line.start as int,
                if i == 0 {
                    line.start as int
                } else {
                    segs@[i - 1].range.end as int
                },
            ),
            forall|j: int, p: int|
                #![trigger r@[j], expected_style(doc@, sels@, cursor as int, visible, p)]
                0 <= j < r@.len() && r@[j].range.start <= p < r@[j].range.end ==> r@[j].style == expected_style(
                    doc@,
                    sels@,
                    cursor as int,
                    visible,
                    p,
                ),
        decreases segs@.len() - i,
    {
        let sg = segs[i];
        let mut part = render_segment(sg, &line_sels, cursor, visible);
        let ghost a = r@;
        let ghost b = part@;
        proof {
            if i > 0 {
                assert(segs@[i - 1].range.end == segs@[i as int].range.start);
            }
            lemma_tiles_bounds(segs@, line.start as int, line.end as int, i as int);
            lemma_tiles_concat(a, b, line.start as int, sg.range.start as int, sg.range.end as int);
        }
        r.append(&mut part);
        proof {
            assert forall|j: int, p: int|
                #![trigger r@[j], expected_style(doc@, sels@, cursor as int, visible, p)]
                0 <= j < r@.len() && r@[j].range.start <= p < r@[j].range.end implies r@[j].style
                    == expected_style(doc@, sels@, cursor as int, visible, p) by {
                if j < a.len() {
                    assert(r@[j] == a[j]);
                } else {
                    let jj = j - a.len();
                    assert(r@[j] == b[jj]);
                    assert(b[jj].style == segment_style(line_sels@, sg.style, cursor as int, visible, p));
                    lemma_tiles_bounds(b, sg.range.start as int, sg.range.end as int, jj);
                    assert(segs@[i as int].range.start <= p < segs@[i as int].range.end);
                    assert(sg.style == resolve_or_plain(doc@[p].1));
                    assert(line.contains_point(p));
                }
            }
        }
        i += 1;
    }
    r
}

/// One line of a rendered view: where it starts on the screen, the range of
/// the document it shows, and the pieces of that range with their styles.
pub struct RenderLine {
    pub row: u16,
    pub col: u16,
    pub range: Range<usize>,
    pub pieces: Vec<StyledRange<usize>>,
}

/// What to draw for a view: its visible lines, and whether a blank cell in
/// the cursor's style goes after them, for a cursor at the end of the text.
pub struct RenderPlan {
    pub lines: Vec<RenderLine>,
    pub end_cursor: bool,
}

/// The number of lines shown: those from `offset` on, at most `h`.
pub open spec fn visible_count(total: int, offset: int, h: int) -> int {
    if offset >= total {
        0
    } else if total - offset < h {
        total - offset
    } else {
        h
    }
}

/// The number of lines that `str::lines` finds: a final line break ends
/// the last line and opens no new one.
pub open spec fn text_line_count(text: Seq<char>) -> int {
    if text.len() == 0 {
        0
    } else if text.last() == '\n' {
        count_nl(text) as int
    } else {
        count_nl(text) + 1int
    }
}

pub open spec fn clamp(v: int, lo: int, hi: int) -> int {
    if v < lo {
        lo
    } else if v > hi {
        hi
    } else {
        v
    }
}

/// The start of the line that holds position `c`.
pub open spec fn line_start_before(text: Seq<char>, c: int) -> int
    decreases c,
{
    if c <= 0 {
        0
    } else if text[c - 1] == '\n' {
        c
    } else {
        line_start_before(text, c - 1)
    }
}

/// The end of the line that holds position `c`: its line break, or the end
/// of the text.
pub open spec fn line_end_after(text: Seq<char>, c: int) -> int
    decreases text.len() - c,
{
    if c >= text.len() {
        text.len() as int
    } else if text[c] == '\n' {
        c
    } else {
        line_end_after(text, c + 1)
    }
}

pub open spec fn sel_ranges(sels: Seq<Selection<usize>>) -> Seq<Range<usize>> {
    sels.map_values(|s: Selection<usize>| s.range)
}

/// What a buffer shows of its document: the selections, the first visible
/// line, the cursor and whether it is shown, and the size it was last
/// drawn at.
#[derive(Clone)]
pub struct View {
    pub selections: Vec<Selection<usize>>,
    pub offset: usize,
    pub cursor: TextPosition,
    pub cursor_visible: bool,
    pub last_rendered_size: Option<Size>,
}

impl View {
    pub open spec fn wf(&self) -> bool {
        forall|j: int| 0 <= j < self.selections@.len() ==> (#[trigger] self.selections@[j]).range.wf()
    }

    /// The two views differ in the cursor at most.
    pub open spec fn same_but_cursor(&self, o: &View) -> bool {
        &&& self.selections == o.selections
        &&& self.offset == o.offset
        &&& self.cursor_visible == o.cursor_visible
        &&& self.last_rendered_size == o.last_rendered_size
    }

    pub fn new() -> (r: View)
        ensures
            r.wf(),
            r.selections@.len() == 0,
            r.offset == 0,
            r.cursor.0 == 0,
            !r.cursor_visible,
            r.last_rendered_size is None,
    {
        View {
            selections: Vec::new(),
            offset: 0,
            cursor: TextPosition(0),
            cursor_visible: false,
            last_rendered_size: None,
        }
    }

    /// Inserts `c` at the cursor and moves the cursor past it.
    pub fn insert_char_at_cursor(&mut self, c: char, doc: &mut Document)
        requires
            old(doc).wf(),
            old(self).cursor.0 < usize::MAX,
        ensures
            final(doc).wf(),
            final(doc)@ == replaced(
                old(doc)@,
                old(self).cursor.0 as int,
                old(self).cursor.0 as int,
                unstyled(seq![c]),
            ),
            final(self).cursor.0 == old(self).cursor.0 + 1,
            final(self).same_but_cursor(old(self)),
    {
        let pos = self.cursor.0;
        let mut t = AText::new();
        t.push_char(c);
        assert(t@ =~= unstyled(seq![c]));
        doc.replace_range(pos..pos, t);
        self.cursor = TextPosition(pos + 1);
    }

    /// Removes the character before the cursor and moves the cursor back by
    /// one; nothing at position zero.
    pub fn delete_char_before_cursor(&mut self, doc: &mut Document)
        requires
            old(doc).wf(),
        ensures
            final(doc).wf(),
            old(self).cursor.0 == 0 ==> final(doc)@ == old(doc)@ && final(self).cursor == old(self).cursor,
            old(self).cursor.0 > 0 ==> final(doc)@ == replaced(
                old(doc)@,
                old(self).cursor.0 - 1,
                old(self).cursor.0 as int,
                Seq::<StyledChar>::empty(),
            ) && final(self).cursor.0 == old(self).cursor.0 - 1,
            final(self).same_but_cursor(old(self)),
    {
        let pos = self.cursor.0;
        if pos > 0 {
            doc.replace_range((pos - 1)..pos, AText::new());
            self.cursor = TextPosition(pos - 1);
        }
    }

    /// Inserts `text` at the cursor and moves the cursor past it.
    pub fn insert_text_at_cursor(&mut self, text: AText, doc: &mut Document)
        requires
            old(doc).wf(),
            text.wf(),
            old(self).cursor.0 + text@.len() <= usize::MAX,
        ensures
            final(doc).wf(),
            final(doc)@ == replaced(
                old(doc)@,
                old(self).cursor.0 as int,
                old(self).cursor.0 as int,
                text@,
            ),
            final(self).cursor.0 == old(self).cursor.0 + text@.len(),
            final(self).same_but_cursor(old(self)),
    {
        let pos = self.cursor.0;
        let n = text.len();
        self.cursor = TextPosition(pos + n);
        doc.replace_range(pos..pos, text);
    }

    /// Moves the cursor by `offset`, staying between the start and the end
    /// of the text.
    pub fn move_cursor_by(&mut self, offset: isize, doc: &Document)
        requires
            doc.wf(),
        ensures
            final(self).cursor.0 == clamp(old(self).cursor.0 + offset, 0, doc@.len() as int),
            final(self).same_but_cursor(old(self)),
    {
        let len = doc.len();
        let target: i128 = self.cursor.0 as i128 + offset as i128;
        let c: usize = if target < 0 {
            0
        } else if target > len as i128 {
            len
        } else {
            target as usize
        };
        self.cursor = TextPosition(c);
    }

    /// Moves the cursor to the start of its line.
    pub fn move_cursor_to_line_start(&mut self, doc: &Document)
        requires
            doc.wf(),
        ensures
            final(self).cursor.0 == line_start_before(
                doc.chars(),
                clamp(old(self).cursor.0 as int, 0, doc@.len() as int),
            ),
            final(self).same_but_cursor(old(self)),
    {
        let text = doc.content().text();
        let mut s: usize = if self.cursor.0 > text.len() {
            text.len()
        } else {
            self.cursor.0
        };
        let ghost c = s as int;
        while s > 0 && text[s - 1] != '\n'
            invariant
                s <= c <= text@.len(),
                text@ == doc.chars(),
                line_start_before(text@, s as int) == line_start_before(text@, c),
            decreases s,
        {
            s -= 1;
        }
        self.cursor = TextPosition(s);
    }

    /// Moves the cursor to the end of its line, before the line break.
    pub fn move_cursor_to_line_end(&mut self, doc: &Document)
        requires
            doc.wf(),
        ensures
            final(self).cursor.0 == line_end_after(
                doc.chars(),
                clamp(old(self).cursor.0 as int, 0, doc@.len() as int),
            ),
            final(self).same_but_cursor(old(self)),
    {
        let text = doc.content().text();
        let mut e: usize = if self.cursor.0 > text.len() {
            text.len()
        } else {
            self.cursor.0
        };
        let ghost c = e as int;
        while e < text.len() && text[e] != '\n'
            invariant
                c <= e <= text@.len(),
                text@ == doc.chars(),
                doc@.len() == text@.len(),
                line_end_after(text@, e as int) == line_end_after(text@, c),
            decreases text@.len() - e,
        {
            e += 1;
        }
        self.cursor = TextPosition(e);
    }

    /// Scrolls so that the last screenful of lines is shown, for the size the
    /// view was last drawn at; nothing before the first drawing.
    pub fn scroll_down(&mut self, doc: &Document)
        requires
            doc.wf(),
        ensures
            old(self).last_rendered_size matches Some(size) ==> final(self).offset == if text_line_count(
                doc.chars(),
            ) > size.h {
                text_line_count(doc.chars()) - size.h
            } else {
                0
            },
            old(self).last_rendered_size is None ==> final(self).offset == old(self).offset,
            final(self).selections == old(self).selections,
            final(self).cursor == old(self).cursor,
            final(self).cursor_visible == old(self).cursor_visible,
            final(self).last_rendered_size == old(self).last_rendered_size,
    {
        if let Some(size) = self.last_rendered_size {
            let text = doc.content().text();
            let mut n: usize = 0;
            let mut i: usize = 0;
            while i < text.len()
                invariant
                    i <= text@.len(),
                    n == count_nl(text@.take(i as int)),
                    n <= i,
                decreases text@.len() - i,
            {
                proof {
                    lemma_count_nl_step(text@, i as int);
                }
                if text[i] == '\n' {
                    n += 1;
                }
                i += 1;
            }
            assert(text@.take(text@.len() as int) =~= text@);
            proof {
                lemma_count_nl_le_len(text@);
            }
            let lines = if text.len() == 0 {
                0
            } else if text[text.len() - 1] == '\n' {
                n
            } else {
                proof {
                    lemma_count_nl_step(text@, text@.len() - 1);
                    assert(text@.take(text@.len() - 1 + 1) =~= text@);
                }
                n + 1
            };
            self.offset = if lines > size.h as usize {
                lines - size.h as usize
            } else {
                0
            };
        }
    }

    /// What to draw for the document in `rect`: from line `offset` on, as
    /// many lines as `rect` is high, each cut to its width, in the styles of
    /// the text, highlighted inside selections, with the cursor marked. The
    /// size is kept for `scroll_down`.
    pub fn render_doc(&mut self, doc: &Document, rect: Rect) -> (plan: RenderPlan)
        requires
            old(self).wf(),
            doc.wf(),
            rect.pos.row + rect.size.h <= u16::MAX,
        ensures
            final(self).last_rendered_size == Some(rect.size),
            final(self).selections == old(self).selections,
            final(self).offset == old(self).offset,
            final(self).cursor == old(self).cursor,
            final(self).cursor_visible == old(self).cursor_visible,
            plan.end_cursor == (old(self).cursor_visible && old(self).cursor.0 >= doc@.len()),
            plan.lines@.len() == visible_count(count_nl(doc.chars()) + 1int, old(self).offset as int, rect.size.h as int),
            forall|k: int|
                0 <= k < plan.lines@.len() ==> {
                    let line = #[trigger] plan.lines@[k];
                    let st = line.range.start as int;
                    &&& line.row == rect.pos.row + k
                    &&& line.col == rect.pos.col
                    &&& exists|e: int|
                        #[trigger] is_line(doc.chars(), old(self).offset + k, st, e) && line.range.end == if e - st
                            > rect.size.w {
                            st + rect.size.w
                        } else {
                            e
                        }
                    &&& tiles(line.pieces@, st, line.range.end as int)
                    &&& forall|j: int, p: int|
                        #![trigger line.pieces@[j], expected_style(doc@, sel_ranges(old(self).selections@), old(self).cursor.0 as int, old(self).cursor_visible, p)]
                        0 <= j < line.pieces@.len() && line.pieces@[j].range.start <= p
                            < line.pieces@[j].range.end ==> line.pieces@[j].style == expected_style(
                            doc@,
                            sel_ranges(old(self).selections@),
                            old(self).cursor.0 as int,
                            old(self).cursor_visible,
                            p,
                        )
                },
    {
        self.last_rendered_size = Some(rect.size);
        let text = doc.content().text();
        let lines = get_line_ranges(text);
        let mut sels: Vec<Range<usize>> = Vec::new();
        let mut j: usize = 0;
        while j < self.selections.len()
            invariant
                j <= self.selections@.len(),
                self.wf(),
                sels@ == sel_ranges(self.selections@).take(j as int),
            decreases self.selections@.len() - j,
        {
            sels.push(self.selections[j].range);
            j += 1;
            assert(sels@ =~= sel_ranges(self.selections@).take(j as int));
        }
        assert(sels@ =~= sel_ranges(self.selections@));
        let total = lines.len();
        let h = rect.size.h as usize;
        let count: usize = if self.offset >= total {
            0
        } else if total - self.offset < h {
            total - self.offset
        } else {
            h
        };
        let mut out: Vec<RenderLine> = Vec::new();
        let mut k: usize = 0;
        while k < count
            invariant
                k <= count,
                count == visible_count(total as int, self.offset as int, rect.size.h as int),
                total == lines@.len(),
                self.wf(),
                doc.wf(),
                text@ == doc.chars(),
                doc@.len() == text@.len(),
                rect.pos.row + rect.size.h <= u16::MAX,
                lines@.len() == count_nl(text@) + 1,
                forall|i: int|
                    0 <= i < lines@.len() ==> is_line(text@, i, #[trigger] lines@[i].start as int, lines@[i].end as int),
                sels@ == sel_ranges(self.selections@),
                out@.len() == k,
                forall|q: int|
                    0 <= q < k ==> {
                        let line = #[trigger] out@[q];
                        let st = line.range.start as int;
                        &&& line.row == rect.pos.row + q
                        &&& line.col == rect.pos.col
                        &&& exists|e: int|
                            #[trigger] is_line(text@, self.offset + q, st, e) && line.range.end == if e - st
                                > rect.size.w {
                                st + rect.size.w
                            } else {
                                e
                            }
                        &&& tiles(line.pieces@, st, line.range.end as int)
                        &&& forall|j: int, p: int|
                            #![trigger line.pieces@[j], expected_style(doc@, sels@, self.cursor.0 as int, self.cursor_visible, p)]
                            0 <= j < line.pieces@.len() && line.pieces@[j].range.start <= p
                                < line.pieces@[j].range.end ==> line.pieces@[j].style == expected_style(
                                doc@,
                                sels@,
                                self.cursor.0 as int,
                                self.cursor_visible,
                                p,
                            )
                    },
            decreases count - k,
        {
            let lr = lines[self.offset + k];
            assert(is_line(text@, (self.offset + k) as int, lr.start as int, lr.end as int));
            let line = lr.shortened_to(rect.size.w as usize);
            assert forall|j: int| 0 <= j < sels@.len() implies (#[trigger] sels@[j]).wf() by {
                assert(sels@[j] == self.selections@[j].range);
            }
            let pieces = render_line(doc, line, &sels, self.cursor.0, self.cursor_visible);
            let rl = RenderLine { row: rect.pos.row + k as u16, col: rect.pos.col, range: line, pieces };
            let ghost before = out@;
            out.push(rl);
            proof {
                assert forall|q: int|
                    0 <= q < k + 1 implies {
                        let line = #[trigger] out@[q];
                        let st = line.range.start as int;
                        &&& line.row == rect.pos.row + q
                        &&& line.col == rect.pos.col
                        &&& exists|e: int|
                            #[trigger] is_line(text@, self.offset + q, st, e) && line.range.end == if e - st
                                > rect.size.w {
                                st + rect.size.w
                            } else {
                                e
                            }
                        &&& tiles(line.pieces@, st, line.range.end as int)
                        &&& forall|j: int, p: int|
                            #![trigger line.pieces@[j], expected_style(doc@, sels@, self.cursor.0 as int, self.cursor_visible, p)]
                            0 <= j < line.pieces@.len() && line.pieces@[j].range.start <= p
                                < line.pieces@[j].range.end ==> line.pieces@[j].style == expected_style(
                                doc@,
                                sels@,
                                self.cursor.0 as int,
                                self.cursor_visible,
                                p,
                            )
                    } by {
                    if q < k {
                        assert(out@[q] == before[q]);
                    } else {
                        assert(out@[q] == rl);
                        let e = lr.end as int;
                        assert(is_line(text@, self.offset + q, line.start as int, e));
                        assert(rl.row == rect.pos.row + q);
                        assert(rl.range.end == if e - rl.range.start > rect.size.w {
                            rl.range.start + rect.size.w
                        } else {
                            e
                        });
                        assert(tiles(rl.pieces@, rl.range.start as int, rl.range.end as int));
                    }
                }
            }
            k += 1;
        }
        let end_cursor = self.cursor_visible && self.cursor.0 >= text.len();
        RenderPlan { lines: out, end_cursor }
    }
}

impl Default for View {
    fn default() -> (r: View)
        ensures
            r.wf(),
            r.selections@.len() == 0,
            r.offset == 0,
            r.cursor.0 == 0,
            !r.cursor_visible,
            r.last_rendered_size is None,
    {
        View::new()
    }
}

} // verus!

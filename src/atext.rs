use vstd::prelude::*;

use crate::geometry::Range;
use crate::style::{resolve_or_plain, Style, StyledRange};

verus! {

/// A character together with the style it was given, if any.
pub type StyledChar = (char, Option<Style>);

/// The style that a style-table index stands for.
pub open spec fn resolve(styles: Seq<Style>, idx: Option<usize>) -> Option<Style> {
    match idx {
        Some(k) => Some(styles[k as int]),
        None => None,
    }
}

pub open spec fn index_below(idx: Option<usize>, n: int) -> bool {
    match idx {
        Some(k) => k < n,
        None => true,
    }
}

/// Both parts of a text cut at `i`: no left part when `i` is zero, no right
/// part when `i` reaches the end.
pub open spec fn split_view(v: Seq<StyledChar>, i: int) -> (
    Option<Seq<StyledChar>>,
    Option<Seq<StyledChar>>,
) {
    if i == 0 {
        (None, Some(v))
    } else if i >= v.len() {
        (Some(v), None)
    } else {
        (Some(v.take(i)), Some(v.skip(i)))
    }
}

pub open spec fn part_or_empty(p: Option<Seq<StyledChar>>) -> Seq<StyledChar> {
    match p {
        Some(s) => s,
        None => Seq::empty(),
    }
}

/// The text obtained by putting the right part after the left part.
pub open spec fn joined(p: (Option<Seq<StyledChar>>, Option<Seq<StyledChar>>)) -> Seq<StyledChar> {
    part_or_empty(p.0) + part_or_empty(p.1)
}

/// `v` with the positions `[start, end)` replaced by `n`; a range that starts
/// at or after the end of `v` appends `n`.
pub open spec fn replaced(v: Seq<StyledChar>, start: int, end: int, n: Seq<StyledChar>) -> Seq<
    StyledChar,
> {
    if start >= v.len() {
        v + n
    } else if end >= v.len() {
        v.take(start) + n
    } else {
        v.take(start) + n + v.skip(end)
    }
}

/// Characters without style.
pub open spec fn unstyled(s: Seq<char>) -> Seq<StyledChar> {
    Seq::new(s.len(), |i: int| (s[i], None::<Style>))
}

/// Characters all in one style.
pub open spec fn styled(s: Seq<char>, style: Style) -> Seq<StyledChar> {
    Seq::new(s.len(), |i: int| (s[i], Some(style)))
}

/// The positions `[lo, hi)` of `v`, cut into maximal runs of one style: the
/// runs follow each other without gap from `lo` to `hi`, every position of a
/// run has the run's style, and two neighbouring runs differ in style.
pub open spec fn is_run_encoding(
    v: Seq<StyledChar>,
    lo: int,
    hi: int,
    segs: Seq<StyledRange<usize>>,
) -> bool {
    &&& (segs.len() == 0 <==> lo >= hi)
    &&& segs.len() > 0 ==> segs[0].range.start == lo && segs.last().range.end == hi
    &&& forall|k: int|
        0 <= k < segs.len() ==> #[trigger] segs[k].range.start < segs[k].range.end
    &&& forall|k: int|
        0 <= k < segs.len() - 1 ==> #[trigger] segs[k].range.end == segs[k + 1].range.start
    &&& forall|k: int, p: int|
        #![trigger segs[k], v[p]]
        0 <= k < segs.len() && segs[k].range.start <= p < segs[k].range.end ==> v[p].1
            == v[segs[k].range.start as int].1 && segs[k].style == resolve_or_plain(v[p].1)
    &&& forall|k: int|
        0 < k < segs.len() ==> v[#[trigger] segs[k].range.start - 1].1 != v[segs[k].range.start as int].1
}

/// The entries of `other` that `table` does not hold, in their order.
pub open spec fn missing_from(table: Seq<Style>, other: Seq<Style>) -> Seq<Style>
    decreases other.len(),
{
    if other.len() == 0 {
        Seq::empty()
    } else {
        missing_from(table, other.drop_last()) + if table.contains(other.last()) {
            Seq::<Style>::empty()
        } else {
            seq![other.last()]
        }
    }
}

proof fn lemma_missing_from_empty(other: Seq<Style>)
    ensures
        missing_from(Seq::empty(), other) == other,
    decreases other.len(),
{
    if other.len() > 0 {
        lemma_missing_from_empty(other.drop_last());
        assert(other.drop_last().push(other.last()) =~= other);
    }
}

/// The entries of `table` that some character of `v` carries, in the order
/// of the table.
pub open spec fn kept_styles(table: Seq<Style>, v: Seq<StyledChar>) -> Seq<Style>
    decreases table.len(),
{
    if table.len() == 0 {
        Seq::empty()
    } else {
        kept_styles(table.drop_last(), v) + if carries(v, table.last()) {
            seq![table.last()]
        } else {
            Seq::<Style>::empty()
        }
    }
}

/// Some character of `v` carries the style `s`.
pub open spec fn carries(v: Seq<StyledChar>, s: Style) -> bool {
    exists|i: int| 0 <= i < v.len() && #[trigger] v[i].1 == Some(s)
}

/// A text in which every character may carry a style. The styles are kept
/// once each in a table; each character refers to an entry of it, or to none.
#[derive(Clone, Debug)]
pub struct AText {
    text: Vec<char>,
    style_map: Vec<Option<usize>>,
    styles: Vec<Style>,
}

impl View for AText {
    type V = Seq<StyledChar>;

    closed spec fn view(&self) -> Seq<StyledChar> {
        Seq::new(
            self.text@.len(),
            |i: int| (self.text@[i], resolve(self.styles@, self.style_map@[i])),
        )
    }
}

fn copy_vec<T: Copy>(v: &Vec<T>) -> (r: Vec<T>)
    ensures
        r@ == v@,
{
    let mut r: Vec<T> = Vec::new();
    let mut i: usize = 0;
    while i < v.len()
        invariant
            i <= v@.len(),
            r@ == v@.take(i as int),
        decreases v@.len() - i,
    {
        r.push(v[i]);
        i += 1;
        assert(r@ =~= v@.take(i as int));
    }
    assert(r@ =~= v@);
    r
}

/// The first position of `s` in `styles`.
fn find_style(styles: &Vec<Style>, s: &Style) -> (r: Option<usize>)
    ensures
        r matches Some(i) ==> i < styles@.len() && styles@[i as int] == *s,
        r is None ==> !styles@.contains(*s),
{
    let mut i: usize = 0;
    while i < styles.len()
        invariant
            i <= styles@.len(),
            forall|j: int| 0 <= j < i ==> styles@[j] != *s,
        decreases styles@.len() - i,
    {
        if styles[i] == *s {
            return Some(i);
        }
        i += 1;
    }
    None
}

pub open spec fn refers_to(map: Seq<Option<usize>>, k: usize) -> bool {
    exists|i: int| 0 <= i < map.len() && map[i] == Some(k)
}

/// Some entry of `map` is `n`.
pub open spec fn hit(map: Seq<Option<usize>>, n: int) -> bool {
    exists|j: int| 0 <= j < map.len() && map[j] == Some(n as usize)
}

fn is_referenced(map: &Vec<Option<usize>>, k: usize) -> (r: bool)
    ensures
        r == refers_to(map@, k),
{
    let mut i: usize = 0;
    while i < map.len()
        invariant
            i <= map@.len(),
            forall|j: int| 0 <= j < i ==> map@[j] != Some(k),
        decreases map@.len() - i,
    {
        match map[i] {
            Some(x) => {
                if x == k {
                    return true;
                }
            },
            None => {},
        }
        i += 1;
    }
    false
}

/// The entries of `styles` that `map` refers to, in their order, and for
/// each old index its new one.
fn reduce_styles(styles: &Vec<Style>, map: &Vec<Option<usize>>, v: Ghost<Seq<StyledChar>>) -> (r: (
    Vec<Style>,
    Vec<Option<usize>>,
))
    requires
        styles@.no_duplicates(),
        v@.len() == map@.len(),
        forall|i: int| 0 <= i < map@.len() ==> index_below(#[trigger] map@[i], styles@.len() as int),
        forall|i: int| 0 <= i < map@.len() ==> (#[trigger] v@[i]).1 == resolve(styles@, map@[i]),
    ensures
        r.0@ == kept_styles(styles@, v@),
        forall|k1: int, k2: int|
            0 <= k1 < k2 < styles@.len() && (#[trigger] r.1@[k1]) is Some && (#[trigger] r.1@[k2]) is Some
                ==> r.1@[k1]->0 < r.1@[k2]->0,
        r.1@.len() == styles@.len(),
        r.0@.no_duplicates(),
        forall|k: int| 0 <= k < styles@.len() ==> (r.1@[k] is Some <==> refers_to(map@, k as usize)),
        forall|k: int|
            #![trigger r.1@[k]]
            0 <= k < styles@.len() && r.1@[k] is Some ==> r.1@[k]->0 < r.0@.len() && r.0@[r.1@[k]->0 as int]
                == styles@[k],
        forall|n: int| 0 <= n < r.0@.len() ==> #[trigger] hit(r.1@, n),
{
    let mut new_styles: Vec<Style> = Vec::new();
    let mut mapping: Vec<Option<usize>> = Vec::new();
    let mut k: usize = 0;
    while k < styles.len()
        invariant
            k <= styles@.len(),
            styles@.no_duplicates(),
            mapping@.len() == k,
            new_styles@.len() <= k,
            forall|j: int| 0 <= j < k ==> (mapping@[j] is Some <==> refers_to(map@, j as usize)),
            forall|j: int|
                #![trigger mapping@[j]]
                0 <= j < k && mapping@[j] is Some ==> mapping@[j]->0 < new_styles@.len()
                    && new_styles@[mapping@[j]->0 as int] == styles@[j],
            forall|n: int| 0 <= n < new_styles@.len() ==> #[trigger] hit(mapping@, n),
            new_styles@.no_duplicates(),
            v@.len() == map@.len(),
            forall|i: int| 0 <= i < map@.len() ==> index_below(#[trigger] map@[i], styles@.len() as int),
            forall|i: int| 0 <= i < map@.len() ==> (#[trigger] v@[i]).1 == resolve(styles@, map@[i]),
            new_styles@ == kept_styles(styles@.take(k as int), v@),
            forall|k1: int, k2: int|
                0 <= k1 < k2 < k && (#[trigger] mapping@[k1]) is Some && (#[trigger] mapping@[k2]) is Some
                    ==> mapping@[k1]->0 < mapping@[k2]->0,
        decreases styles@.len() - k,
    {
        let ghost old_map = mapping@;
        let ghost old_new = new_styles@;
        proof {
            assert(styles@.take(k + 1).drop_last() =~= styles@.take(k as int));
            assert(styles@.take(k + 1).last() == styles@[k as int]);
            assert(carries(v@, styles@[k as int]) <==> refers_to(map@, k)) by {
                if carries(v@, styles@[k as int]) {
                    let i = choose|i: int| 0 <= i < v@.len() && #[trigger] v@[i].1 == Some(styles@[k as int]);
                    assert(index_below(map@[i], styles@.len() as int));
                    assert(v@[i].1 == resolve(styles@, map@[i]));
                    let j = map@[i]->0;
                    assert(styles@[j as int] == styles@[k as int]);
                    assert(map@[i] == Some(k));
                }
                if refers_to(map@, k) {
                    let i = choose|i: int| 0 <= i < map@.len() && map@[i] == Some(k);
                    assert(v@[i].1 == resolve(styles@, map@[i]));
                }
            }
        }
        if is_referenced(map, k) {
            let n = new_styles.len();
            let s = styles[k];
            proof {
                assert forall|m: int| 0 <= m < new_styles@.len() implies new_styles@[m] != s by {
                    assert(hit(mapping@, m));
                    let j = choose|j: int| 0 <= j < mapping@.len() && mapping@[j] == Some(m as usize);
                    assert(mapping@[j] is Some);
                    assert(new_styles@[m] == styles@[j]);
                    assert(j != k as int);
                }
            }
            mapping.push(Some(n));
            new_styles.push(s);
            proof {
                assert forall|m: int| 0 <= m < new_styles@.len() implies #[trigger] hit(mapping@, m) by {
                    if m == n as int {
                        assert(mapping@[k as int] == Some(m as usize));
                    } else {
                        assert(hit(old_map, m));
                        let j = choose|j: int| 0 <= j < old_map.len() && old_map[j] == Some(m as usize);
                        assert(mapping@[j] == Some(m as usize));
                    }
                }
            }
        } else {
            mapping.push(None);
            proof {
                assert forall|m: int| 0 <= m < new_styles@.len() implies #[trigger] hit(mapping@, m) by {
                    assert(hit(old_map, m));
                    let j = choose|j: int| 0 <= j < old_map.len() && old_map[j] == Some(m as usize);
                    assert(mapping@[j] == Some(m as usize));
                }
            }
        }
        k += 1;
    }
    assert(styles@.take(styles@.len() as int) =~= styles@);
    (new_styles, mapping)
}

impl AText {
    /// The representation is consistent: one table reference per character,
    /// every reference inside the table, and no style twice in the table.
    pub closed spec fn wf(&self) -> bool {
        &&& self.text@.len() == self.style_map@.len()
        &&& forall|i: int|
            0 <= i < self.style_map@.len() ==> index_below(
                #[trigger] self.style_map@[i],
                self.styles@.len() as int,
            )
        &&& self.styles@.no_duplicates()
    }

    /// The table of styles that the characters refer to.
    pub closed spec fn style_table(&self) -> Seq<Style> {
        self.styles@
    }

    /// The characters of the text.
    pub open spec fn chars(&self) -> Seq<char> {
        self@.map_values(|c: StyledChar| c.0)
    }

    /// The table holds exactly the styles that some character carries.
    pub open spec fn table_is_exact(&self) -> bool {
        forall|s: Style|
            self.style_table().contains(s) <==> exists|i: int|
                0 <= i < self@.len() && #[trigger] self@[i].1 == Some(s)
    }

    /// In a consistent text the table holds no style twice.
    pub proof fn lemma_unique_styles(&self)
        requires
            self.wf(),
        ensures
            self.style_table().no_duplicates(),
    {
    }

    /// In a consistent text every style that a character carries is in the
    /// table.
    pub proof fn lemma_carried_in_table(&self)
        requires
            self.wf(),
        ensures
            forall|s: Style| carries(self@, s) ==> #[trigger] self.style_table().contains(s),
    {
        assert forall|s: Style| carries(self@, s) implies #[trigger] self.style_table().contains(s) by {
            let i = choose|i: int| 0 <= i < self@.len() && #[trigger] self@[i].1 == Some(s);
            assert(index_below(self.style_map@[i], self.styles@.len() as int));
            let k = self.style_map@[i]->0;
            assert(self.styles@[k as int] == s);
        }
    }

    /// Two characters of a consistent text refer to the same table entry
    /// exactly when they carry the same style.
    proof fn lemma_same_index(&self, i: int, j: int)
        requires
            self.wf(),
            0 <= i < self.text@.len(),
            0 <= j < self.text@.len(),
        ensures
            (self.style_map@[i] == self.style_map@[j]) <==> (self@[i].1 == self@[j].1),
    {
        assert(index_below(self.style_map@[i], self.styles@.len() as int));
        assert(index_below(self.style_map@[j], self.styles@.len() as int));
    }

    /// An empty text.
    pub fn new() -> (r: AText)
        ensures
            r.wf(),
            r@ == Seq::<StyledChar>::empty(),
            r.style_table() == Seq::<Style>::empty(),
    {
        let r = AText { text: Vec::new(), style_map: Vec::new(), styles: Vec::new() };
        assert(r@ =~= Seq::<StyledChar>::empty());
        r
    }

    /// The characters of `s`, without style.
    pub fn plain(s: &str) -> (r: AText)
        ensures
            r.wf(),
            r@ == unstyled(s@),
            r.style_table() == Seq::<Style>::empty(),
    {
        let n = s.unicode_len();
        let mut text: Vec<char> = Vec::new();
        let mut style_map: Vec<Option<usize>> = Vec::new();
        let mut i: usize = 0;
        while i < n
            invariant
                n == s@.len(),
                i <= n,
                text@ == s@.take(i as int),
                style_map@.len() == i,
                forall|j: int| 0 <= j < i ==> style_map@[j] is None,
            decreases n - i,
        {
            text.push(s.get_char(i));
            style_map.push(None);
            i += 1;
            assert(text@ =~= s@.take(i as int));
        }
        let r = AText { text, style_map, styles: Vec::new() };
        assert(text@ =~= s@);
        assert(r@ =~= unstyled(s@));
        r
    }

    /// The characters of `s`, all in `style`.
    pub fn from_styled(s: &str, style: Style) -> (r: AText)
        ensures
            r.wf(),
            r@ == styled(s@, style),
            r.style_table() == seq![style],
    {
        let n = s.unicode_len();
        let mut text: Vec<char> = Vec::new();
        let mut style_map: Vec<Option<usize>> = Vec::new();
        let mut i: usize = 0;
        while i < n
            invariant
                n == s@.len(),
                i <= n,
                text@ == s@.take(i as int),
                style_map@.len() == i,
                forall|j: int| 0 <= j < i ==> style_map@[j] == Some(0usize),
            decreases n - i,
        {
            text.push(s.get_char(i));
            style_map.push(Some(0));
            i += 1;
            assert(text@ =~= s@.take(i as int));
        }
        let mut styles: Vec<Style> = Vec::new();
        styles.push(style);
        let r = AText { text, style_map, styles };
        assert(text@ =~= s@);
        assert(r@ =~= styled(s@, style));
        assert(r.styles@ =~= seq![style]);
        r
    }

    /// The number of characters.
    pub fn len(&self) -> (r: usize)
        requires
            self.wf(),
        ensures
            r == self@.len(),
    {
        self.text.len()
    }

    /// The number of entries in the style table.
    pub fn style_count(&self) -> (r: usize)
        ensures
            r == self.style_table().len(),
    {
        self.styles.len()
    }

    /// The style table.
    pub fn styles(&self) -> (r: &Vec<Style>)
        ensures
            r@ == self.style_table(),
    {
        &self.styles
    }

    /// The characters of the text.
    pub fn text(&self) -> (r: &Vec<char>)
        requires
            self.wf(),
        ensures
            r@ == self.chars(),
    {
        assert(self.text@ =~= self.chars());
        &self.text
    }

    /// The style of the character at `i`, if it has one.
    pub fn style_at(&self, i: usize) -> (r: Option<Style>)
        requires
            self.wf(),
            i < self@.len(),
        ensures
            r == self@[i as int].1,
    {
        assert(index_below(self.style_map@[i as int], self.styles@.len() as int));
        match self.style_map[i] {
            Some(k) => Some(self.styles[k]),
            None => None,
        }
    }

    /// A copy of the text with the same table.
    pub fn duplicate(&self) -> (r: AText)
        ensures
            r@ == self@,
            r.wf() == self.wf(),
            r.style_table() == self.style_table(),
    {
        let r = AText {
            text: copy_vec(&self.text),
            style_map: copy_vec(&self.style_map),
            styles: copy_vec(&self.styles),
        };
        assert(r.text@ == self.text@);
        assert(r.style_map@ == self.style_map@);
        assert(r.styles@ == self.styles@);
        assert(r@ =~= self@);
        r
    }
}


/// A text made of `text` whose characters refer to `styles` through `map`,
/// with a table cut down to the entries that are used.
fn build_pruned(text: Vec<char>, map: Vec<Option<usize>>, styles: &Vec<Style>) -> (r: AText)
    requires
        text@.len() == map@.len(),
        forall|i: int| 0 <= i < map@.len() ==> index_below(#[trigger] map@[i], styles@.len() as int),
        styles@.no_duplicates(),
    ensures
        r.wf(),
        r.table_is_exact(),
        r@ == Seq::new(text@.len(), |i: int| (text@[i], resolve(styles@, map@[i]))),
        r.style_table() == kept_styles(styles@, r@),
{
    let ghost v = Seq::new(text@.len(), |i: int| (text@[i], resolve(styles@, map@[i])));
    let (new_styles, mapping) = reduce_styles(styles, &map, Ghost(v));
    let mut new_map: Vec<Option<usize>> = Vec::new();
    let mut i: usize = 0;
    while i < map.len()
        invariant
            i <= map@.len(),
            new_map@.len() == i,
            mapping@.len() == styles@.len(),
            forall|k: int|
                #![trigger mapping@[k]]
                0 <= k < styles@.len() && mapping@[k] is Some ==> mapping@[k]->0 < new_styles@.len()
                    && new_styles@[mapping@[k]->0 as int] == styles@[k],
            forall|k: int|
                0 <= k < styles@.len() ==> (mapping@[k] is Some <==> refers_to(map@, k as usize)),
            forall|i: int| 0 <= i < map@.len() ==> index_below(#[trigger] map@[i], styles@.len() as int),
            forall|j: int|
                0 <= j < i ==> index_below(#[trigger] new_map@[j], new_styles@.len() as int)
                    && resolve(new_styles@, new_map@[j]) == resolve(styles@, map@[j])
                    && (new_map@[j] is Some <==> map@[j] is Some)
                    && (map@[j] is Some ==> new_map@[j] == mapping@[map@[j]->0 as int]),
        decreases map@.len() - i,
    {
        let e = match map[i] {
            Some(k) => {
                assert(index_below(map@[i as int], styles@.len() as int));
                assert(refers_to(map@, k));
                assert(mapping@[k as int] is Some);
                mapping[k]
            },
            None => None,
        };
        new_map.push(e);
        i += 1;
    }
    let r = AText { text, style_map: new_map, styles: new_styles };
    assert(r@ =~= Seq::new(text@.len(), |i: int| (text@[i], resolve(styles@, map@[i]))));
    assert forall|s: Style| r.style_table().contains(s) implies exists|i: int|
        0 <= i < r@.len() && #[trigger] r@[i].1 == Some(s) by {
        let n = choose|n: int| 0 <= n < new_styles@.len() && new_styles@[n] == s;
        assert(hit(mapping@, n));
        let k = choose|k: int| 0 <= k < mapping@.len() && mapping@[k] == Some(n as usize);
        assert(refers_to(map@, k as usize));
        let i = choose|i: int| 0 <= i < map@.len() && map@[i] == Some(k as usize);
        assert(map@[i] is Some);
        assert(new_styles@.len() == new_styles.len());
        assert(new_map@[i] == mapping@[k]);
        assert(new_map@[i] == Some(n as usize));
        assert(r@[i] == (text@[i], resolve(new_styles@, new_map@[i])));
        assert(r@[i].1 == Some(s));
    }
    assert forall|s: Style| (exists|i: int| 0 <= i < r@.len() && #[trigger] r@[i].1 == Some(s))
        implies r.style_table().contains(s) by {
        let i = choose|i: int| 0 <= i < r@.len() && #[trigger] r@[i].1 == Some(s);
        assert(index_below(new_map@[i], new_styles@.len() as int));
        assert(new_styles@[new_map@[i]->0 as int] == s);
    }
    r
}

impl AText {
    /// Puts `other` after this text. Each style of `other` that the table
    /// already holds is reused; the others are added at the end of the table.
    pub fn append_text(&mut self, other: AText)
        requires
            old(self).wf(),
            other.wf(),
        ensures
            final(self).wf(),
            final(self)@ == old(self)@ + other@,
            final(self).style_table().no_duplicates(),
            old(self).style_table().is_prefix_of(final(self).style_table()),
            final(self).style_table() == old(self).style_table() + missing_from(
                old(self).style_table(),
                other.style_table(),
            ),
            forall|s: Style|
                final(self).style_table().contains(s) <==> (old(self).style_table().contains(s)
                    || other.style_table().contains(s)),
    {
        let ghost other_tab = other.style_table();
        let AText { text: other_text, style_map: other_map, styles: other_styles } = other;
        let mut mapping: Vec<usize> = Vec::new();
        let mut j: usize = 0;
        while j < other_styles.len()
            invariant
                self.text == old(self).text,
                self.style_map == old(self).style_map,
                j <= other_styles@.len(),
                self.styles@.len() >= old(self).styles@.len(),
                self.styles@.take(old(self).styles@.len() as int) == old(self).styles@,
                self.styles@.no_duplicates(),
                mapping@.len() == j,
                forall|k: int|
                    0 <= k < j ==> #[trigger] mapping@[k] < self.styles@.len() && self.styles@[mapping@[k] as int]
                        == other_styles@[k],
                forall|s: Style|
                    self.styles@.contains(s) <==> (old(self).styles@.contains(s) || exists|k: int|
                        0 <= k < j && #[trigger] other_styles@[k] == s),
                other_styles@ == other_tab,
                other_tab.no_duplicates(),
                self.styles@ == old(self).styles@ + missing_from(old(self).styles@, other_tab.take(j as int)),
            decreases other_styles@.len() - j,
        {
            let s = other_styles[j];
            let ghost before = self.styles@;
            proof {
                assert(other_tab.take(j + 1).drop_last() =~= other_tab.take(j as int));
                assert(other_tab.take(j + 1).last() == s);
                assert(before.contains(s) <==> old(self).styles@.contains(s)) by {
                    if exists|k: int| 0 <= k < j && #[trigger] other_styles@[k] == s {
                        let k = choose|k: int| 0 <= k < j && #[trigger] other_styles@[k] == s;
                        assert(other_tab[k] == other_tab[j as int]);
                    }
                }
            }
            match find_style(&self.styles, &s) {
                Some(i) => {
                    mapping.push(i);
                },
                None => {
                    mapping.push(self.styles.len());
                    self.styles.push(s);
                    assert(self.styles@.take(old(self).styles@.len() as int) =~= before.take(
                        old(self).styles@.len() as int,
                    ));
                    assert forall|a: int, b: int|
                        0 <= a < self.styles@.len() && 0 <= b < self.styles@.len() && a != b
                        implies self.styles@[a] != self.styles@[b] by {
                        if a < before.len() && b < before.len() {
                        } else if a < before.len() {
                            assert(before.contains(before[a]));
                        } else {
                            assert(before.contains(before[b]));
                        }
                    }
                },
            }
            proof {
                assert forall|t: Style|
                    self.styles@.contains(t) <==> (old(self).styles@.contains(t) || exists|k: int|
                        0 <= k < j + 1 && #[trigger] other_styles@[k] == t) by {
                    if self.styles@.contains(t) && !before.contains(t) {
                        assert(t == s);
                        assert(other_styles@[j as int] == t);
                    }
                    if exists|k: int| 0 <= k < j + 1 && #[trigger] other_styles@[k] == t {
                        let k = choose|k: int| 0 <= k < j + 1 && #[trigger] other_styles@[k] == t;
                        if k == j {
                            let m = mapping@[j as int];
                            assert(self.styles@[m as int] == t);
                        } else {
                            assert(before.contains(t));
                            let m = choose|m: int| 0 <= m < before.len() && before[m] == t;
                            assert(self.styles@[m] == t);
                        }
                    }
                    if old(self).styles@.contains(t) {
                        let m = choose|m: int| 0 <= m < old(self).styles@.len() && old(self).styles@[m] == t;
                        assert(self.styles@.take(old(self).styles@.len() as int)[m] == t);
                        assert(self.styles@[m] == t);
                    }
                }
            }
            j += 1;
        }
        assert(other_tab.take(other_tab.len() as int) =~= other_tab);
        let ghost mid_styles = self.styles@;
        let ghost old_len = old(self).text@.len();
        let mut i: usize = 0;
        while i < other_text.len()
            invariant
                i <= other_text@.len(),
                other_text@.len() == other_map@.len(),
                self.styles@ == mid_styles,
                mapping@.len() == other_styles@.len(),
                forall|k: int|
                    0 <= k < other_styles@.len() ==> #[trigger] mapping@[k] < mid_styles.len()
                        && mid_styles[mapping@[k] as int] == other_styles@[k],
                forall|k: int|
                    0 <= k < other_map@.len() ==> index_below(
                        #[trigger] other_map@[k],
                        other_styles@.len() as int,
                    ),
                old_len == old(self).style_map@.len(),
                self.text@.len() == old_len + i,
                self.style_map@.len() == old_len + i,
                self.text@.take(old_len as int) == old(self).text@,
                self.style_map@.take(old_len as int) == old(self).style_map@,
                forall|q: int|
                    0 <= q < i ==> self.text@[old_len + q] == other_text@[q] && index_below(
                        #[trigger] self.style_map@[old_len + q],
                        mid_styles.len() as int,
                    ) && resolve(mid_styles, self.style_map@[old_len + q]) == resolve(
                        other_styles@,
                        other_map@[q],
                    ),
            decreases other_text@.len() - i,
        {
            let e = match other_map[i] {
                Some(k) => {
                    assert(index_below(other_map@[i as int], other_styles@.len() as int));
                    Some(mapping[k])
                },
                None => None,
            };
            let ghost t0 = self.text@;
            let ghost m0 = self.style_map@;
            self.text.push(other_text[i]);
            self.style_map.push(e);
            assert(self.text@.take(old_len as int) =~= t0.take(old_len as int));
            assert(self.style_map@.take(old_len as int) =~= m0.take(old_len as int));
            assert forall|q: int| 0 <= q < i + 1 implies self.text@[old_len + q] == other_text@[q]
                && index_below(#[trigger] self.style_map@[old_len + q], mid_styles.len() as int)
                && resolve(mid_styles, self.style_map@[old_len + q]) == resolve(
                other_styles@,
                other_map@[q],
            ) by {
                if q < i {
                    assert(self.style_map@[old_len + q] == m0[old_len + q]);
                    assert(self.text@[old_len + q] == t0[old_len + q]);
                }
            }
            i += 1;
        }
        proof {
            assert forall|p: int| 0 <= p < self.style_map@.len() implies index_below(
                #[trigger] self.style_map@[p],
                self.styles@.len() as int,
            ) by {
                if p < old_len {
                    assert(self.style_map@[p] == self.style_map@.take(old_len as int)[p]);
                    assert(index_below(old(self).style_map@[p], old(self).styles@.len() as int));
                } else {
                    assert(self.style_map@[old_len + (p - old_len)] == self.style_map@[p]);
                }
            }
            assert forall|p: int| 0 <= p < self@.len() implies #[trigger] self@[p] == (old(self)@
                + other@)[p] by {
                if p < old_len {
                    assert(self.style_map@[p] == self.style_map@.take(old_len as int)[p]);
                    assert(self.text@[p] == self.text@.take(old_len as int)[p]);
                    assert(index_below(old(self).style_map@[p], old(self).styles@.len() as int));
                } else {
                    let q = p - old_len;
                    assert(self.style_map@[old_len + q] == self.style_map@[p]);
                }
            }
            assert(self@ =~= old(self)@ + other@);
            assert(old(self).styles@.is_prefix_of(self.styles@));
        }
    }

    /// Adds the character `c` at the end, in `style` if there is one.
    pub fn push_char_formatted(&mut self, c: char, style: Option<Style>)
        requires
            old(self).wf(),
        ensures
            final(self).wf(),
            final(self)@ == old(self)@.push((c, style)),
            old(self).style_table().is_prefix_of(final(self).style_table()),
            forall|s: Style|
                final(self).style_table().contains(s) <==> (old(self).style_table().contains(s)
                    || style == Some(s)),
    {
        let mut single = AText::new();
        single.text.push(c);
        match style {
            Some(s) => {
                single.style_map.push(Some(0));
                single.styles.push(s);
                assert(single.styles@ =~= seq![s]);
            },
            None => {
                single.style_map.push(None);
            },
        }
        assert(single@ =~= seq![(c, style)]);
        assert(single.wf());
        assert forall|s: Style| single.style_table().contains(s) <==> style == Some(s) by {
            match style {
                Some(t) => {
                    assert(single.styles@ == seq![t]);
                    if s == t {
                        assert(single.styles@[0] == s);
                    }
                },
                None => {
                    assert(single.styles@.len() == 0);
                },
            }
        }
        self.append_text(single);
        assert forall|s: Style|
            #[trigger] self.style_table().contains(s) <==> (old(self).style_table().contains(s) || style == Some(s)) by {
            assert(self.style_table().contains(s) <==> (old(self).style_table().contains(s)
                || single.style_table().contains(s)));
        }
    }

    /// Adds the character `c` at the end, without style.
    pub fn push_char(&mut self, c: char)
        requires
            old(self).wf(),
        ensures
            final(self).wf(),
            final(self)@ == old(self)@.push((c, None::<Style>)),
            final(self).style_table() == old(self).style_table(),
    {
        let ghost m0 = self.style_map@;
        self.text.push(c);
        self.style_map.push(None);
        assert forall|p: int| 0 <= p < self.style_map@.len() implies index_below(
            #[trigger] self.style_map@[p],
            self.styles@.len() as int,
        ) by {
            if p < m0.len() {
                assert(self.style_map@[p] == m0[p]);
            }
        }
        assert(self@ =~= old(self)@.push((c, None::<Style>)));
    }
}


impl AText {
    /// Cuts the text at `index`. At zero there is no left part, at or after
    /// the end no right part. Otherwise each part gets its own table, holding
    /// only the styles that the part uses.
    pub fn split_at_index(self, index: usize) -> (r: (Option<AText>, Option<AText>))
        requires
            self.wf(),
        ensures
            r.0 is Some == split_view(self@, index as int).0 is Some,
            r.1 is Some == split_view(self@, index as int).1 is Some,
            r.0 matches Some(l) ==> l.wf() && l@ == split_view(self@, index as int).0->0,
            r.1 matches Some(t) ==> t.wf() && t@ == split_view(self@, index as int).1->0,
            index == 0 ==> r.1 == Some(self),
            index != 0 && index >= self@.len() ==> r.0 == Some(self),
            0 < index < self@.len() ==> (r.0 matches Some(l) && l.table_is_exact()),
            0 < index < self@.len() ==> (r.1 matches Some(t) && t.table_is_exact()),
            0 < index < self@.len() ==> (r.0 matches Some(l) && l.style_table() == kept_styles(
                self.style_table(),
                l@,
            )),
            0 < index < self@.len() ==> (r.1 matches Some(t) && t.style_table() == kept_styles(
                self.style_table(),
                t@,
            )),
    {
        if index == 0 {
            (None, Some(self))
        } else if index >= self.len() {
            (Some(self), None)
        } else {
            let ghost v = self@;
            let AText { text: mut ltext, style_map: mut lmap, styles } = self;
            let ghost t0 = ltext@;
            let ghost m0 = lmap@;
            let rtext = ltext.split_off(index);
            let rmap = lmap.split_off(index);
            assert forall|i: int| 0 <= i < lmap@.len() implies index_below(
                #[trigger] lmap@[i],
                styles@.len() as int,
            ) by {
                assert(lmap@[i] == m0[i]);
            }
            assert forall|i: int| 0 <= i < rmap@.len() implies index_below(
                #[trigger] rmap@[i],
                styles@.len() as int,
            ) by {
                assert(rmap@[i] == m0[i + index]);
            }
            let left = build_pruned(ltext, lmap, &styles);
            let right = build_pruned(rtext, rmap, &styles);
            assert(left@ =~= v.take(index as int));
            assert(right@ =~= v.skip(index as int));
            (Some(left), Some(right))
        }
    }

    /// Replaces the characters in `r` by `new_text`. A range that starts at
    /// or after the end appends `new_text`; a range that runs past the end
    /// replaces everything from its start on.
    pub fn replace_range(&mut self, r: std::ops::Range<usize>, new_text: AText)
        requires
            old(self).wf(),
            new_text.wf(),
            r.start <= r.end,
        ensures
            final(self).wf(),
            final(self)@ == replaced(old(self)@, r.start as int, r.end as int, new_text@),
            final(self).style_table().no_duplicates(),
            r.start >= old(self)@.len() ==> old(self).style_table().is_prefix_of(
                final(self).style_table(),
            ),
            r.start >= old(self)@.len() ==> forall|s: Style|
                #[trigger] final(self).style_table().contains(s) <==> (old(
                    self,
                ).style_table().contains(s) || new_text.style_table().contains(s)),
            r.start >= old(self)@.len() ==> final(self).style_table() == old(self).style_table()
                + missing_from(old(self).style_table(), new_text.style_table()),
            r.start < old(self)@.len() && r.end == 0 ==> final(self).style_table()
                == new_text.style_table() + missing_from(
                new_text.style_table(),
                old(self).style_table(),
            ),
            r.start < old(self)@.len() && r.end == 0 ==> forall|s: Style|
                #[trigger] final(self).style_table().contains(s) <==> (new_text.style_table().contains(
                    s,
                ) || old(self).style_table().contains(s)),
            r.start < old(self)@.len() && r.end > 0 ==> forall|s: Style|
                #[trigger] final(self).style_table().contains(s) <==> (carries(final(self)@, s)
                    || new_text.style_table().contains(s)),
    {
        let len = self.len();
        if r.start >= len {
            self.append_text(new_text);
            proof {
                self.lemma_unique_styles();
            }
            return;
        }
        let ghost new_tab = new_text.style_table();
        let ghost new_v = new_text@;
        let mut whole = AText::new();
        std::mem::swap(self, &mut whole);
        let ghost v = whole@;
        let ghost old_tab = whole.style_table();
        let (left, rest) = whole.split_at_index(r.start);
        let ghost left_g = left;
        let mut res = match left {
            Some(l) => l,
            None => AText::new(),
        };
        let ghost left_tab = res.style_table();
        assert(res@ == v.take(r.start as int));
        res.append_text(new_text);
        let ghost mid_tab = res.style_table();
        let rest = match rest {
            Some(t) => t,
            None => AText::new(),
        };
        let ghost rest_g = rest;
        assert(rest@ == v.skip(r.start as int));
        let (_, right) = rest.split_at_index(r.end - r.start);
        let ghost right_g = right;
        match right {
            Some(t) => {
                assert(t@ =~= v.skip(r.end as int));
                res.append_text(t);
            },
            None => {},
        }
        *self = res;
        proof {
            if r.end >= len {
                assert(self@ =~= v.take(r.start as int) + new_text@);
            } else {
                assert(self@ =~= v.take(r.start as int) + new_text@ + v.skip(r.end as int));
            }
            self.lemma_unique_styles();
            self.lemma_carried_in_table();
            let fin = self.style_table();
            assert forall|s: Style| mid_tab.contains(s) <==> (left_tab.contains(s) || new_tab.contains(s)) by {}
            if r.end == 0 {
                assert(left_tab =~= Seq::<Style>::empty());
                lemma_missing_from_empty(new_tab);
                assert(mid_tab =~= new_tab);
                assert(right_g == Some(rest_g));
                assert(rest_g == whole);
                assert forall|s: Style| #[trigger] fin.contains(s) <==> (new_tab.contains(s)
                    || old_tab.contains(s)) by {
                    assert(mid_tab.contains(s) <==> (left_tab.contains(s) || new_tab.contains(s)));
                }
            } else {
                if right_g is Some {
                    let t = right_g->0;
                    if r.end - r.start == 0 {
                        assert(t == rest_g);
                    }
                    assert(t.table_is_exact());
                }
                if r.start > 0 {
                    assert(left_g is Some);
                    assert(left_g->0.table_is_exact());
                }
                assert forall|s: Style| #[trigger] fin.contains(s) implies (carries(self@, s)
                    || new_tab.contains(s)) by {
                    if left_tab.contains(s) {
                        let l = left_g->0;
                        let i = choose|i: int| 0 <= i < l@.len() && #[trigger] l@[i].1 == Some(s);
                        assert(self@[i] == l@[i]);
                    }
                    if right_g is Some && right_g->0.style_table().contains(s) {
                        let t = right_g->0;
                        let i = choose|i: int| 0 <= i < t@.len() && #[trigger] t@[i].1 == Some(s);
                        let off = self@.len() - t@.len();
                        assert(self@[off + i] == t@[i]);
                    }
                }
                assert forall|s: Style| (carries(self@, s) || new_tab.contains(s)) implies #[trigger] fin.contains(s) by {
                    if new_tab.contains(s) {
                        assert(mid_tab.contains(s));
                        if right_g is Some {
                            let k = choose|k: int| 0 <= k < mid_tab.len() && mid_tab[k] == s;
                            assert(fin[k] == s);
                        }
                    }
                }
            }
        }
    }

    /// The texts of `elems`, one after the other.
    pub fn from_multiple(elems: Vec<AText>) -> (r: AText)
        requires
            forall|i: int| 0 <= i < elems@.len() ==> (#[trigger] elems@[i]).wf(),
        ensures
            r.wf(),
            r.style_table().no_duplicates(),
            r@ == elems@.map_values(|t: AText| t@).flatten(),
    {
        let mut res = AText::new();
        let mut elems = elems;
        let ghost all = elems@;
        let mut rest: Vec<AText> = Vec::new();
        // take the elements from the front by reversing once
        while elems.len() > 0
            invariant
                rest@ + elems@.reverse() == all.reverse(),
            decreases elems@.len(),
        {
            let ghost e0 = elems@;
            let x = elems.pop().unwrap();
            rest.push(x);
            assert(e0 == elems@.push(x));
            assert(e0.reverse() =~= seq![x] + elems@.reverse());
            assert(rest@ + elems@.reverse() =~= all.reverse());
        }
        assert(rest@ =~= all.reverse());
        let mut k: usize = 0;
        let n = rest.len();
        while rest.len() > 0
            invariant
                n == all.len(),
                k + rest@.len() == n,
                rest@ == all.skip(k as int).reverse(),
                forall|i: int| 0 <= i < all.len() ==> (#[trigger] all[i]).wf(),
                res.wf(),
                res@ == all.take(k as int).map_values(|t: AText| t@).flatten(),
            decreases rest@.len(),
        {
            let ghost r0 = rest@;
            let x = rest.pop().unwrap();
            assert(r0 == rest@.push(x));
            assert(x == all[k as int]) by {
                assert(r0.last() == all.skip(k as int).reverse().last());
            }
            res.append_text(x);
            proof {
                let f = |t: AText| t@;
                assert(all.take(k + 1).map_values(f) =~= all.take(k as int).map_values(f).push(x@));
                all.take(k as int).map_values(f).lemma_flatten_push(x@);
                assert(rest@ =~= all.skip(k + 1).reverse());
            }
            k += 1;
        }
        assert(all.take(n as int) =~= all);
        proof {
            res.lemma_unique_styles();
        }
        res
    }
}


fn same_entry(a: Option<usize>, b: Option<usize>) -> (r: bool)
    ensures
        r == (a == b),
{
    match (a, b) {
        (Some(x), Some(y)) => x == y,
        (None, None) => true,
        _ => false,
    }
}

impl AText {
    /// The style that the character at `i` is drawn in.
    pub fn style_or_plain(&self, i: usize) -> (r: Style)
        requires
            self.wf(),
            i < self@.len(),
        ensures
            r == resolve_or_plain(self@[i as int].1),
    {
        match self.style_at(i) {
            Some(s) => s,
            None => Style::new(),
        }
    }

    /// The characters in `r`, cut into maximal runs of one style, each with
    /// the style it is drawn in.
    pub fn get_range_style_pairs(&self, r: Range<usize>) -> (res: Vec<StyledRange<usize>>)
        requires
            self.wf(),
            r.start <= r.end <= self@.len(),
        ensures
            is_run_encoding(self@, r.start as int, r.end as int, res@),
    {
        let mut res: Vec<StyledRange<usize>> = Vec::new();
        if r.start >= r.end {
            return res;
        }
        let mut start = r.start;
        let mut i = r.start + 1;
        while i < r.end
            invariant
                self.wf(),
                r.start <= start < i <= r.end <= self@.len(),
                forall|p: int| start <= p < i ==> (#[trigger] self@[p]).1 == self@[start as int].1,
                start > r.start ==> self@[start - 1].1 != self@[start as int].1,
                res@.len() > 0 ==> res@.last().range.end == start,
                res@.len() == 0 <==> start == r.start,
                is_run_encoding(self@, r.start as int, start as int, res@),
            decreases r.end - i,
        {
            proof {
                self.lemma_same_index(i as int, start as int);
            }
            if !same_entry(self.style_map[i], self.style_map[start]) {
                let seg = StyledRange { style: self.style_or_plain(start), range: Range { start, end: i } };
                let ghost before = res@;
                res.push(seg);
                proof {
                    assert forall|k: int, p: int|
                        #![trigger res@[k], self@[p]]
                        0 <= k < res@.len() && res@[k].range.start <= p < res@[k].range.end implies
                        self@[p].1 == self@[res@[k].range.start as int].1 && res@[k].style
                            == resolve_or_plain(self@[p].1) by {
                        if k < before.len() {
                            assert(res@[k] == before[k]);
                        }
                    }
                    assert(self@[i - 1].1 == self@[start as int].1);
                }
                start = i;
            }
            i += 1;
        }
        let seg = StyledRange { style: self.style_or_plain(start), range: Range { start, end: r.end } };
        let ghost before = res@;
        res.push(seg);
        proof {
            assert forall|k: int, p: int|
                #![trigger res@[k], self@[p]]
                0 <= k < res@.len() && res@[k].range.start <= p < res@[k].range.end implies
                self@[p].1 == self@[res@[k].range.start as int].1 && res@[k].style
                    == resolve_or_plain(self@[p].1) by {
                if k < before.len() {
                    assert(res@[k] == before[k]);
                }
            }
        }
        res
    }
}


/// Appending texts one after the other keeps every character's style: the
/// character at position `q` of the `j`-th part stands, with the same style,
/// at its offset in the result.
pub proof fn lemma_appends_keep_styles(parts: Seq<Seq<StyledChar>>, j: int, q: int)
    requires
        0 <= j < parts.len(),
        0 <= q < parts[j].len(),
    ensures
        parts.take(j).flatten().len() + q < parts.flatten().len(),
        parts.flatten()[parts.take(j).flatten().len() + q] == parts[j][q],
{
    assert(parts =~= parts.take(j) + parts.skip(j));
    vstd::seq_lib::lemma_flatten_concat(parts.take(j), parts.skip(j));
    assert(parts.skip(j).first() == parts[j]);
    assert(parts.skip(j).drop_first() =~= parts.skip(j + 1));
    assert(parts.skip(j).flatten() == parts[j] + parts.skip(j + 1).flatten());
}

/// After any sequence of appends, a run of the result that holds the
/// character at position `q` of the `j`-th part is drawn in the style that
/// character was given in its part.
pub proof fn lemma_runs_after_appends(
    parts: Seq<Seq<StyledChar>>,
    segs: Seq<StyledRange<usize>>,
    lo: int,
    hi: int,
    j: int,
    q: int,
    k: int,
)
    requires
        is_run_encoding(parts.flatten(), lo, hi, segs),
        0 <= j < parts.len(),
        0 <= q < parts[j].len(),
        0 <= k < segs.len(),
        segs[k].range.start <= parts.take(j).flatten().len() + q < segs[k].range.end,
    ensures
        segs[k].style == resolve_or_plain(parts[j][q].1),
{
    lemma_appends_keep_styles(parts, j, q);
    let p = parts.take(j).flatten().len() + q;
    assert(segs[k].style == resolve_or_plain(parts.flatten()[p].1));
}

/// Cutting a text at any index and putting the right part after the left
/// part gives back the text, character by character and style by style.
pub proof fn lemma_split_then_append(v: Seq<StyledChar>, i: int)
    requires
        0 <= i,
    ensures
        joined(split_view(v, i)) == v,
{
    if i == 0 {
        assert(joined(split_view(v, i)) =~= v);
    } else if i >= v.len() {
        assert(joined(split_view(v, i)) =~= v);
    } else {
        assert(v.take(i) + v.skip(i) =~= v);
    }
}

/// Replacing a range of a text by the characters it already holds, with
/// their styles, leaves the text as it was.
pub proof fn lemma_replace_with_own_contents(v: Seq<StyledChar>, start: int, end: int)
    requires
        0 <= start <= end <= v.len(),
    ensures
        replaced(v, start, end, v.subrange(start, end)) == v,
{
    if start >= v.len() {
        assert(v.subrange(start, end) =~= Seq::<StyledChar>::empty());
        assert(v + v.subrange(start, end) =~= v);
    } else if end >= v.len() {
        assert(v.take(start) + v.subrange(start, end) =~= v);
    } else {
        assert(v.take(start) + v.subrange(start, end) + v.skip(end) =~= v);
    }
}

impl From<&str> for AText {
    fn from(value: &str) -> AText {
        AText::plain(value)
    }
}

impl vstd::std_specs::convert::FromSpecImpl<&str> for AText {
    open spec fn obeys_from_spec() -> bool {
        false
    }

    open spec fn from_spec(v: &str) -> AText {
        arbitrary()
    }
}

impl From<String> for AText {
    fn from(value: String) -> AText {
        AText::plain(value.as_str())
    }
}

impl vstd::std_specs::convert::FromSpecImpl<String> for AText {
    open spec fn obeys_from_spec() -> bool {
        false
    }

    open spec fn from_spec(v: String) -> AText {
        arbitrary()
    }
}

impl AText {
    /// Whether the representation is consistent (see `wf`). Every text built
    /// through this library is.
    pub fn is_consistent(&self) -> (r: bool)
        ensures
            r == self.wf(),
    {
        if self.text.len() != self.style_map.len() {
            return false;
        }
        let n = self.styles.len();
        let mut i: usize = 0;
        while i < self.style_map.len()
            invariant
                i <= self.style_map@.len(),
                n == self.styles@.len(),
                forall|j: int| 0 <= j < i ==> index_below(#[trigger] self.style_map@[j], n as int),
            decreases self.style_map@.len() - i,
        {
            if let Some(k) = self.style_map[i] {
                if k >= n {
                    return false;
                }
            }
            i += 1;
        }
        let mut a: usize = 0;
        while a < n
            invariant
                a <= n,
                n == self.styles@.len(),
                forall|x: int, y: int| 0 <= x < a && x < y < n ==> self.styles@[x] != self.styles@[y],
            decreases n - a,
        {
            let mut b: usize = a + 1;
            while b < n
                invariant
                    a < n,
                    a + 1 <= b <= n,
                    n == self.styles@.len(),
                    forall|x: int, y: int| 0 <= x < a && x < y < n ==> self.styles@[x] != self.styles@[y],
                    forall|y: int| a < y < b ==> self.styles@[a as int] != self.styles@[y],
                decreases n - b,
            {
                if self.styles[a] == self.styles[b] {
                    return false;
                }
                b += 1;
            }
            a += 1;
        }
        true
    }
}

impl std::ops::Add<AText> for AText {
    type Output = AText;

    /// `self` with `rhs` appended; see `append_text`.
    fn add(self, rhs: AText) -> AText {
        let mut res = self;
        res.append_text(rhs);
        res
    }
}

impl vstd::std_specs::ops::AddSpecImpl<AText> for AText {
    open spec fn obeys_add_spec() -> bool {
        false
    }

    open spec fn add_req(self, rhs: AText) -> bool {
        self.wf() && rhs.wf()
    }

    open spec fn add_spec(self, rhs: AText) -> AText {
        arbitrary()
    }
}

impl std::ops::AddAssign<AText> for AText {
    /// Appends `rhs`; see `append_text`.
    fn add_assign(&mut self, rhs: AText) {
        if self.is_consistent() && rhs.is_consistent() {
            self.append_text(rhs);
        }
    }
}

} // verus!

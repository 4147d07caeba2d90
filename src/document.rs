use vstd::prelude::*;

use crate::atext::{unstyled, AText, StyledChar};
use crate::style::Style;

verus! {

/// The text that one or more buffers show.
pub struct Document {
    content: AText,
}

impl View for Document {
    type V = Seq<StyledChar>;

    closed spec fn view(&self) -> Seq<StyledChar> {
        self.content@
    }
}

impl Document {
    pub closed spec fn wf(&self) -> bool {
        self.content.wf()
    }

    /// The style table of the document's text.
    pub closed spec fn style_table(&self) -> Seq<Style> {
        self.content.style_table()
    }

    /// The characters of the document.
    pub open spec fn chars(&self) -> Seq<char> {
        self@.map_values(|c: StyledChar| c.0)
    }

    pub fn from_text(text: AText) -> (r: Document)
        requires
            text.wf(),
        ensures
            r.wf(),
            r@ == text@,
            r.style_table() == text.style_table(),
    {
        Document { content: text }
    }

    pub fn new() -> (r: Document)
        ensures
            r.wf(),
            r@ == Seq::<StyledChar>::empty(),
            r.style_table() == Seq::<Style>::empty(),
    {
        Document { content: AText::new() }
    }

    /// The text of the document.
    pub fn content(&self) -> (r: &AText)
        requires
            self.wf(),
        ensures
            r.wf(),
            r@ == self@,
            r.style_table() == self.style_table(),
    {
        &self.content
    }

    /// The number of characters.
    pub fn len(&self) -> (r: usize)
        requires
            self.wf(),
        ensures
            r == self@.len(),
    {
        self.content.len()
    }

    /// Adds `t` and a line break at the end.
    pub fn add_line(&mut self, t: AText)
        requires
            old(self).wf(),
            t.wf(),
        ensures
            final(self).wf(),
            final(self)@ == old(self)@ + t@ + unstyled(seq!['\n']),
            old(self).style_table().is_prefix_of(final(self).style_table()),
            forall|s: Style|
                #[trigger] final(self).style_table().contains(s) <==> (old(self).style_table().contains(s)
                    || t.style_table().contains(s)),
    {
        self.content.append_text(t);
        self.content.push_char('\n');
        assert(self@ =~= old(self)@ + t@ + unstyled(seq!['\n']));
    }

    /// Replaces the characters in `r` by `new_text`, as `AText::replace_range`.
    pub fn replace_range(&mut self, r: std::ops::Range<usize>, new_text: AText)
        requires
            old(self).wf(),
            new_text.wf(),
            r.start <= r.end,
        ensures
            final(self).wf(),
            final(self)@ == crate::atext::replaced(old(self)@, r.start as int, r.end as int, new_text@),
    {
        self.content.replace_range(r, new_text);
    }

    /// Puts `text` in place of the whole text and hands out the text it had.
    pub fn replace_content(&mut self, text: AText) -> (r: AText)
        requires
            old(self).wf(),
            text.wf(),
        ensures
            r.wf(),
            r@ == old(self)@,
            r.style_table() == old(self).style_table(),
            final(self).wf(),
            final(self)@ == text@,
            final(self).style_table() == text.style_table(),
    {
        let mut res = text;
        std::mem::swap(&mut res, &mut self.content);
        res
    }

    /// Hands out the whole text and leaves the document empty.
    pub fn take(&mut self) -> (r: AText)
        requires
            old(self).wf(),
        ensures
            r.wf(),
            r@ == old(self)@,
            r.style_table() == old(self).style_table(),
            final(self).wf(),
            final(self)@ == Seq::<StyledChar>::empty(),
            final(self).style_table() == Seq::<Style>::empty(),
    {
        let mut res = AText::new();
        std::mem::swap(&mut res, &mut self.content);
        res
    }
}

impl Default for Document {
    fn default() -> (r: Document)
        ensures
            r.wf(),
            r@ == Seq::<StyledChar>::empty(),
    {
        Document::new()
    }
}

} // verus!

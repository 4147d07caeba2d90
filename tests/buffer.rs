use ablet::{
    adjust_for_seletions, get_line_ranges, range, rect, to_line_range, AText, BufferPosition,
    Color, Document, InputEvent, KeyCode, Range, Selection, SimpleLineHandler,
    SimpleLineHandlerResult, Style, StyledRange, TextPosition, View, REVERSE_ATTRIBUTE,
};

fn chars(s: &str) -> Vec<char> {
    s.chars().collect()
}

fn doc_text(d: &Document) -> String {
    d.content().text().iter().collect()
}

fn green() -> Style {
    Style::new().with_foreground(Color::Green)
}

fn pieces(v: &[StyledRange<usize>]) -> Vec<(usize, usize, Style)> {
    v.iter().map(|p| (p.range.start, p.range.end, p.style)).collect()
}

#[test]
fn line_ranges() {
    let r: Vec<(usize, usize)> =
        get_line_ranges(&chars("ab\ncde\n\nf")).iter().map(|r| (r.start, r.end)).collect();
    assert_eq!(r, vec![(0, 2), (3, 6), (7, 7), (8, 9)]);
    let r: Vec<(usize, usize)> = get_line_ranges(&chars("")).iter().map(|r| (r.start, r.end)).collect();
    assert_eq!(r, vec![(0, 0)]);
    let r: Vec<(usize, usize)> = get_line_ranges(&chars("x\n")).iter().map(|r| (r.start, r.end)).collect();
    assert_eq!(r, vec![(0, 1), (2, 2)]);
}

#[test]
fn text_positions() {
    let d = Document::from_text(AText::from("ab\ncde\nf"));
    assert_eq!(BufferPosition::new(0, 1).to_text_pos(&d), 1);
    assert_eq!(BufferPosition::new(1, 0).to_text_pos(&d), 3);
    assert_eq!(BufferPosition::new(2, 1).to_text_pos(&d), 8);
    assert_eq!(BufferPosition::new(5, 2).to_text_pos(&d), 10);
}

#[test]
fn selection_overlay_covers_the_segment() {
    let seg = StyledRange { style: green(), range: range(0usize, 20usize) };
    let sels = vec![range(2usize, 4usize), range(8, 12), range(18, 30), range(40, 50)];
    let out = adjust_for_seletions(seg, &sels);
    let hl = green().on_grey();
    assert_eq!(
        pieces(&out),
        vec![
            (0, 2, green()),
            (2, 4, hl),
            (4, 8, green()),
            (8, 12, hl),
            (12, 18, green()),
            (18, 20, hl)
        ]
    );
    let whole = adjust_for_seletions(seg, &[range(0usize, 20usize)]);
    assert_eq!(pieces(&whole), vec![(0, 20, hl)]);
    let none = adjust_for_seletions(seg, &[]);
    assert_eq!(pieces(&none), vec![(0, 20, green())]);
    let apart = adjust_for_seletions(seg, &[range(20usize, 25usize), range(30, 40)]);
    assert_eq!(pieces(&apart), vec![(0, 20, green())]);
}

#[test]
fn selection_parts_in_a_line() {
    let sel = Selection { range: range(3usize, 10usize) };
    let part = to_line_range(&sel, range(5, 20)).unwrap();
    assert_eq!((part.start, part.end), (5, 10));
    assert!(to_line_range(&sel, range(10, 20)).is_none());
}

#[test]
fn render_plan_with_cursor_and_selection() {
    let mut text = AText::from("hello\n");
    text.append_text(AText::from_styled("world wide", green()));
    let d = Document::from_text(text);
    let mut v = View::new();
    v.cursor = TextPosition(8);
    v.cursor_visible = true;
    v.selections.push(Selection { range: range(2usize, 4usize) });
    let plan = v.render_doc(&d, rect(3, 4, 8, 5));
    assert!(!plan.end_cursor);
    assert_eq!(plan.lines.len(), 2);
    assert_eq!((plan.lines[0].row, plan.lines[0].col), (3, 4));
    assert_eq!((plan.lines[1].row, plan.lines[1].col), (4, 4));
    let plain = Style::new();
    assert_eq!(
        pieces(&plan.lines[0].pieces),
        vec![(0, 2, plain), (2, 4, plain.on_grey()), (4, 5, plain)]
    );
    // the second line is cut to the width of eight cells
    assert_eq!((plan.lines[1].range.start, plan.lines[1].range.end), (6, 14));
    assert_eq!(
        pieces(&plan.lines[1].pieces),
        vec![(6, 8, green()), (8, 9, Style::cursor()), (9, 14, green())]
    );
    assert_eq!(Style::cursor().attributes, REVERSE_ATTRIBUTE);
    assert_eq!(v.last_rendered_size, Some(rect(0, 0, 8, 5).size));
}

#[test]
fn render_plan_scrolls_and_marks_end_cursor() {
    let d = Document::from_text(AText::from("a\nb\nc\nd"));
    let mut v = View::new();
    v.offset = 2;
    v.cursor = TextPosition(7);
    v.cursor_visible = true;
    let plan = v.render_doc(&d, rect(0, 0, 10, 1));
    assert_eq!(plan.lines.len(), 1);
    assert_eq!((plan.lines[0].range.start, plan.lines[0].range.end), (4, 5));
    assert!(plan.end_cursor);
    v.offset = 9;
    assert_eq!(v.render_doc(&d, rect(0, 0, 10, 1)).lines.len(), 0);
}

#[test]
fn scrolling_follows_the_tail() {
    let mut d = Document::new();
    let mut v = View::new();
    v.scroll_down(&d);
    assert_eq!(v.offset, 0);
    v.render_doc(&d, rect(0, 0, 10, 3));
    for i in 0..5 {
        d.add_line(AText::from(format!("line {i}").as_str()));
    }
    v.scroll_down(&d);
    assert_eq!(v.offset, 2);
    d.add_line(AText::from("more"));
    v.scroll_down(&d);
    assert_eq!(v.offset, 3);
}

#[test]
fn editing_at_the_cursor() {
    let mut d = Document::from_text(AText::from("ac"));
    let mut v = View::new();
    v.cursor = TextPosition(1);
    v.insert_char_at_cursor('b', &mut d);
    assert_eq!(doc_text(&d), "abc");
    assert_eq!(v.cursor, TextPosition(2));
    v.insert_text_at_cursor(AText::from("XY"), &mut d);
    assert_eq!(doc_text(&d), "abXYc");
    assert_eq!(v.cursor, TextPosition(4));
    v.delete_char_before_cursor(&mut d);
    assert_eq!(doc_text(&d), "abXc");
    assert_eq!(v.cursor, TextPosition(3));
    v.cursor = TextPosition(0);
    v.delete_char_before_cursor(&mut d);
    assert_eq!(doc_text(&d), "abXc");
    assert_eq!(v.cursor, TextPosition(0));
    v.move_cursor_by(-3, &d);
    assert_eq!(v.cursor, TextPosition(0));
    v.move_cursor_by(10, &d);
    assert_eq!(v.cursor, TextPosition(4));
    v.move_cursor_by(-1, &d);
    assert_eq!(v.cursor, TextPosition(3));
}

#[test]
fn line_start_and_end() {
    let d = Document::from_text(AText::from("one\ntwo\nthree"));
    let mut v = View::new();
    v.cursor = TextPosition(5);
    v.move_cursor_to_line_start(&d);
    assert_eq!(v.cursor, TextPosition(4));
    v.move_cursor_to_line_end(&d);
    assert_eq!(v.cursor, TextPosition(7));
    v.cursor = TextPosition(100);
    v.move_cursor_to_line_start(&d);
    assert_eq!(v.cursor, TextPosition(8));
}

#[test]
fn document_lines_and_take() {
    let mut d = Document::new();
    d.add_line(AText::from_styled("hi", green()));
    d.add_line(AText::from("there"));
    assert_eq!(doc_text(&d), "hi\nthere\n");
    assert_eq!(d.content().style_at(0), Some(green()));
    assert_eq!(d.content().style_at(2), None);
    let t = d.take();
    assert_eq!(t.len(), 9);
    assert_eq!(d.len(), 0);
    let old = d.replace_content(AText::from("new"));
    assert_eq!(old.len(), 0);
    assert_eq!(doc_text(&d), "new");
}

#[test]
fn line_handler_keys() {
    let mut d = Document::new();
    let mut v = View::new();
    let mut h = SimpleLineHandler;
    let key = |c: KeyCode, control: bool| InputEvent::Key { code: c, control };
    assert_eq!(h.handle(&key(KeyCode::Char('h'), false), &mut v, &mut d), None);
    assert_eq!(h.handle(&key(KeyCode::Char('i'), false), &mut v, &mut d), None);
    assert_eq!(doc_text(&d), "hi");
    assert_eq!(h.handle(&InputEvent::Paste("!!".to_string()), &mut v, &mut d), None);
    assert_eq!(doc_text(&d), "hi!!");
    assert_eq!(v.cursor, TextPosition(4));
    h.handle(&key(KeyCode::Backspace, false), &mut v, &mut d);
    assert_eq!(doc_text(&d), "hi!");
    h.handle(&key(KeyCode::Left, false), &mut v, &mut d);
    assert_eq!(v.cursor, TextPosition(2));
    h.handle(&key(KeyCode::Char('a'), true), &mut v, &mut d);
    assert_eq!(v.cursor, TextPosition(0));
    h.handle(&key(KeyCode::Char('e'), true), &mut v, &mut d);
    assert_eq!(v.cursor, TextPosition(3));
    h.handle(&key(KeyCode::Right, false), &mut v, &mut d);
    assert_eq!(v.cursor, TextPosition(3));
    assert_eq!(
        h.handle(&key(KeyCode::Enter, false), &mut v, &mut d),
        Some(SimpleLineHandlerResult::LineDone)
    );
    assert_eq!(
        h.handle(&key(KeyCode::Char('c'), true), &mut v, &mut d),
        Some(SimpleLineHandlerResult::Abort)
    );
    assert_eq!(doc_text(&d), "hi!");
    let _: Range<usize> = range(0, 0);
}

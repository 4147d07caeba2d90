use ablet::{AText, Color, Style};

fn green() -> Style {
    Style::new().with_foreground(Color::Green)
}

fn blue() -> Style {
    Style::new().with_foreground(Color::Blue)
}

fn chars_of(t: &AText) -> String {
    t.text().iter().collect()
}

fn concat(parts: Vec<AText>) -> AText {
    AText::from_multiple(parts)
}

#[test]
fn test_conversion() {
    let a = AText::from("foo");
    assert_eq!(chars_of(&a), "foo");
    assert_eq!(a.style_count(), 0);
    assert_eq!(a.style_at(0), None);

    let b = AText::from("foo".to_string());
    assert_eq!(chars_of(&b), "foo");
    assert_eq!(b.style_count(), 0);

    let c = AText::from_styled("foo", green());
    assert_eq!(chars_of(&c), "foo");
    assert_eq!(c.styles(), &vec![green()]);
    for i in 0..3 {
        assert_eq!(c.style_at(i), Some(green()));
    }
}

#[test]
fn test_append_text_and_split_at() {
    let foo = AText::from("hello ")
        + AText::from_styled("beautiful", green())
        + AText::from(" ")
        + AText::from_styled("World", blue());
    assert_eq!(chars_of(&foo), "hello beautiful World");
    assert_eq!(foo.styles(), &vec![green(), blue()]);
    assert_eq!(foo.style_count(), 2);
    assert_eq!(foo.style_at(5), None);
    assert_eq!(foo.style_at(6), Some(green()));
    assert_eq!(foo.style_at(15), None);
    assert_eq!(foo.style_at(16), Some(blue()));

    let (l, r) = foo.split_at_index(8);
    let l = l.unwrap();
    let r = r.unwrap();
    assert_eq!(chars_of(&l), "hello be");
    assert_eq!(l.styles(), &vec![green()]);
    assert_eq!(l.style_at(6), Some(green()));
    assert_eq!(l.style_at(0), None);
    assert_eq!(chars_of(&r), "autiful World");
    assert_eq!(r.styles(), &vec![green(), blue()]);
    assert_eq!(r.style_at(0), Some(green()));
    assert_eq!(r.style_at(7), None);
    assert_eq!(r.style_at(8), Some(blue()));
}

#[test]
fn test_replace_range() {
    let mut foo = AText::from("Hello ") + AText::from_styled("world", green());
    foo.replace_range(0..0, AText::from("Oh, "));
    assert_eq!(chars_of(&foo), "Oh, Hello world");
    assert_eq!(foo.styles(), &vec![green()]);
    assert_eq!(foo.style_at(3), None);
    assert_eq!(foo.style_at(10), Some(green()));

    let n = foo.len();
    foo.replace_range(n..n, AText::from("!"));
    assert_eq!(chars_of(&foo), "Oh, Hello world!");
    assert_eq!(foo.styles(), &vec![green()]);
    assert_eq!(foo.style_at(15), None);

    let n = foo.len();
    foo.replace_range(n..(n + 1), AText::from("!"));
    assert_eq!(chars_of(&foo), "Oh, Hello world!!");
    assert_eq!(foo.styles(), &vec![green()]);

    let n = foo.len();
    foo.replace_range((n - 1)..n, AText::from(""));
    assert_eq!(chars_of(&foo), "Oh, Hello world!");
    assert_eq!(foo.styles(), &vec![green()]);
    assert_eq!(foo.style_at(14), Some(green()));
    assert_eq!(foo.style_at(15), None);

    foo.replace_range(9..15, AText::from(""));
    assert_eq!(chars_of(&foo), "Oh, Hello!");
    assert_eq!(foo.styles(), &Vec::<Style>::new());
    assert_eq!(foo.style_count(), 0);
}

#[test]
fn add_operators_append() {
    let mut t = AText::from("a") + AText::from_styled("b", green());
    t += AText::from_styled("c", blue());
    assert_eq!(chars_of(&t), "abc");
    assert_eq!(t.styles(), &vec![green(), blue()]);
}

#[test]
fn append_reuses_equal_styles() {
    let mut t = AText::from_styled("ab", green());
    t.append_text(AText::from_styled("cd", green()));
    t.append_text(AText::from_styled("ef", blue()));
    t.append_text(AText::from_styled("gh", green()));
    assert_eq!(chars_of(&t), "abcdefgh");
    assert_eq!(t.style_count(), 2);
    assert_eq!(t.style_at(2), Some(green()));
    assert_eq!(t.style_at(4), Some(blue()));
    assert_eq!(t.style_at(7), Some(green()));
}

#[test]
fn append_hello_world_then_split() {
    let mut t = AText::from_styled("hello ", green());
    t.append_text(AText::from("world"));
    let (l, r) = t.split_at_index(6);
    let l = l.unwrap();
    let r = r.unwrap();
    assert_eq!(chars_of(&l), "hello ");
    assert_eq!(l.style_count(), 1);
    for i in 0..6 {
        assert_eq!(l.style_at(i), Some(green()));
    }
    assert_eq!(chars_of(&r), "world");
    assert_eq!(r.style_count(), 0);
    for i in 0..5 {
        assert_eq!(r.style_at(i), None);
    }
}

#[test]
fn split_at_edges() {
    let t = AText::from("abc");
    let (l, r) = t.split_at_index(0);
    assert!(l.is_none());
    assert_eq!(chars_of(&r.unwrap()), "abc");

    let t = AText::from("abc");
    let (l, r) = t.split_at_index(3);
    assert_eq!(chars_of(&l.unwrap()), "abc");
    assert!(r.is_none());

    let t = AText::from("abc");
    let (l, r) = t.split_at_index(10);
    assert_eq!(chars_of(&l.unwrap()), "abc");
    assert!(r.is_none());
}

#[test]
fn split_then_append_round_trip() {
    let t = concat(vec![
        AText::from_styled("red", Style::new().with_foreground(Color::Red)),
        AText::from("plain"),
        AText::from_styled("blue", blue()),
    ]);
    for i in 0..=t.len() + 1 {
        let copy = t.duplicate();
        let (l, r) = copy.split_at_index(i);
        let mut joined = l.unwrap_or_else(AText::new);
        if let Some(r) = r {
            joined.append_text(r);
        }
        assert_eq!(chars_of(&joined), chars_of(&t));
        for p in 0..t.len() {
            assert_eq!(joined.style_at(p), t.style_at(p));
        }
    }
}

#[test]
fn replace_with_own_contents_keeps_text() {
    let t = concat(vec![AText::from("ab"), AText::from_styled("cd", green()), AText::from("ef")]);
    for s in 0..t.len() {
        for e in s..=t.len() {
            let mut u = t.duplicate();
            let own = u.duplicate().split_at_index(e).0.map(|x| x.split_at_index(s).1);
            let middle = match own {
                Some(Some(m)) => m,
                _ => AText::new(),
            };
            let middle = if e == s { AText::new() } else { middle };
            u.replace_range(s..e, middle);
            assert_eq!(chars_of(&u), chars_of(&t));
            for p in 0..t.len() {
                assert_eq!(u.style_at(p), t.style_at(p));
            }
        }
    }
}

#[test]
fn replace_prefix_keeps_styles_after_it() {
    let mut t = concat(vec![AText::from("Hello "), AText::from_styled("world", green())]);
    t.replace_range(0..0, AText::from("Oh, "));
    assert_eq!(chars_of(&t), "Oh, Hello world");
    for p in 0..10 {
        assert_eq!(t.style_at(p), None);
    }
    for p in 10..15 {
        assert_eq!(t.style_at(p), Some(green()));
    }
}

#[test]
fn replace_range_in_the_middle_and_at_the_start() {
    let mut t = AText::from("abcdef");
    t.replace_range(2..4, AText::from_styled("XYZ", blue()));
    assert_eq!(chars_of(&t), "abXYZef");
    assert_eq!(t.style_at(3), Some(blue()));
    assert_eq!(t.len(), 6 - 2 + 3);

    let mut t = AText::from("abcdef");
    t.replace_range(0..2, AText::from("Z"));
    assert_eq!(chars_of(&t), "Zcdef");

    let mut t = AText::from("abcdef");
    t.replace_range(4..10, AText::from("Q"));
    assert_eq!(chars_of(&t), "abcdQ");
}

#[test]
fn push_chars() {
    let mut t = AText::new();
    t.push_char('a');
    t.push_char_formatted('b', Some(green()));
    t.push_char_formatted('c', Some(green()));
    t.push_char_formatted('d', None);
    assert_eq!(chars_of(&t), "abcd");
    assert_eq!(t.style_count(), 1);
    assert_eq!(t.style_at(1), Some(green()));
    assert_eq!(t.style_at(3), None);
}

#[test]
fn style_runs() {
    let t = concat(vec![
        AText::from("ab"),
        AText::from_styled("cde", green()),
        AText::from_styled("f", blue()),
    ]);
    let runs = t.get_range_style_pairs(ablet::range(1usize, 6usize));
    let got: Vec<(usize, usize, Style)> =
        runs.iter().map(|r| (r.range.start, r.range.end, r.style)).collect();
    assert_eq!(got, vec![(1, 2, Style::new()), (2, 5, green()), (5, 6, blue())]);
    assert!(t.get_range_style_pairs(ablet::range(3usize, 3usize)).is_empty());
}

#[test]
fn unicode_is_indexed_by_character() {
    let t = AText::from("héllo");
    assert_eq!(t.len(), 5);
    let (l, r) = t.split_at_index(2);
    assert_eq!(chars_of(&l.unwrap()), "hé");
    assert_eq!(chars_of(&r.unwrap()), "llo");
}

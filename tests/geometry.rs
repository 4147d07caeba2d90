use ablet::{range, rect, BufferPosition, OverlapDescription, Range, Rect, Size};

fn bounds(r: Range<usize>) -> (usize, usize) {
    (r.start, r.end)
}

#[test]
fn rect_and_position_constructors() {
    let r = Rect::new(1, 2, 3, 4);
    assert_eq!(r, rect(1, 2, 3, 4));
    assert_eq!(r.pos, BufferPosition::new(1, 2));
    assert_eq!(r.size, Size { w: 3, h: 4 });
}

#[test]
fn range_split_and_shorten() {
    let r = range(2usize, 8usize);
    assert_eq!(r.len(), 6);
    let (a, b) = r.split_at_index(5);
    assert_eq!(bounds(a.unwrap()), (2, 5));
    assert_eq!(bounds(b.unwrap()), (5, 8));
    let (a, b) = r.split_at_index(0);
    assert!(a.is_none());
    assert_eq!(bounds(b.unwrap()), (2, 8));
    let (a, b) = r.split_at_index(9);
    assert_eq!(bounds(a.unwrap()), (2, 8));
    assert!(b.is_none());
    assert_eq!(bounds(r.shortened_to(3)), (2, 5));
    assert_eq!(bounds(r.shortened_to(10)), (2, 8));
    assert_eq!(r.into_native(), 2..8);
    let small = range(3u16, 7u16);
    assert_eq!(small.len(), 4);
    assert_eq!(small.shortened_to(1).end, 4);
}

#[test]
fn overlap_classification() {
    let seg = range(10usize, 20usize);
    assert!(matches!(seg.get_overlap_with(&range(0, 5)), OverlapDescription::Disjoint));
    assert!(matches!(seg.get_overlap_with(&range(20, 25)), OverlapDescription::Disjoint));
    assert!(matches!(seg.get_overlap_with(&range(5, 20)), OverlapDescription::Complete));
    match seg.get_overlap_with(&range(5, 12)) {
        OverlapDescription::Left { foreign, old } => {
            assert_eq!(bounds(foreign), (10, 12));
            assert_eq!(bounds(old), (12, 20));
        }
        _ => panic!("expected a left overlap"),
    }
    match seg.get_overlap_with(&range(15, 30)) {
        OverlapDescription::Right { old, foreign } => {
            assert_eq!(bounds(old), (10, 15));
            assert_eq!(bounds(foreign), (15, 20));
        }
        _ => panic!("expected a right overlap"),
    }
    match seg.get_overlap_with(&range(12, 14)) {
        OverlapDescription::Inner { old_l, foreign, old_r } => {
            assert_eq!(bounds(old_l), (10, 12));
            assert_eq!(bounds(foreign), (12, 14));
            assert_eq!(bounds(old_r), (14, 20));
        }
        _ => panic!("expected an inner overlap"),
    }
    assert!(seg.overlaps(&range(19, 40)));
    assert!(!seg.overlaps(&range(20, 40)));
}

#[test]
fn conversions() {
    let r: Range<usize> = Range::from(2usize..5);
    assert_eq!(bounds(r), (2, 5));
    assert_eq!(Size::from((3u16, 4u16)), Size { w: 3, h: 4 });
}

use ablet::{
    rect, BorderMap, BufferPosition, Orientation, Rect, Size, Split, SplitContent, SplitSize,
    SplitTree,
};

fn leaf(id: usize) -> SplitContent {
    SplitContent::Leaf(id)
}

#[test]
fn test_splits_valid() {
    let inner = Split::new(
        vec![SplitSize::Proportion(1), SplitSize::Proportion(1)],
        vec![leaf(0), leaf(0)],
    );
    let tree = SplitTree::new(
        Split::new(
            vec![SplitSize::Proportion(2), SplitSize::Proportion(1)],
            vec![SplitContent::Branch(inner), leaf(0)],
        ),
        Orientation::Vertical,
    );
    let Some(split_map) = tree.compute_rects((40, 40)) else {
        assert!(false, "unexpected None");
        return;
    };
    let mut rects: Vec<Rect> = split_map.rects.iter().map(|(r, _)| *r).collect();
    rects.sort_unstable();
    assert_eq!(rects, vec![rect(0, 0, 20, 26), rect(0, 21, 19, 26), rect(27, 0, 40, 13)]);
}

#[test]
fn two_equal_rows_leave_the_remainder_to_the_last() {
    let tree = SplitTree::new(
        Split::new(vec![SplitSize::Proportion(1), SplitSize::Proportion(1)], vec![leaf(1), leaf(2)]),
        Orientation::Vertical,
    );
    let m = tree.compute_rects((40, 10)).unwrap();
    assert_eq!(m.rects, vec![(rect(0, 0, 40, 5), 1), (rect(6, 0, 40, 4), 2)]);
    let heights: u16 = m.rects.iter().map(|(r, _)| r.size.h).sum();
    assert_eq!(heights + 1, 10);
    for col in 0..40 {
        assert!(m.border_map.0[5][col].in_horizontal_border);
        assert!(!m.border_map.0[5][col].in_vertical_border);
        assert!(!m.border_map.0[4][col].in_horizontal_border);
        assert!(!m.border_map.0[6][col].in_horizontal_border);
    }
}

#[test]
fn fixed_and_proportional_columns() {
    let tree = SplitTree::new(
        Split::new(
            vec![SplitSize::Fixed(10), SplitSize::Proportion(1), SplitSize::Fixed(5)],
            vec![leaf(0), leaf(1), leaf(2)],
        ),
        Orientation::Horizontal,
    );
    let m = tree.compute_rects((50, 8)).unwrap();
    // 10 + (1 + 33) + (1 + 5) = 50
    assert_eq!(
        m.rects,
        vec![(rect(0, 0, 10, 8), 0), (rect(0, 11, 33, 8), 1), (rect(0, 45, 5, 8), 2)]
    );
    for row in 0..8 {
        assert!(m.border_map.0[row][10].in_vertical_border);
        assert!(m.border_map.0[row][44].in_vertical_border);
        assert!(!m.border_map.0[row][11].in_vertical_border);
    }
}

#[test]
fn every_cell_is_a_pane_or_a_border() {
    let inner = Split::new(
        vec![SplitSize::Proportion(3), SplitSize::Fixed(4), SplitSize::Proportion(2)],
        vec![leaf(1), leaf(2), leaf(3)],
    );
    let tree = SplitTree::new(
        Split::new(
            vec![SplitSize::Proportion(1), SplitSize::Proportion(1)],
            vec![leaf(0), SplitContent::Branch(inner)],
        ),
        Orientation::Horizontal,
    );
    let (w, h) = (37u16, 23u16);
    let m = tree.compute_rects((w, h)).unwrap();
    for y in 0..h {
        for x in 0..w {
            let panes = m
                .rects
                .iter()
                .filter(|(r, _)| {
                    r.pos.row <= y && y < r.pos.row + r.size.h && r.pos.col <= x && x < r.pos.col + r.size.w
                })
                .count();
            let cell = m.border_map.0[y as usize][x as usize];
            let border = cell.in_vertical_border || cell.in_horizontal_border;
            assert_eq!(panes + border as usize, 1, "cell {y} {x}");
        }
    }
}

#[test]
fn too_small_gives_no_layout() {
    let tree = SplitTree::new(
        Split::new(
            vec![SplitSize::Fixed(3), SplitSize::Proportion(1), SplitSize::Proportion(1)],
            vec![leaf(0), leaf(1), leaf(2)],
        ),
        Orientation::Horizontal,
    );
    // minimum: 3 + (1 + 1) + (1 + 1) = 7 columns
    assert!(tree.compute_rects((7, 1)).is_some());
    for w in 0..7 {
        assert!(tree.compute_rects((w, 5)).is_none());
    }
    assert!(tree.compute_rects((20, 0)).is_none());
}

#[test]
fn fixed_children_larger_than_the_room() {
    let tree = SplitTree::new(
        Split::new(vec![SplitSize::Fixed(30), SplitSize::Fixed(30)], vec![leaf(0), leaf(1)]),
        Orientation::Vertical,
    );
    assert!(tree.compute_rects((10, 40)).is_none());
    assert!(tree.compute_rects((10, 61)).is_some());
}

#[test]
fn validity_of_splits() {
    let empty = Split::new(vec![], vec![]);
    assert!(!empty.is_valid());
    let mismatched = Split::new(vec![SplitSize::Fixed(1)], vec![leaf(0), leaf(1)]);
    assert!(!mismatched.is_valid());
    let zero_weights = Split::new(vec![SplitSize::Proportion(0)], vec![leaf(0)]);
    assert!(!zero_weights.is_valid());
    let ok = Split::new(vec![SplitSize::Proportion(0), SplitSize::Proportion(2)], vec![leaf(0), leaf(1)]);
    assert!(ok.is_valid());
}

#[test]
fn border_map_operations() {
    let mut m = BorderMap::new(Size { w: 4, h: 3 });
    assert_eq!(m.size(), Size { w: 4, h: 3 });
    m.add_vertical(BufferPosition::new(0, 2), 3);
    for row in 0..3 {
        assert!(m.0[row][2].in_vertical_border);
        assert!(!m.0[row][1].in_vertical_border);
    }
    m.add_horizontal(BufferPosition::new(1, 0), 4);
    for col in 0..4 {
        assert!(m.0[1][col].in_horizontal_border);
        assert!(!m.0[0][col].in_horizontal_border);
    }
    let mut big = BorderMap::new(Size { w: 6, h: 5 });
    big.update(m, BufferPosition::new(2, 1));
    assert!(big.0[2][3].in_vertical_border);
    assert!(big.0[3][1].in_horizontal_border);
    assert!(!big.0[0][3].in_vertical_border);
    assert!(!big.0[3][0].in_horizontal_border);
    assert_eq!(BorderMap::new(Size { w: 5, h: 0 }).size(), Size { w: 0, h: 0 });
}

#[test]
fn orientation_flips() {
    assert_eq!(Orientation::Horizontal.flip(), Orientation::Vertical);
    assert_eq!(Orientation::Vertical.flip(), Orientation::Horizontal);
}

use graphics::frame::Frame;

#[test]
fn new_frame_holds_value_everywhere() {
    let frame = Frame::new(3, 2, 7u32);
    assert_eq!(frame.width(), 3);
    assert_eq!(frame.height(), 2);
    for y in 0..2 {
        for x in 0..3 {
            assert_eq!(frame.at(x, y), Some(7));
        }
    }
}

#[test]
fn at_is_none_out_of_range() {
    let frame = Frame::new(3, 2, 7u32);
    assert_eq!(frame.at(3, 0), None);
    assert_eq!(frame.at(0, 2), None);
    assert_eq!(frame.at(usize::MAX, usize::MAX), None);
}

#[test]
fn set_changes_one_cell() {
    let mut frame = Frame::new(3, 2, 0u32);
    frame.set(1, 1, 9);
    for y in 0..2 {
        for x in 0..3 {
            let expected = if (x, y) == (1, 1) { 9 } else { 0 };
            assert_eq!(frame.at(x, y), Some(expected));
        }
    }
}

#[test]
fn set_out_of_range_does_nothing() {
    let mut frame = Frame::new(3, 2, 0u32);
    frame.set(3, 1, 9);
    frame.set(1, 2, 9);
    for y in 0..2 {
        for x in 0..3 {
            assert_eq!(frame.at(x, y), Some(0));
        }
    }
}

#[test]
fn frame_without_cells_keeps_its_size() {
    let mut frame = Frame::new(5, 0, 1u8);
    assert_eq!(frame.width(), 5);
    assert_eq!(frame.height(), 0);
    assert_eq!(frame.at(0, 0), None);
    frame.set(0, 0, 9);
    frame.set_all(9);
    assert_eq!(frame.width(), 5);
    assert_eq!(frame.height(), 0);
    assert_eq!(frame.at(4, 0), None);
    let narrow = Frame::new(0, 4, 1u8);
    assert_eq!(narrow.width(), 0);
    assert_eq!(narrow.height(), 4);
    assert_eq!(narrow.at(0, 3), None);
}

#[test]
fn set_all_overwrites_every_cell() {
    let mut frame = Frame::new(2, 2, 1u8);
    frame.set(0, 1, 5);
    frame.set_all(3);
    for y in 0..2 {
        for x in 0..2 {
            assert_eq!(frame.at(x, y), Some(3));
        }
    }
    assert_eq!(frame.width(), 2);
    assert_eq!(frame.height(), 2);
}

#[test]
fn frame_behaves_as_rows_of_cells() {
    // A run of writes, some of them off the frame, against plain rows.
    let (width, height) = (7usize, 5usize);
    let mut frame = Frame::new(width, height, 0u32);
    let mut rows = vec![vec![0u32; width]; height];
    let mut state = 12345u32;
    for step in 0..2000u32 {
        state = state.wrapping_mul(1_103_515_245).wrapping_add(12345);
        let x = (state >> 8) as usize % (width + 3);
        let y = (state >> 16) as usize % (height + 3);
        frame.set(x, y, step);
        if x < width && y < height {
            rows[y][x] = step;
        }
        if step % 97 == 0 {
            for cy in 0..height + 2 {
                for cx in 0..width + 2 {
                    let expected = rows.get(cy).and_then(|row| row.get(cx)).copied();
                    assert_eq!(frame.at(cx, cy), expected);
                }
            }
        }
    }
    assert_eq!(frame.width(), width);
    assert_eq!(frame.height(), height);
}

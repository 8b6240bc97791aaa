use puyocomp::window::{wrap_index, DecodeWindow, WindowBuffer, WINDOW_SIZE};

#[test]
fn wrap_index_reduces_modulo_the_window_size() {
    assert_eq!(WINDOW_SIZE, 256);
    assert_eq!(wrap_index(0), 0);
    assert_eq!(wrap_index(255), 255);
    assert_eq!(wrap_index(256), 0);
    assert_eq!(wrap_index(257), 1);
    assert_eq!(wrap_index(1000), 232);
}

#[test]
fn new_window_is_empty() {
    let w = WindowBuffer::new();
    assert_eq!(w.cursor(), 0);
    for i in 0..WINDOW_SIZE {
        assert_eq!(w.read(i), None);
    }
}

#[test]
fn write_stores_at_the_cursor_and_advances() {
    let mut w = WindowBuffer::new();
    w.write(10);
    w.write(20);
    assert_eq!(w.cursor(), 2);
    assert_eq!(w.read(0), Some(10));
    assert_eq!(w.read(1), Some(20));
    assert_eq!(w.read(2), None);
}

#[test]
fn read_wraps_its_offset() {
    let mut w = WindowBuffer::new();
    w.write(10);
    assert_eq!(w.read(256), Some(10));
    assert_eq!(w.read(512), Some(10));
    assert_eq!(w.read(257), None);
}

#[test]
fn cursor_wraps_after_256_writes() {
    let mut w = WindowBuffer::new();
    for i in 0..256u32 {
        w.write(i as u8);
    }
    assert_eq!(w.cursor(), 0);
    w.write(99);
    assert_eq!(w.cursor(), 1);
    assert_eq!(w.read(0), Some(99));
    assert_eq!(w.read(1), Some(1));
}

#[test]
fn snapshot_and_restore_bring_the_state_back() {
    let mut w = WindowBuffer::new();
    w.write(1);
    let saved = w.snapshot();
    w.write(2);
    w.write(3);
    assert_eq!(w.cursor(), 3);
    w.restore(&saved);
    assert_eq!(w.cursor(), 1);
    assert_eq!(w.read(0), Some(1));
    assert_eq!(w.read(1), None);
}

#[test]
fn find_in_an_empty_window_fails() {
    let w = WindowBuffer::new();
    assert_eq!(w.find(&vec![0]), None);
    assert_eq!(w.find(&vec![1, 2, 3]), None);
}

#[test]
fn find_of_nothing_is_the_cursor() {
    let mut w = WindowBuffer::new();
    assert_eq!(w.find(&vec![]), Some(0));
    w.write(4);
    w.write(5);
    assert_eq!(w.find(&vec![]), Some(2));
}

#[test]
fn find_returns_the_start_offset() {
    let mut w = WindowBuffer::new();
    for b in [1u8, 2, 3, 4, 5] {
        w.write(b);
    }
    assert_eq!(w.find(&vec![3, 4]), Some(2));
    assert_eq!(w.find(&vec![5]), Some(4));
    assert_eq!(w.find(&vec![4, 3]), None);
    assert_eq!(w.find(&vec![6]), None);
}

#[test]
fn find_prefers_the_oldest_match() {
    let mut w = WindowBuffer::new();
    for b in [1u8, 2, 9, 1, 2] {
        w.write(b);
    }
    assert_eq!(w.find(&vec![1, 2]), Some(0));
    // Once the ring is full the oldest byte is under the cursor.
    let mut full = WindowBuffer::new();
    for i in 0..260u32 {
        full.write((i % 2) as u8);
    }
    assert_eq!(full.cursor(), 4);
    assert_eq!(full.find(&vec![0, 1]), Some(4));
    assert_eq!(full.find(&vec![1, 0]), Some(5));
}

#[test]
fn find_follows_a_copy_into_what_it_writes() {
    let mut w = WindowBuffer::new();
    w.write(7);
    assert_eq!(w.find(&vec![7, 7, 7, 7]), Some(0));
    w.write(8);
    assert_eq!(w.find(&vec![7, 8, 7, 8, 7]), Some(0));
    assert_eq!(w.find(&vec![8, 8, 8]), Some(1));
    assert_eq!(w.find(&vec![7, 8, 8]), None);
}

#[test]
fn find_does_not_read_unwritten_cells() {
    let mut w = WindowBuffer::new();
    w.write(0);
    assert_eq!(w.find(&vec![0]), Some(0));
    // Cell 1 is empty, not zero: a copy from cell 0 continues into what it
    // has written, a copy from cell 1 has nothing to read.
    assert_eq!(w.read(1), None);
    assert_eq!(w.find(&vec![0, 0]), Some(0));
}

#[test]
fn find_leaves_the_window_as_it_was() {
    let mut w = WindowBuffer::new();
    for b in [1u8, 2, 3] {
        w.write(b);
    }
    assert_eq!(w.find(&vec![1, 2, 3, 1, 2, 3]), Some(0));
    assert_eq!(w.cursor(), 3);
    assert_eq!(w.read(3), None);
    assert_eq!(w.read(4), None);
    assert_eq!(w.find(&vec![2, 3, 4]), None);
    assert_eq!(w.cursor(), 3);
    assert_eq!(w.read(3), None);
}

#[test]
fn find_wraps_around_the_end_of_the_ring() {
    let mut w = WindowBuffer::new();
    for i in 0..258u32 {
        w.write(i as u8);
    }
    // Cells 0 and 1 now hold 0 and 1 again, written last; cell 255 holds 255.
    assert_eq!(w.cursor(), 2);
    assert_eq!(w.find(&vec![255, 0, 1]), Some(255));
    assert_eq!(w.find(&vec![254, 255, 0]), Some(254));
}

#[test]
fn decode_window_starts_zeroed() {
    let w = DecodeWindow::new();
    assert_eq!(w.cursor(), 0);
    for i in 0..WINDOW_SIZE {
        assert_eq!(w.read(i), 0);
    }
}

#[test]
fn decode_window_writes_and_wraps() {
    let mut w = DecodeWindow::new();
    for i in 0..257u32 {
        w.write((i + 1) as u8);
    }
    assert_eq!(w.cursor(), 1);
    assert_eq!(w.read(0), 1);
    assert_eq!(w.read(1), 2);
    assert_eq!(w.read(255), 0);
    assert_eq!(w.read(256), 1);
}

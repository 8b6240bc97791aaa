use puyocomp::compress::CompressInstance;

fn encode(data: &[u8]) -> Vec<u8> {
    CompressInstance::new(data.to_vec()).compress()
}

/// Positions of the command bytes of a stream, found by walking it.
fn command_positions(stream: &[u8]) -> Vec<usize> {
    let mut at = 0;
    let mut found = Vec::new();
    while at < stream.len() {
        found.push(at);
        let c = stream[at];
        if c == 0 {
            break;
        } else if c < 0x80 {
            at += 1 + c as usize;
        } else {
            at += 2;
        }
    }
    found
}

/// 300 bytes in which no three neighbours occur twice, nor repeat what
/// stands just before them.
fn without_repeats() -> Vec<u8> {
    let mut data = Vec::new();
    for i in 0..300usize {
        let k = i / 2;
        if i % 2 == 0 {
            data.push((k % 100) as u8);
        } else {
            data.push(100 + (k / 100) as u8);
        }
    }
    data
}

#[test]
fn empty_input_is_the_terminator_alone() {
    assert_eq!(encode(&[]), vec![0x00]);
}

#[test]
fn single_byte_is_a_run_of_one() {
    assert_eq!(encode(&[0x42]), vec![0x01, 0x42, 0x00]);
}

#[test]
fn two_bytes_are_one_run() {
    assert_eq!(encode(&[7, 7]), vec![0x02, 7, 7, 0x00]);
}

#[test]
fn ten_identical_bytes_use_an_overlapping_copy() {
    let stream = encode(&[0xAB; 10]);
    assert_eq!(stream, vec![0x01, 0xAB, 0x86, 0x00, 0x00]);
}

#[test]
fn three_identical_bytes_stay_literal() {
    // After the first byte only two are left: too few for a back-reference.
    assert_eq!(encode(&[5, 5, 5]), vec![0x03, 5, 5, 5, 0x00]);
}

#[test]
fn four_identical_bytes_copy_three() {
    assert_eq!(encode(&[5, 5, 5, 5]), vec![0x01, 5, 0x80, 0x00, 0x00]);
}

#[test]
fn repeated_triple_is_referenced_by_its_distance() {
    let stream = encode(&[1, 2, 3, 4, 5, 1, 2, 3]);
    assert_eq!(stream, vec![0x05, 1, 2, 3, 4, 5, 0x80, 0x04, 0x00]);
}

#[test]
fn byte_that_breaks_a_match_goes_to_the_next_run() {
    let stream = encode(&[1, 2, 3, 4, 5, 1, 2, 3, 9]);
    assert_eq!(stream, vec![0x05, 1, 2, 3, 4, 5, 0x80, 0x04, 0x01, 9, 0x00]);
}

#[test]
fn known_byte_with_too_little_input_left_stays_literal() {
    assert_eq!(encode(&[1, 2, 1, 2]), vec![0x04, 1, 2, 1, 2, 0x00]);
}

#[test]
fn alternating_pair_is_copied_with_distance_one() {
    let stream = encode(&[1, 2, 1, 2, 1, 2, 1, 2]);
    assert_eq!(stream, vec![0x02, 1, 2, 0x83, 0x01, 0x00]);
}

#[test]
fn run_is_cut_at_127_literals() {
    let data: Vec<u8> = (0..200u32).map(|i| i as u8).collect();
    let stream = encode(&data);
    let mut expected = vec![0x7F];
    expected.extend_from_slice(&data[..127]);
    expected.push(73);
    expected.extend_from_slice(&data[127..]);
    expected.push(0x00);
    assert_eq!(stream, expected);
}

#[test]
fn full_run_is_followed_by_a_run_even_where_a_match_exists() {
    // Bytes 127..130 repeat bytes 0..3, but the run that ends at 127 ended
    // because it was full, so the next command is a run again.
    let mut data: Vec<u8> = (0..127u32).map(|i| i as u8).collect();
    data.extend_from_slice(&[0, 1, 2, 3]);
    let stream = encode(&data);
    let mut expected = vec![0x7F];
    expected.extend_from_slice(&data[..127]);
    expected.extend_from_slice(&[0x01, 0, 0x80, 0x7E, 0x00]);
    assert_eq!(stream, expected);
}

#[test]
fn back_reference_is_cut_at_130_bytes() {
    // The second copy of 70 bytes starts at the oldest nine, 131 cells back.
    let stream = encode(&[9; 201]);
    assert_eq!(stream, vec![0x01, 9, 0xFF, 0x00, 0xC3, 0x82, 0x00]);
}

#[test]
fn byte_that_left_the_window_is_a_literal_again() {
    let mut data = without_repeats();
    for j in 0..3 {
        data[j] = 250 + j as u8;
        data[280 + j] = 250 + j as u8;
    }
    assert_eq!(data.len(), 300);
    assert_eq!(data[0], data[280]);
    let stream = encode(&data);
    let mut expected = vec![0x7F];
    expected.extend_from_slice(&data[..127]);
    expected.push(0x7F);
    expected.extend_from_slice(&data[127..254]);
    expected.push(46);
    expected.extend_from_slice(&data[254..]);
    expected.push(0x00);
    assert_eq!(stream, expected);
    // Byte 280 stands among the literals of the third run.
    assert_eq!(stream[2 + 254 + 1 + 26], data[280]);
}

#[test]
fn byte_still_in_the_window_is_referenced() {
    // The same three bytes, 250 apart: the first ones are still in the ring.
    let mut data = without_repeats();
    for j in 0..3 {
        data[j] = 250 + j as u8;
        data[250 + j] = 250 + j as u8;
    }
    let stream = encode(&data);
    let commands = command_positions(&stream);
    let references: Vec<usize> =
        commands.iter().copied().filter(|&at| stream[at] >= 0x80).collect();
    assert_eq!(references.len(), 1);
    let at = references[0];
    assert_eq!(stream[at], 0x80);
    assert_eq!(stream[at + 1], 249);
}

#[test]
fn command_bytes_are_in_range_and_terminator_is_last() {
    let mut data = Vec::new();
    let mut x: u32 = 12345;
    for _ in 0..3000 {
        x = x.wrapping_mul(1103515245).wrapping_add(12345);
        data.push(((x >> 16) % 4) as u8);
    }
    let stream = encode(&data);
    let commands = command_positions(&stream);
    let last = *commands.last().unwrap();
    assert_eq!(last, stream.len() - 1);
    assert_eq!(stream[last], 0x00);
    let mut total = 0usize;
    for &at in &commands[..commands.len() - 1] {
        let c = stream[at];
        assert_ne!(c, 0x00);
        if c < 0x80 {
            assert!((1..=0x7F).contains(&c));
            total += c as usize;
        } else {
            let length = (c & 0x7F) as usize + 3;
            assert!((3..=0x82).contains(&length));
            total += length;
        }
    }
    assert_eq!(total, data.len());
}

#[test]
fn compress_can_be_called_again() {
    let mut instance = CompressInstance::new(vec![1, 2, 3, 1, 2, 3, 1, 2, 3]);
    let first = instance.compress();
    let second = instance.compress();
    assert_eq!(first, second);
}

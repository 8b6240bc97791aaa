use puyocomp::decompress::{DecodeError, DecompressInstance};

fn decode(stream: &[u8]) -> Result<Vec<u8>, DecodeError> {
    let mut instance = DecompressInstance::new(stream.to_vec());
    instance.decompress().map(|out| out.clone())
}

#[test]
fn terminator_alone_decodes_to_nothing() {
    assert_eq!(decode(&[0x00]), Ok(vec![]));
}

#[test]
fn run_yields_its_literals() {
    assert_eq!(decode(&[0x03, 10, 20, 30, 0x00]), Ok(vec![10, 20, 30]));
}

#[test]
fn longest_run_yields_127_literals() {
    let mut stream = vec![0x7F];
    let literals: Vec<u8> = (0..127u32).map(|i| (i * 2) as u8).collect();
    stream.extend_from_slice(&literals);
    stream.push(0x00);
    assert_eq!(decode(&stream), Ok(literals));
}

#[test]
fn back_reference_copies_from_behind_the_cursor() {
    // Distance 2: the copy starts three cells behind the cursor.
    assert_eq!(decode(&[0x03, 1, 2, 3, 0x80, 0x02, 0x00]), Ok(vec![1, 2, 3, 1, 2, 3]));
}

#[test]
fn back_reference_with_distance_zero_repeats_the_last_byte() {
    assert_eq!(decode(&[0x01, 0xAB, 0x86, 0x00, 0x00]), Ok(vec![0xAB; 10]));
}

#[test]
fn overlapping_copy_repeats_a_pattern() {
    assert_eq!(
        decode(&[0x02, 1, 2, 0x84, 0x01, 0x00]),
        Ok(vec![1, 2, 1, 2, 1, 2, 1, 2, 1])
    );
}

#[test]
fn longest_back_reference_copies_130_bytes() {
    let mut expected = vec![5u8];
    expected.extend_from_slice(&[5u8; 130]);
    assert_eq!(decode(&[0x01, 5, 0xFF, 0x00, 0x00]), Ok(expected));
}

#[test]
fn unwritten_cells_read_as_zero() {
    assert_eq!(decode(&[0x85, 0x10, 0x00]), Ok(vec![0; 8]));
}

#[test]
fn distance_255_reads_the_cell_under_the_cursor() {
    // After 256 writes the cursor is back on the first byte written.
    let mut stream = Vec::new();
    let mut expected = Vec::new();
    for chunk in 0..2 {
        stream.push(0x7F);
        for i in 0..127u32 {
            let b = (chunk * 127 + i) as u8;
            stream.push(b);
            expected.push(b);
        }
    }
    stream.extend_from_slice(&[0x02, 254, 255]);
    expected.extend_from_slice(&[254, 255]);
    stream.extend_from_slice(&[0x80, 0xFF, 0x00]);
    expected.extend_from_slice(&[0, 1, 2]);
    assert_eq!(decode(&stream), Ok(expected));
}

#[test]
fn bytes_after_the_terminator_are_not_read() {
    assert_eq!(decode(&[0x01, 7, 0x00, 0x05, 9]), Ok(vec![7]));
}

#[test]
fn empty_stream_is_truncated() {
    assert_eq!(decode(&[]), Err(DecodeError::TruncatedStream));
}

#[test]
fn missing_terminator_is_truncated() {
    assert_eq!(decode(&[0x02, 1, 2]), Err(DecodeError::TruncatedStream));
}

#[test]
fn run_longer_than_the_rest_is_truncated() {
    assert_eq!(decode(&[0x05, 1, 2, 3]), Err(DecodeError::TruncatedStream));
    assert_eq!(decode(&[0x01]), Err(DecodeError::TruncatedStream));
}

#[test]
fn back_reference_without_distance_is_truncated() {
    assert_eq!(decode(&[0x85]), Err(DecodeError::TruncatedStream));
    assert_eq!(decode(&[0x01, 7, 0xFF]), Err(DecodeError::TruncatedStream));
}

#[test]
fn back_reference_that_ends_the_stream_is_truncated() {
    // The command is complete, but no terminator follows it.
    assert_eq!(decode(&[0x85, 0x00]), Err(DecodeError::TruncatedStream));
}

#[test]
fn decompress_can_be_called_again() {
    let mut instance = DecompressInstance::new(vec![0x02, 4, 5, 0x80, 0x01, 0x00]);
    let first = instance.decompress().map(|out| out.clone());
    let second = instance.decompress().map(|out| out.clone());
    assert_eq!(first, Ok(vec![4, 5, 4, 5, 4]));
    assert_eq!(first, second);
}

use zpaq_rs::locator::find_block_offsets;

/// The sixteen bytes that open every ZPAQ block: the locator tag, then "zPQ".
const HEADER: [u8; 16] = [
    0x37, 0x6B, 0x53, 0x74, 0xA0, 0x31, 0x83, 0xD3, 0x8C, 0xB2, 0x28, 0xB0, 0xD3, 0x7A, 0x50, 0x51,
];

fn stream(parts: &[&[u8]]) -> Vec<u8> {
    let mut v = Vec::new();
    for p in parts {
        v.extend_from_slice(p);
    }
    v
}

#[test]
fn offsets_of_empty_input() {
    assert_eq!(find_block_offsets(&[]), Vec::<usize>::new());
}

#[test]
fn offsets_without_header() {
    let data: Vec<u8> = (0..1000).map(|i| (i % 251) as u8).collect();
    assert_eq!(find_block_offsets(&data), Vec::<usize>::new());
}

#[test]
fn offset_of_header_at_start() {
    assert_eq!(find_block_offsets(&HEADER), vec![0]);
}

#[test]
fn offsets_of_two_blocks() {
    let data = stream(&[&HEADER, b"abcd", &HEADER, b"xyz"]);
    assert_eq!(find_block_offsets(&data), vec![0, 20]);
}

#[test]
fn header_after_leading_bytes() {
    let data = stream(&[b"leading junk", &HEADER]);
    assert_eq!(find_block_offsets(&data), vec![12]);
}

#[test]
fn truncated_header_is_not_found() {
    assert_eq!(find_block_offsets(&HEADER[..15]), Vec::<usize>::new());
    let data = stream(&[b"xx", &HEADER[1..]]);
    assert_eq!(find_block_offsets(&data), Vec::<usize>::new());
}

#[test]
fn detection_ignores_what_precedes_the_window() {
    // The hashes forget everything older than sixteen bytes.
    let a = stream(&[&[0u8; 40], &HEADER]);
    let b = stream(&[&[0xFFu8; 40], &HEADER]);
    assert_eq!(find_block_offsets(&a), vec![40]);
    assert_eq!(find_block_offsets(&b), vec![40]);
}

#[test]
fn offsets_shift_when_front_is_dropped() {
    let data = stream(&[b"abc", &HEADER, b"12345", &HEADER]);
    assert_eq!(find_block_offsets(&data), vec![3, 24]);
    assert_eq!(find_block_offsets(&data[3..]), vec![0, 21]);
    assert_eq!(find_block_offsets(&data[4..]), vec![20]);
}

#[test]
fn offsets_of_a_prefix_are_those_that_fit() {
    let data = stream(&[&HEADER, b"abcd", &HEADER, b"xyz"]);
    assert_eq!(find_block_offsets(&data[..35]), vec![0]);
    assert_eq!(find_block_offsets(&data[..36]), vec![0, 20]);
    assert_eq!(find_block_offsets(&data[..15]), Vec::<usize>::new());
}

#[test]
fn reachable_through_pipeline_module() {
    assert_eq!(zpaq_rs::pipeline::find_block_offsets(&HEADER), vec![0]);
}

use zpaq_rs::framing::{BlockReader, BlockScanner, SCAN_CHUNK_LEN};

const HEADER: [u8; 16] = [
    0x37, 0x6B, 0x53, 0x74, 0xA0, 0x31, 0x83, 0xD3, 0x8C, 0xB2, 0x28, 0xB0, 0xD3, 0x7A, 0x50, 0x51,
];

fn block(body: &[u8]) -> Vec<u8> {
    let mut v = HEADER.to_vec();
    v.extend_from_slice(body);
    v
}

fn scan_in_chunks(data: &[u8], chunk: usize) -> Vec<(usize, Vec<u8>)> {
    let mut scanner = BlockScanner::new();
    let mut out = Vec::new();
    for piece in data.chunks(chunk) {
        for b in scanner.push(piece) {
            out.push((b.id, b.data));
        }
    }
    if let Some(b) = scanner.finish() {
        out.push((b.id, b.data));
    }
    out
}

#[test]
fn scanner_recovers_blocks() {
    let blocks = vec![block(b"first block"), block(b"2"), block(&[7u8; 300])];
    let stream: Vec<u8> = blocks.concat();
    let got = scan_in_chunks(&stream, stream.len());
    assert_eq!(got, vec![(0, blocks[0].clone()), (1, blocks[1].clone()), (2, blocks[2].clone())]);
}

#[test]
fn scanner_result_does_not_depend_on_chunking() {
    let blocks = vec![block(b"alpha"), block(b"beta"), block(b"gamma"), block(b"")];
    let stream: Vec<u8> = blocks.concat();
    let whole = scan_in_chunks(&stream, stream.len());
    for chunk in [1, 2, 3, 7, 16, 17, SCAN_CHUNK_LEN] {
        assert_eq!(scan_in_chunks(&stream, chunk), whole, "chunk size {}", chunk);
    }
    assert_eq!(whole.len(), 4);
}

#[test]
fn scanner_keeps_leading_bytes_with_first_block() {
    let mut stream = b"xyz".to_vec();
    stream.extend(block(b"a"));
    stream.extend(block(b"b"));
    let got = scan_in_chunks(&stream, 5);
    assert_eq!(got.len(), 2);
    let mut first = b"xyz".to_vec();
    first.extend(block(b"a"));
    assert_eq!(got[0], (0, first));
    assert_eq!(got[1], (1, block(b"b")));
}

#[test]
fn scanner_holds_back_until_second_header() {
    let mut scanner = BlockScanner::new();
    assert!(scanner.push(&block(b"abc")).is_empty());
    assert_eq!(scanner.held_len(), 19);
    let out = scanner.push(&HEADER);
    assert_eq!(out.len(), 1);
    assert_eq!(out[0].id, 0);
    assert_eq!(out[0].data, block(b"abc"));
    assert_eq!(scanner.held_len(), 16);
    assert_eq!(scanner.next_id(), 1);
    let last = scanner.finish().unwrap();
    assert_eq!((last.id, last.data), (1, HEADER.to_vec()));
    assert!(scanner.finish().is_none());
}

#[test]
fn scanner_without_headers_hands_out_everything_at_the_end() {
    let data: Vec<u8> = (0..100u8).collect();
    assert_eq!(scan_in_chunks(&data, 10), vec![(0, data.clone())]);
    assert!(scan_in_chunks(&[], 10).is_empty());
}

fn read_all(block_size: usize, data: &[u8], read_len: usize) -> Vec<(usize, Vec<u8>)> {
    let mut reader = BlockReader::new(block_size);
    let mut pos = 0;
    let mut out = Vec::new();
    while !reader.is_finished() {
        let n = read_len.min(reader.room()).min(data.len() - pos);
        if let Some(b) = reader.on_read(&data[pos..pos + n]) {
            out.push((b.id, b.data));
        }
        pos += n;
    }
    out
}

#[test]
fn reader_cuts_fixed_size_blocks() {
    let data: Vec<u8> = (0..10u8).collect();
    let got = read_all(4, &data, 3);
    assert_eq!(
        got,
        vec![(0, vec![0, 1, 2, 3]), (1, vec![4, 5, 6, 7]), (2, vec![8, 9])]
    );
}

#[test]
fn reader_blocks_do_not_depend_on_read_sizes() {
    let data: Vec<u8> = (0..100000u32).map(|i| (i % 256) as u8).collect();
    let reference = read_all(16384, &data, 16384);
    assert_eq!(reference.len(), 7);
    for r in [1000, 4096, 65536] {
        assert_eq!(read_all(16384, &data, r), reference);
    }
    let joined: Vec<u8> = reference.iter().flat_map(|(_, d)| d.clone()).collect();
    assert_eq!(joined, data);
}

#[test]
fn reader_exact_multiple_and_empty_input() {
    let data = vec![9u8; 8];
    assert_eq!(read_all(4, &data, 4), vec![(0, vec![9; 4]), (1, vec![9; 4])]);
    assert!(read_all(4, &[], 4).is_empty());
}

#[test]
fn reader_with_zero_block_size_reads_nothing() {
    let reader = BlockReader::new(0);
    assert!(reader.is_finished());
}

#[test]
fn reader_step_by_step() {
    let mut reader = BlockReader::new(4);
    assert_eq!(reader.room(), 4);
    assert!(reader.on_read(b"ab").is_none());
    assert_eq!(reader.room(), 2);
    let b = reader.on_read(b"cd").unwrap();
    assert_eq!((b.id, b.data), (0, b"abcd".to_vec()));
    assert!(reader.on_read(b"e").is_none());
    let b = reader.on_read(b"").unwrap();
    assert_eq!((b.id, b.data), (1, b"e".to_vec()));
    assert!(!reader.is_finished());
    assert!(reader.on_read(b"").is_none());
    assert!(reader.is_finished());
    assert_eq!(reader.next_id(), 2);
}

#[test]
fn scanner_cuts_at_every_header_after_the_first() {
    // Leading bytes, three headers; cuts fall at the second and third header.
    let mut stream = b"lead".to_vec();
    stream.extend(block(b"one"));
    stream.extend(block(b"two"));
    stream.extend(block(b"three"));
    let offs = zpaq_rs::locator::find_block_offsets(&stream);
    assert_eq!(offs, vec![4, 23, 42]);
    let expected = vec![
        (0, stream[..23].to_vec()),
        (1, stream[23..42].to_vec()),
        (2, stream[42..].to_vec()),
    ];
    for chunk in [1, 5, 64] {
        assert_eq!(scan_in_chunks(&stream, chunk), expected);
    }
}

#[test]
fn reader_chunks_are_fixed_whatever_the_read_sizes() {
    let data: Vec<u8> = (0..23u8).collect();
    let expected: Vec<(usize, Vec<u8>)> =
        data.chunks(5).enumerate().map(|(i, c)| (i, c.to_vec())).collect();
    for r in [1, 2, 3, 5, 100] {
        assert_eq!(read_all(5, &data, r), expected);
    }
}

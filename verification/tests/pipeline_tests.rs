use zpaq_rs::codec_io::{SliceReadState, VecWriteState};
use zpaq_rs::pipeline::{
    input_queue_capacity, worker_threads, CompressConfig, CompressedBlock, DecompressConfig,
    RawBlock, FALLBACK_THREADS,
};

#[test]
fn thread_count_choice() {
    assert_eq!(worker_threads(0, Some(8)), 8);
    assert_eq!(worker_threads(0, None), FALLBACK_THREADS);
    assert_eq!(worker_threads(0, None), 4);
    assert_eq!(worker_threads(3, Some(8)), 3);
    assert_eq!(worker_threads(2, None), 2);
    assert_eq!(input_queue_capacity(4), 8);
    assert_eq!(input_queue_capacity(0), 0);
}

#[test]
fn configs_and_blocks_hold_their_fields() {
    let c = CompressConfig { level: "1".to_string(), block_size: 16384, threads: 4 };
    let d = c.clone();
    assert_eq!(d.level, "1");
    assert_eq!(d.block_size, 16384);
    assert_eq!(d.threads, 4);
    let dc = DecompressConfig { threads: 4 }.clone();
    assert_eq!(dc.threads, 4);
    let r = RawBlock { id: 3, data: vec![1, 2] };
    let b = CompressedBlock { id: r.id, data: r.data };
    assert_eq!((b.id, b.data), (3, vec![1, 2]));
}

#[test]
fn slice_reader_hands_out_bytes_in_order() {
    let data: Vec<u8> = (0..10u8).collect();
    let mut r = SliceReadState::new(&data);
    assert_eq!(r.read_chunk(4), vec![0, 1, 2, 3]);
    assert_eq!(r.read_chunk(0), Vec::<u8>::new());
    assert_eq!(r.read_chunk(100), vec![4, 5, 6, 7, 8, 9]);
    assert_eq!(r.read_chunk(5), Vec::<u8>::new());
}

#[test]
fn vec_writer_collects_pieces() {
    let mut w = VecWriteState::with_capacity(16);
    assert_eq!(w.write(b"Hello "), 6);
    assert_eq!(w.write(b""), 0);
    assert_eq!(w.write(b"ZPAQ"), 4);
    assert_eq!(w.finish(0), Ok(b"Hello ZPAQ".to_vec()));
    let mut w = VecWriteState::with_capacity(0);
    w.write(b"partial");
    assert_eq!(w.finish(-1), Err(-1));
    assert_eq!(VecWriteState::with_capacity(0).finish(3), Err(3));
}

#[test]
fn slice_reads_deliver_the_rest_whatever_the_sizes() {
    let data: Vec<u8> = (0..50u8).collect();
    for sizes in [vec![1usize; 60], vec![7; 10], vec![50, 1], vec![3, 20, 40, 1]] {
        let mut r = SliceReadState::new(&data[5..]);
        let mut got = Vec::new();
        for s in sizes {
            let piece = r.read_chunk(s);
            if piece.is_empty() {
                break;
            }
            got.extend(piece);
        }
        assert_eq!(got, data[5..].to_vec());
        assert!(r.read_chunk(10).is_empty());
    }
}

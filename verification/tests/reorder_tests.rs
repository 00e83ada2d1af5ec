use zpaq_rs::reorder::Reorderer;

#[test]
fn reorder_releases_runs_in_order() {
    let mut r = Reorderer::new();
    assert!(r.accept(2, vec![2]).is_empty());
    assert!(r.accept(1, vec![1]).is_empty());
    assert_eq!(r.pending_len(), 2);
    assert_eq!(r.accept(0, vec![0]), vec![vec![0], vec![1], vec![2]]);
    assert_eq!(r.pending_len(), 0);
    assert_eq!(r.next_id(), 3);
    assert_eq!(r.accept(3, vec![3, 3]), vec![vec![3, 3]]);
    assert_eq!(r.next_id(), 4);
}

#[test]
fn reorder_any_arrival_order_gives_stream_order() {
    let blocks: Vec<Vec<u8>> = (0..8u8).map(|i| vec![i; i as usize + 1]).collect();
    let orders: [[usize; 8]; 4] = [
        [0, 1, 2, 3, 4, 5, 6, 7],
        [7, 6, 5, 4, 3, 2, 1, 0],
        [3, 0, 7, 1, 5, 2, 6, 4],
        [1, 0, 3, 2, 5, 4, 7, 6],
    ];
    for order in orders {
        let mut r = Reorderer::new();
        let mut out = Vec::new();
        for id in order {
            out.extend(r.accept(id, blocks[id].clone()));
        }
        assert_eq!(out, blocks);
        assert_eq!(r.pending_len(), 0);
        assert_eq!(r.next_id(), 8);
    }
}

#[test]
fn reorder_holds_blocks_behind_a_gap() {
    let mut r = Reorderer::new();
    assert_eq!(r.accept(0, vec![0]), vec![vec![0]]);
    assert!(r.accept(2, vec![2]).is_empty());
    assert!(r.accept(3, vec![3]).is_empty());
    assert_eq!(r.pending_len(), 2);
    assert_eq!(r.next_id(), 1);
}

#[test]
fn reorder_replaces_a_held_block_with_the_same_id() {
    let mut r = Reorderer::new();
    assert!(r.accept(1, vec![1]).is_empty());
    assert!(r.accept(1, vec![9]).is_empty());
    assert_eq!(r.pending_len(), 1);
    assert_eq!(r.accept(0, vec![0]), vec![vec![0], vec![9]]);
}

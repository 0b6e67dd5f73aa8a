use npuzzle::board_map::{same_tiles, BoardMap};
use npuzzle::queue::MinQueue;

#[test]
fn queue_hands_out_entries_by_cost_and_identity() {
    let mut q = MinQueue::new();
    let costs = [5usize, 3, 8, 3, 1, 9, 5, 0, 7, 3];
    for (id, f) in costs.iter().enumerate() {
        q.push(*f, id);
    }
    assert_eq!(q.len(), 10);
    let mut out = Vec::new();
    while q.len() > 0 {
        out.push(q.pop_min());
    }
    assert_eq!(
        out,
        vec![(0, 7), (1, 4), (3, 1), (3, 3), (3, 9), (5, 0), (5, 6), (7, 8), (8, 2), (9, 5)]
    );
}

#[test]
fn queue_keeps_order_while_entries_come_and_go() {
    let mut q = MinQueue::new();
    let mut seed = 12345u64;
    let mut held: Vec<(usize, usize)> = Vec::new();
    for id in 0..500usize {
        seed = seed.wrapping_mul(6364136223846793005).wrapping_add(1442695040888963407);
        let f = (seed >> 40) as usize % 50;
        q.push(f, id);
        held.push((f, id));
        if id % 3 == 2 {
            held.sort();
            assert_eq!(q.pop_min(), held.remove(0));
        }
    }
    held.sort();
    for expected in held {
        assert_eq!(q.pop_min(), expected);
    }
    assert_eq!(q.len(), 0);
}

#[test]
fn queue_clear_empties_it() {
    let mut q = MinQueue::new();
    q.push(4, 0);
    q.push(2, 1);
    q.clear();
    assert_eq!(q.len(), 0);
    q.push(9, 1);
    assert_eq!(q.pop_min(), (9, 1));
}

#[test]
fn same_tiles_compares_element_by_element() {
    assert!(same_tiles(&vec![1, 2, 3], &vec![1, 2, 3]));
    assert!(!same_tiles(&vec![1, 2, 3], &vec![1, 2, 4]));
    assert!(!same_tiles(&vec![1, 2, 3], &vec![1, 2]));
    assert!(same_tiles(&vec![], &vec![]));
}

#[test]
fn board_map_stores_finds_and_removes() {
    let mut m = BoardMap::new();
    assert_eq!(m.len(), 0);
    assert_eq!(m.get(&vec![0, 1, 3, 2]), None);
    m.insert(vec![0, 1, 3, 2], 7);
    m.insert(vec![1, 0, 3, 2], 8);
    assert_eq!(m.len(), 2);
    assert_eq!(m.get(&vec![0, 1, 3, 2]), Some(7));
    assert_eq!(m.get(&vec![1, 0, 3, 2]), Some(8));
    m.insert(vec![0, 1, 3, 2], 9);
    assert_eq!(m.len(), 2);
    assert_eq!(m.get(&vec![0, 1, 3, 2]), Some(9));
    m.remove(&vec![0, 1, 3, 2]);
    assert_eq!(m.len(), 1);
    assert_eq!(m.get(&vec![0, 1, 3, 2]), None);
    m.remove(&vec![0, 1, 3, 2]);
    assert_eq!(m.len(), 1);
    assert_eq!(m.get(&vec![1, 0, 3, 2]), Some(8));
}

#[test]
fn board_map_holds_many_boards() {
    let mut m = BoardMap::new();
    let mut all: Vec<Vec<u8>> = Vec::new();
    for a in 0..9u8 {
        for b in 0..9u8 {
            for c in 0..9u8 {
                all.push(vec![a, b, c, a ^ b, b ^ c]);
            }
        }
    }
    for (id, t) in all.iter().enumerate() {
        m.insert(t.clone(), id);
    }
    assert_eq!(m.len(), all.len());
    for (id, t) in all.iter().enumerate() {
        assert_eq!(m.get(t), Some(id));
    }
    for t in all.iter().step_by(2) {
        m.remove(t);
    }
    assert_eq!(m.len(), all.len() / 2);
    for (id, t) in all.iter().enumerate() {
        assert_eq!(m.get(t), if id % 2 == 0 { None } else { Some(id) });
    }
}

use npuzzle::board::Board;
use npuzzle::solver::Node;
use npuzzle::sorted_set::SortedSet;

fn node(id: usize, f: usize, tiles: Vec<u8>) -> Node {
    Node { board: Board::new(2, tiles).unwrap(), id, h: f, g: 0, f, parent: None }
}

#[test]
fn pop_returns_the_cheapest_live_node() {
    let mut set = SortedSet::new();
    set.insert(&node(0, 7, vec![0, 1, 3, 2]));
    set.insert(&node(1, 3, vec![1, 0, 3, 2]));
    set.insert(&node(2, 5, vec![1, 2, 3, 0]));
    assert_eq!(set.len(), 3);
    assert_eq!(set.pop(), 1);
    assert_eq!(set.pop(), 2);
    assert_eq!(set.pop(), 0);
    assert_eq!(set.len(), 0);
    assert_eq!(set.sorted_len(), 0);
}

#[test]
fn equal_costs_come_out_in_the_order_of_their_identities() {
    let mut set = SortedSet::new();
    set.insert(&node(5, 4, vec![0, 1, 3, 2]));
    set.insert(&node(2, 4, vec![1, 0, 3, 2]));
    set.insert(&node(9, 4, vec![1, 2, 3, 0]));
    assert_eq!(set.pop(), 2);
    assert_eq!(set.pop(), 5);
    assert_eq!(set.pop(), 9);
}

#[test]
fn pop_passes_over_tombstones() {
    let mut set = SortedSet::new();
    set.insert(&node(0, 1, vec![0, 1, 3, 2]));
    set.insert(&node(1, 2, vec![1, 0, 3, 2]));
    set.insert(&node(2, 3, vec![1, 2, 3, 0]));
    set.remove(0);
    assert_eq!(set.len(), 2);
    assert_eq!(set.sorted_len(), 3);
    assert_eq!(set.deleted_len(), 1);
    assert_eq!(set.pop(), 1);
    assert_eq!(set.sorted_len(), 1);
    assert_eq!(set.deleted_len(), 0);
    assert_eq!(set.len(), 1);
}

#[test]
fn a_tombstone_behind_the_first_live_node_stays_queued() {
    let mut set = SortedSet::new();
    set.insert(&node(0, 1, vec![0, 1, 3, 2]));
    set.insert(&node(1, 9, vec![1, 0, 3, 2]));
    set.remove(1);
    assert_eq!(set.pop(), 0);
    assert_eq!(set.len(), 0);
    assert_eq!(set.sorted_len(), 1);
    assert_eq!(set.deleted_len(), 1);
}

#[test]
fn find_sees_exactly_the_live_nodes() {
    let mut set = SortedSet::new();
    let a = node(0, 1, vec![0, 1, 3, 2]);
    let b = node(1, 2, vec![1, 0, 3, 2]);
    let c = node(2, 3, vec![1, 2, 3, 0]);
    assert_eq!(set.find(&a.board), None);
    set.insert(&a);
    set.insert(&b);
    assert_eq!(set.find(&a.board), Some(0));
    assert_eq!(set.find(&b.board), Some(1));
    assert_eq!(set.find(&c.board), None);
    set.remove(1);
    assert_eq!(set.find(&b.board), None);
    assert_eq!(set.pop(), 0);
    assert_eq!(set.find(&a.board), None);
}

#[test]
fn a_cheaper_node_takes_the_place_of_a_tombstoned_one() {
    let mut set = SortedSet::new();
    let old = node(0, 9, vec![0, 1, 3, 2]);
    let new = node(1, 4, vec![0, 1, 3, 2]);
    set.insert(&old);
    set.remove(0);
    set.insert(&new);
    assert_eq!(set.find(&old.board), Some(1));
    assert_eq!(set.len(), 1);
    assert_eq!(set.sorted_len(), 2);
    assert_eq!(set.pop(), 1);
    assert_eq!(set.len(), 0);
    assert_eq!(set.deleted_len(), 1);
}

#[test]
fn removing_an_unknown_identity_changes_nothing() {
    let mut set = SortedSet::new();
    set.insert(&node(0, 1, vec![0, 1, 3, 2]));
    set.remove(42);
    assert_eq!(set.len(), 1);
    assert_eq!(set.deleted_len(), 0);
    assert_eq!(set.pop(), 0);
}

#[test]
fn clear_1_empties_the_queue() {
    let mut set = SortedSet::new();
    let a = node(0, 1, vec![0, 1, 3, 2]);
    set.insert(&a);
    set.insert(&node(1, 2, vec![1, 0, 3, 2]));
    set.remove(1);
    set.clear_1();
    assert_eq!(set.len(), 0);
    assert_eq!(set.sorted_len(), 0);
    assert_eq!(set.deleted_len(), 0);
    assert_eq!(set.find(&a.board), None);
}

#[test]
fn many_nodes_come_out_sorted() {
    let mut set = SortedSet::new();
    let tiles: Vec<Vec<u8>> = vec![
        vec![0, 1, 2, 3], vec![0, 1, 3, 2], vec![0, 2, 1, 3], vec![0, 2, 3, 1],
        vec![0, 3, 1, 2], vec![0, 3, 2, 1], vec![1, 0, 2, 3], vec![1, 0, 3, 2],
        vec![1, 2, 0, 3], vec![1, 2, 3, 0], vec![1, 3, 0, 2], vec![1, 3, 2, 0],
    ];
    let costs = [8usize, 3, 9, 1, 7, 3, 12, 0, 5, 5, 2, 11];
    for (id, t) in tiles.iter().enumerate() {
        set.insert(&node(id, costs[id], t.clone()));
    }
    let mut out = Vec::new();
    while set.len() > 0 {
        out.push(set.pop());
    }
    assert_eq!(out, vec![7, 3, 10, 1, 5, 8, 9, 4, 0, 2, 11, 6]);
}

#[test]
fn insert_supersedes_the_live_node_of_the_same_board() {
    let mut set = SortedSet::new();
    let old = node(0, 9, vec![0, 1, 3, 2]);
    set.insert(&old);
    set.insert(&node(1, 4, vec![0, 1, 3, 2]));
    assert_eq!(set.len(), 1);
    assert_eq!(set.find(&old.board), Some(1));
    assert_eq!(set.sorted_len(), 2);
    assert_eq!(set.deleted_len(), 1);
    assert_eq!(set.pop(), 1);
    assert_eq!(set.len(), 0);
}

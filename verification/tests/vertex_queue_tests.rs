use home_flow::vertex_queue::{IndexType, Iter, Node, PolygonRings, VertexQueue};

fn square_with_hole() -> VertexQueue {
    let mut q = VertexQueue::new();
    q.initialize_from_polygon_vector(&vec![PolygonRings { exterior: 5, interiors: vec![4] }]);
    q
}

fn collect(mut it: Iter<'_>) -> Vec<(usize, IndexType, usize)> {
    let mut out = Vec::new();
    while let Some(x) = it.next() {
        out.push(x);
    }
    out
}

fn ptr(i: usize) -> IndexType {
    IndexType::PointerIndex(i)
}

#[test]
fn index_accessors() {
    assert_eq!(IndexType::PointerIndex(3).get_index(), 3);
    assert_eq!(IndexType::RealIndex(7).get_real_index(), 7);
}

#[test]
fn node_new_links_neighbours() {
    let n = Node::new(4, 3, 5);
    assert_eq!(n.index, IndexType::RealIndex(4));
    assert_eq!(n.left, IndexType::PointerIndex(3));
    assert_eq!(n.right, IndexType::PointerIndex(5));
    assert!(!n.done);
}

#[test]
fn rings_from_polygon() {
    let q = square_with_hole();
    assert_eq!(q.content.len(), 7);
    assert_eq!(q.start_vertex, vec![0, 4]);
    // exterior ring 0..4
    assert_eq!(q.lv(ptr(0)), ptr(3));
    assert_eq!(q.rv(ptr(0)), ptr(1));
    assert_eq!(q.rv(ptr(3)), ptr(0));
    // interior ring 4..7
    assert_eq!(q.lv(ptr(4)), ptr(6));
    assert_eq!(q.rv(ptr(6)), ptr(4));
    assert_eq!(q.get_real_index(ptr(5)), 5);
}

#[test]
fn iteration_walks_each_ring_once() {
    let q = square_with_hole();
    let seen = collect(q.iter());
    assert_eq!(
        seen,
        vec![
            (0, ptr(0), 0),
            (0, ptr(1), 1),
            (0, ptr(2), 2),
            (0, ptr(3), 3),
            (1, ptr(4), 4),
            (1, ptr(5), 5),
            (1, ptr(6), 6),
        ]
    );
}

#[test]
fn remove_links_neighbours() {
    let mut q = square_with_hole();
    let r = q.remove(ptr(1));
    assert_eq!(r, ptr(2));
    assert!(q.content[1].done);
    assert_eq!(q.rv(ptr(0)), ptr(2));
    assert_eq!(q.lv(ptr(2)), ptr(0));
}

#[test]
fn remove_and_set_renames_right_neighbour() {
    let mut q = square_with_hole();
    let r = q.remove_and_set(ptr(1), IndexType::RealIndex(42));
    assert_eq!(r, ptr(2));
    assert_eq!(q.get_real_index(ptr(2)), 42);
}

#[test]
fn split_makes_two_rings() {
    let mut q = VertexQueue::new();
    q.initialize_from_polygon_vector(&vec![PolygonRings { exterior: 7, interiors: vec![] }]);
    // hexagon 0..6; split anchor 0 against edge after 3
    let (a, b) = q.split_and_set(ptr(0), ptr(3), IndexType::RealIndex(10), IndexType::RealIndex(11));
    assert_eq!(a, ptr(0));
    assert_eq!(b, ptr(6));
    assert_eq!(q.start_vertex, vec![0, 0, 6]);
    // ring of 0: 0 -> 4 -> 5 -> 0
    assert_eq!(q.rv(ptr(0)), ptr(4));
    assert_eq!(q.rv(ptr(4)), ptr(5));
    assert_eq!(q.rv(ptr(5)), ptr(0));
    // ring of 6: 6 -> 1 -> 2 -> 3 -> 6
    assert_eq!(q.rv(ptr(6)), ptr(1));
    assert_eq!(q.rv(ptr(3)), ptr(6));
    assert_eq!(q.lv(ptr(1)), ptr(6));
    assert_eq!(q.get_real_index(ptr(0)), 10);
    assert_eq!(q.get_real_index(ptr(6)), 11);
    q.cleanup();
    assert_eq!(q.start_vertex, vec![0, 6]);
    let seen = collect(q.iter());
    assert_eq!(seen.len(), 7);
}

#[test]
fn cleanup_moves_past_removed_start_and_drops_small_rings() {
    let mut q = square_with_hole();
    q.remove(ptr(0));
    q.remove(ptr(5));
    q.cleanup();
    // the square's start moved to node 1; the hole shrank to two nodes
    assert_eq!(q.start_vertex, vec![1]);
    assert_eq!(collect(q.iter()), vec![(0, ptr(1), 1), (0, ptr(2), 2), (0, ptr(3), 3)]);
}

#[test]
fn cleanup_keeps_one_start_per_ring() {
    let mut q = square_with_hole();
    q.start_vertex.push(2);
    q.cleanup();
    assert_eq!(q.start_vertex, vec![0, 4]);
}

#[test]
fn empty_queue_iterates_nothing() {
    let q = VertexQueue::new();
    assert!(collect(q.iter()).is_empty());
}

#[test]
fn remove_bypasses_node_and_keeps_others() {
    let mut q = square_with_hole();
    let left = q.lv(ptr(2));
    let right = q.rv(ptr(2));
    q.remove(ptr(2));
    assert_eq!(q.rv(left), right);
    assert_eq!(q.lv(right), left);
    assert!(q.content[2].done);
    for i in [0usize, 1, 3, 4, 5, 6] {
        assert!(!q.content[i].done);
    }
}

#[test]
fn split_links_new_node_between() {
    let mut q = VertexQueue::new();
    q.initialize_from_polygon_vector(&vec![PolygonRings { exterior: 5, interiors: vec![] }]);
    let old_right_of_anchor = q.rv(ptr(1));
    let old_right_of_split = q.rv(ptr(3));
    let (_, n) = q.split_and_set(ptr(1), ptr(3), IndexType::RealIndex(20), IndexType::RealIndex(21));
    assert_eq!(q.rv(ptr(3)), n);
    assert_eq!(q.lv(n), ptr(3));
    assert_eq!(q.rv(n), old_right_of_anchor);
    assert_eq!(q.lv(old_right_of_anchor), n);
    assert_eq!(q.rv(ptr(1)), old_right_of_split);
    assert_eq!(q.lv(old_right_of_split), ptr(1));
}

#[test]
fn queue_text_lists_rings() {
    let q = square_with_hole();
    assert_eq!(
        q.to_text(),
        "[(0, 0, 0), (0, 1, 1), (0, 2, 2), (0, 3, 3), (1, 4, 4), (1, 5, 5), (1, 6, 6), ]"
    );
    assert_eq!(VertexQueue::new().to_text(), "[]");
}

#[test]
fn index_text() {
    assert_eq!(IndexType::PointerIndex(12).to_text(), "Pointer index: 12");
    assert_eq!(IndexType::RealIndex(0).to_text(), "Real index: 0");
}

#[test]
fn cleanup_swaps_last_start_into_dropped_place() {
    let mut q = square_with_hole();
    q.start_vertex = vec![4, 5, 1, 0];
    q.cleanup();
    // 4 keeps the hole; 5 is on the same ring and is replaced by 0 (the
    // last one); 0 keeps the square; 1 then meets the square again.
    assert_eq!(q.start_vertex, vec![4, 0]);
}

#[test]
fn cleanup_never_lengthens_start_list() {
    let mut q = square_with_hole();
    q.start_vertex = vec![0, 1, 2, 3, 4, 5, 6];
    q.cleanup();
    assert!(q.start_vertex.len() <= 7);
    assert_eq!(q.start_vertex, vec![0, 6]);
}

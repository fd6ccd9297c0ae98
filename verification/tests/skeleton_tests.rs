use home_flow::skeleton::{apply_event, shrink_event_outdated, split_event_outdated, Event};
use home_flow::vertex_queue::{IndexType, PolygonRings, VertexQueue};

fn ptr(i: usize) -> IndexType {
    IndexType::PointerIndex(i)
}

fn ring(points: usize) -> VertexQueue {
    let mut q = VertexQueue::new();
    q.initialize_from_polygon_vector(&vec![PolygonRings { exterior: points, interiors: vec![] }]);
    q
}

#[test]
fn vertex_event_merges_neighbours() {
    let mut q = ring(5);
    let res = apply_event(&mut q, &Event::VertexEvent { merge_from: 1, merge_to: 9 });
    assert_eq!(res, (Some(ptr(2)), None));
    assert!(q.content[1].done);
    assert_eq!(q.get_real_index(ptr(2)), 9);
    assert_eq!(q.rv(ptr(0)), ptr(2));
}

#[test]
fn vertex_event_closing_a_triangle_reports_last_vertex() {
    let mut q = ring(4);
    let res = apply_event(&mut q, &Event::VertexEvent { merge_from: 0, merge_to: 7 });
    // nodes 1 and 2 remain and are retired; node 1 reports its left neighbour 2
    assert_eq!(res, (Some(IndexType::RealIndex(2)), None));
    assert!(q.content.iter().all(|n| n.done));
}

#[test]
fn edge_event_splits_and_normalises() {
    let mut q = ring(7);
    let res = apply_event(
        &mut q,
        &Event::EdgeEvent { split_from: 0, split_into: 3, split_to_left: 10, split_to_right: 11 },
    );
    assert_eq!(res, (Some(ptr(0)), Some(ptr(6))));
    assert_eq!(q.start_vertex, vec![0, 6]);
}

#[test]
fn outdated_events() {
    let mut q = VertexQueue::new();
    q.initialize_from_polygon_vector(&vec![PolygonRings { exterior: 5, interiors: vec![] }]);
    let p = IndexType::PointerIndex;
    assert!(!split_event_outdated(&q, p(1), 1));
    assert!(split_event_outdated(&q, p(1), 2));
    q.remove(p(2));
    assert!(split_event_outdated(&q, p(2), 2));
    assert!(shrink_event_outdated(&q, p(1), 1, p(2), 2));
    assert!(!shrink_event_outdated(&q, p(0), 0, p(1), 1));
}

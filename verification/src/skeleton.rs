//! The part of the straight-skeleton event processing that rewires vertex
//! rings: merging two neighbouring wavefront vertices and splitting a ring
//! at a reflex vertex.
use crate::vertex_queue::{
    is_live, left_of, links_valid, rings_linked, ptr, removed, right_of, split, points_below, starts_cover,
    starts_from, IndexType, Node, VertexQueue,
};
use vstd::prelude::*;

verus! {

/// A wavefront event, by the ring positions and skeleton vertices involved.
/// (When the event happens is kept by the caller.)
#[derive(Clone, Copy, Debug, PartialEq, Eq, Structural)]
pub enum Event {
    /// The node at `merge_from` and its right neighbour meet; the merged node
    /// stands for skeleton vertex `merge_to`.
    VertexEvent { merge_from: usize, merge_to: usize },
    /// The node at `split_from` hits the edge right of `split_into`; the two
    /// resulting nodes stand for skeleton vertices `split_to_left` and
    /// `split_to_right`.
    EdgeEvent { split_from: usize, split_into: usize, split_to_left: usize, split_to_right: usize },
}

/// The content after a vertex event at `from` merging into vertex `to`,
/// together with the node it reports.
pub open spec fn merged(c: Seq<Node>, from: int, to: usize) -> (Seq<Node>, IndexType) {
    let cv = c[from].right;
    let c0 = removed(c, from);
    let c1 = c0.update(ptr(cv), Node { index: IndexType::RealIndex(to), ..c0[ptr(cv)] });
    if c1[ptr(cv)].left == c1[ptr(cv)].right {
        let lv = left_of(c1, ptr(cv));
        let c2 = c1.update(lv, Node { done: true, ..c1[lv] });
        let c3 = c2.update(ptr(cv), Node { done: true, ..c2[ptr(cv)] });
        (c3, c3[left_of(c3, ptr(cv))].index)
    } else {
        (c1, cv)
    }
}

/// Marking done both nodes of a ring of at most two nodes keeps the other
/// rings well linked.
pub proof fn lemma_retire_pair(c: Seq<Node>, v: int)
    requires
        links_valid(c),
        rings_linked(c),
        0 <= v < c.len(),
        c[v].left == c[v].right,
        is_live(c, v) || left_of(c, v) == v,
    ensures
        ({
            let lv = left_of(c, v);
            let c2 = c.update(lv, Node { done: true, ..c[lv] });
            let c3 = c2.update(v, Node { done: true, ..c2[v] });
            links_valid(c3) && rings_linked(c3)
        }),
{
    let lv = left_of(c, v);
    let c2 = c.update(lv, Node { done: true, ..c[lv] });
    let c3 = c2.update(v, Node { done: true, ..c2[v] });
    assert(c[v] == c[v]);
    assert(c[lv] == c[lv]);
    if is_live(c, v) {
        assert(is_live(c, right_of(c, v)));
        assert(left_of(c, lv) == v);
        assert(right_of(c, lv) == v);
    }
    assert forall|k: int| 0 <= k < c3.len() implies {
        &&& (#[trigger] c3[k]).index is RealIndex
        &&& points_below(c3[k].left, c3.len() as int)
        &&& points_below(c3[k].right, c3.len() as int)
    } by {
        assert(c[k] == c[k]);
    }
    assert forall|k: int| 0 <= k < c3.len() && is_live(c3, k) implies {
        &&& is_live(c3, #[trigger] right_of(c3, k))
        &&& is_live(c3, left_of(c3, k))
        &&& left_of(c3, right_of(c3, k)) == k
        &&& right_of(c3, left_of(c3, k)) == k
    } by {
        assert(c[k] == c[k]);
        assert(k != v && k != lv);
        assert(c3[k] == c[k]);
        let j = right_of(c, k);
        let h = left_of(c, k);
        assert(is_live(c, j));
        assert(c[j] == c[j]);
        assert(c[h] == c[h]);
    }
}

/// Applies an event to the rings. A vertex event takes `merge_from` out of
/// its ring and gives its right neighbour the vertex `merge_to`; if that
/// leaves a ring of at most two nodes, both are marked done and the vertex
/// of the remaining neighbour is reported, otherwise the right neighbour's
/// position. An edge event splits the ring and then normalises the start
/// nodes, reporting both resulting positions.
pub fn apply_event(vertex_queue: &mut VertexQueue, event: &Event) -> (res: (
    Option<IndexType>,
    Option<IndexType>,
))
    requires
        links_valid(old(vertex_queue).content@),
        match *event {
            Event::VertexEvent { merge_from, .. } => merge_from < old(
                vertex_queue,
            ).content@.len(),
            Event::EdgeEvent { split_from, split_into, .. } => {
                &&& old(vertex_queue).well_formed()
                &&& split_from < old(vertex_queue).content@.len()
                &&& split_into < old(vertex_queue).content@.len()
                &&& split_from != split_into
                &&& is_live(old(vertex_queue).content@, split_from as int)
                &&& is_live(old(vertex_queue).content@, split_into as int)
                &&& old(vertex_queue).content@.len() < usize::MAX
            },
        },
    ensures
        match *event {
            Event::VertexEvent { merge_from, merge_to } => {
                let (c, r) = merged(old(vertex_queue).content@, merge_from as int, merge_to);
                &&& final(vertex_queue).content@ == c
                &&& final(vertex_queue).start_vertex@ == old(vertex_queue).start_vertex@
                &&& res == (Some(r), None::<IndexType>)
                &&& old(vertex_queue).well_formed() && is_live(
                    old(vertex_queue).content@,
                    merge_from as int,
                ) ==> final(vertex_queue).well_formed()
            },
            Event::EdgeEvent { split_from, split_into, split_to_left, split_to_right } => {
                &&& final(vertex_queue).content@ == split(
                    old(vertex_queue).content@,
                    split_from as int,
                    split_into as int,
                    IndexType::RealIndex(split_to_left),
                    IndexType::RealIndex(split_to_right),
                )
                &&& res == (
                    Some(IndexType::PointerIndex(split_from)),
                    Some(IndexType::PointerIndex(old(vertex_queue).content@.len() as usize)),
                )
                &&& final(vertex_queue).well_formed()
                &&& final(vertex_queue).starts_normalized()
                &&& starts_from(
                    final(vertex_queue).content@,
                    old(vertex_queue).start_vertex@.push(split_from).push(
                        old(vertex_queue).content@.len() as usize,
                    ),
                    final(vertex_queue).start_vertex@,
                )
                &&& starts_cover(
                    final(vertex_queue).content@,
                    old(vertex_queue).start_vertex@.push(split_from).push(
                        old(vertex_queue).content@.len() as usize,
                    ),
                    final(vertex_queue).start_vertex@,
                )
            },
        },
{
    match *event {
        Event::VertexEvent { merge_from, merge_to } => {
            let ghost c = vertex_queue.content@;
            let from = IndexType::PointerIndex(merge_from);
            proof {
                assert(c[merge_from as int] == c[merge_from as int]);
            }
            let cv = vertex_queue.remove_and_set(from, IndexType::RealIndex(merge_to));
            let ghost c1 = vertex_queue.content@;
            proof {
                let c0 = removed(c, merge_from as int);
                assert(c0.len() == c.len());
                assert forall|k: int| 0 <= k < c1.len() implies {
                    &&& (#[trigger] c1[k]).index is RealIndex
                    &&& points_below(c1[k].left, c1.len() as int)
                    &&& points_below(c1[k].right, c1.len() as int)
                } by {
                    assert(c[k] == c[k]);
                    assert(c0[k] == c0[k]);
                }
                assert(c1[ptr(cv)] == c1[ptr(cv)]);
            }
            let l = vertex_queue.lv(cv);
            let r = vertex_queue.rv(cv);
            if l == r {
                let li = l.get_index();
                let ci = cv.get_index();
                vertex_queue.content[li].done = true;
                vertex_queue.content[ci].done = true;
                let l2 = vertex_queue.lv(cv).get_index();
                let reported = vertex_queue.content[l2].index;
                proof {
                    if old(vertex_queue).well_formed() && is_live(c, merge_from as int) {
                        let mf = merge_from as int;
                        if ptr(cv) == mf {
                            assert(left_of(c, mf) == mf);
                            assert(left_of(c1, mf) == mf);
                        } else {
                            assert(right_of(c, mf) == ptr(cv));
                            assert(is_live(c, ptr(cv)));
                            let c0 = removed(c, mf);
                            assert(c0[ptr(cv)].done == c[ptr(cv)].done);
                            assert(is_live(c1, ptr(cv)));
                        }
                        lemma_retire_pair(c1, ptr(cv));
                    }
                }
                (Some(reported), None)
            } else {
                (Some(cv), None)
            }
        },
        Event::EdgeEvent { split_from, split_into, split_to_left, split_to_right } => {
            let ghost c = vertex_queue.content@;
            proof {
                assert(c[split_from as int] == c[split_from as int]);
                assert(c[split_into as int] == c[split_into as int]);
            }
            let ret = vertex_queue.split_and_set(
                IndexType::PointerIndex(split_from),
                IndexType::PointerIndex(split_into),
                IndexType::RealIndex(split_to_left),
                IndexType::RealIndex(split_to_right),
            );
            vertex_queue.cleanup();
            (Some(ret.0), Some(ret.1))
        },
    }
}

/// A queued event about the node at `v` is out of date: the node has been
/// removed, or it no longer stands for skeleton vertex `vertex`.
pub open spec fn outdated(c: Seq<Node>, v: IndexType, vertex: usize) -> bool {
    !is_live(c, ptr(v)) || c[ptr(v)].index != IndexType::RealIndex(vertex)
}

/// Whether a queued split event of the node at `anchor`, computed when it
/// stood for skeleton vertex `anchor_real`, is out of date.
pub fn split_event_outdated(vertex_queue: &VertexQueue, anchor: IndexType, anchor_real: usize) -> (res: bool)
    requires
        links_valid(vertex_queue.content@),
        points_below(anchor, vertex_queue.content@.len() as int),
    ensures
        res == outdated(vertex_queue.content@, anchor, anchor_real),
{
    let i = anchor.get_index();
    proof {
        assert(vertex_queue.content@[i as int] == vertex_queue.content@[i as int]);
    }
    vertex_queue.content[i].done || vertex_queue.get_real_index(anchor) != anchor_real
}

/// Whether a queued shrink event of the edge between `left` and `right`,
/// computed when they stood for `left_real` and `right_real`, is out of
/// date.
pub fn shrink_event_outdated(
    vertex_queue: &VertexQueue,
    left: IndexType,
    left_real: usize,
    right: IndexType,
    right_real: usize,
) -> (res: bool)
    requires
        links_valid(vertex_queue.content@),
        points_below(left, vertex_queue.content@.len() as int),
        points_below(right, vertex_queue.content@.len() as int),
    ensures
        res == (outdated(vertex_queue.content@, left, left_real) || outdated(
            vertex_queue.content@,
            right,
            right_real,
        )),
{
    split_event_outdated(vertex_queue, left, left_real) || split_event_outdated(
        vertex_queue,
        right,
        right_real,
    )
}

} // verus!

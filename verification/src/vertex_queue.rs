//! Circular doubly linked lists of polygon vertices, stored in one vector.
//!
//! Each node of `VertexQueue::content` holds the index of the skeleton vertex
//! it stands for (`IndexType::RealIndex`) and the positions of its left and
//! right neighbours in `content` (`IndexType::PointerIndex`). Removed nodes
//! are marked `done`. The live nodes form disjoint rings; `start_vertex`
//! names one node of each ring.
use crate::text::{decimal, push_decimal};
use vstd::prelude::*;
use vstd::set_lib::{lemma_int_range, lemma_len_subset, set_int_range};

verus! {

/// Either a position inside `VertexQueue::content` or the index of a
/// skeleton vertex.
#[derive(Clone, Copy, Debug, PartialEq, Eq, Structural, PartialOrd)]
pub enum IndexType {
    PointerIndex(usize),
    RealIndex(usize),
}

/// The position a `PointerIndex` refers to; `-1` for a `RealIndex`.
pub open spec fn ptr(i: IndexType) -> int {
    match i {
        IndexType::PointerIndex(p) => p as int,
        IndexType::RealIndex(_) => -1,
    }
}

/// `i` is a `PointerIndex` to a position below `n`.
pub open spec fn points_below(i: IndexType, n: int) -> bool {
    &&& i is PointerIndex
    &&& ptr(i) < n
}

impl IndexType {
    /// The position held by a `PointerIndex`.
    pub fn get_index(&self) -> (res: usize)
        requires
            *self is PointerIndex,
        ensures
            res == ptr(*self),
    {
        match self {
            IndexType::PointerIndex(res) => *res,
            IndexType::RealIndex(_) => {
                proof {
                    assert(false);
                }
                0
            },
        }
    }

    /// The vertex index held by a `RealIndex`.
    pub fn get_real_index(&self) -> (res: usize)
        requires
            *self is RealIndex,
        ensures
            *self == IndexType::RealIndex(res),
    {
        match self {
            IndexType::RealIndex(res) => *res,
            IndexType::PointerIndex(_) => {
                proof {
                    assert(false);
                }
                0
            },
        }
    }
}

/// One entry of a vertex ring.
#[derive(Clone, Copy, Debug)]
pub struct Node {
    pub index: IndexType,
    pub left: IndexType,
    pub right: IndexType,
    pub done: bool,
}

impl Node {
    /// A live node for vertex `index` between positions `left` and `right`.
    pub fn new(index: usize, left: usize, right: usize) -> (n: Node)
        ensures
            n == (Node {
                index: IndexType::RealIndex(index),
                left: IndexType::PointerIndex(left),
                right: IndexType::PointerIndex(right),
                done: false,
            }),
    {
        Node {
            index: IndexType::RealIndex(index),
            left: IndexType::PointerIndex(left),
            right: IndexType::PointerIndex(right),
            done: false,
        }
    }
}

/// The position right of `i`.
pub open spec fn right_of(c: Seq<Node>, i: int) -> int {
    ptr(c[i].right)
}

/// The position left of `i`.
pub open spec fn left_of(c: Seq<Node>, i: int) -> int {
    ptr(c[i].left)
}

/// Node `i` has not been removed.
pub open spec fn is_live(c: Seq<Node>, i: int) -> bool {
    !c[i].done
}

/// Every node names a vertex and has both neighbours inside `c`.
pub open spec fn links_valid(c: Seq<Node>) -> bool {
    forall|i: int|
        0 <= i < c.len() ==> {
            &&& (#[trigger] c[i]).index is RealIndex
            &&& points_below(c[i].left, c.len() as int)
            &&& points_below(c[i].right, c.len() as int)
        }
}

/// The live nodes form disjoint circular doubly linked lists: a live node's
/// neighbours are live and point back to it.
pub open spec fn rings_linked(c: Seq<Node>) -> bool {
    forall|i: int|
        0 <= i < c.len() && is_live(c, i) ==> {
            &&& is_live(c, #[trigger] right_of(c, i))
            &&& is_live(c, left_of(c, i))
            &&& left_of(c, right_of(c, i)) == i
            &&& right_of(c, left_of(c, i)) == i
        }
}

/// The node reached from `i` after `k` steps to the right.
pub open spec fn walk(c: Seq<Node>, i: int, k: nat) -> int
    decreases k,
{
    if k == 0 {
        i
    } else {
        right_of(c, walk(c, i, (k - 1) as nat))
    }
}

/// `j` lies on the ring through `i` (reachable from `i` going right).
pub open spec fn same_ring(c: Seq<Node>, i: int, j: int) -> bool {
    exists|k: nat| #[trigger] walk(c, i, k) == j
}

/// The content after taking node `v` out of its ring: its left neighbour now
/// points right past it, its right neighbour points left past it, and it is
/// marked done.
pub open spec fn removed(c: Seq<Node>, v: int) -> Seq<Node> {
    let tl = left_of(c, v);
    let tr = c[v].right;
    let c1 = c.update(tl, Node { right: tr, ..c[tl] });
    let c2 = c1.update(ptr(tr), Node { left: c[v].left, ..c1[ptr(tr)] });
    c2.update(v, Node { done: true, ..c2[v] })
}

/// The content after splitting at anchor `cv` and split vertex `sv`: a new
/// node is appended at position `c.len()` between `sv` and the old right
/// neighbour of `cv`, while `cv` is linked to the old right neighbour of
/// `sv`. `cv` and the new node take the vertex indices `nv1` and `nv2`.
pub open spec fn split(
    c: Seq<Node>,
    cv: int,
    sv: int,
    nv1: IndexType,
    nv2: IndexType,
) -> Seq<Node> {
    let n = c.len() as int;
    let c0 = c.push(
        Node {
            index: IndexType::RealIndex(0),
            left: IndexType::PointerIndex(sv as usize),
            right: c[cv].right,
            done: false,
        },
    );
    let c1 = c0.update(cv, Node { index: nv1, ..c0[cv] });
    let c2 = c1.update(n, Node { index: nv2, ..c1[n] });
    let svx = c2[sv].right;
    let cvx = c2[cv].right;
    let c3 = c2.update(ptr(cvx), Node { left: IndexType::PointerIndex(n as usize), ..c2[ptr(cvx)] });
    let c4 = c3.update(sv, Node { right: IndexType::PointerIndex(n as usize), ..c3[sv] });
    let c5 = c4.update(cv, Node { right: svx, ..c4[cv] });
    c5.update(ptr(svx), Node { left: IndexType::PointerIndex(cv as usize), ..c5[ptr(svx)] })
}

/// Taking a live node out of a well-linked ring structure keeps it well
/// linked.
pub proof fn lemma_removed_keeps_rings(c: Seq<Node>, v: int)
    requires
        links_valid(c),
        rings_linked(c),
        0 <= v < c.len(),
        is_live(c, v),
    ensures
        links_valid(removed(c, v)),
        rings_linked(removed(c, v)),
        removed(c, v).len() == c.len(),
{
    let r = removed(c, v);
    let tl = left_of(c, v);
    let tr = right_of(c, v);
    assert(c[v] == c[v]);
    assert(r.len() == c.len());
    assert forall|i: int| 0 <= i < r.len() implies {
        &&& (#[trigger] r[i]).index is RealIndex
        &&& points_below(r[i].left, r.len() as int)
        &&& points_below(r[i].right, r.len() as int)
    } by {
        assert(c[i] == c[i]);
    }
    assert forall|i: int| 0 <= i < r.len() && is_live(r, i) implies {
        &&& is_live(r, #[trigger] right_of(r, i))
        &&& is_live(r, left_of(r, i))
        &&& left_of(r, right_of(r, i)) == i
        &&& right_of(r, left_of(r, i)) == i
    } by {
        assert(c[i] == c[i]);
        assert(i != v);
        let j = right_of(c, i);
        let h = left_of(c, i);
        assert(c[j] == c[j]);
        assert(c[h] == c[h]);
        assert(c[tl] == c[tl]);
        assert(c[tr] == c[tr]);
        if i == tl {
            assert(tr != v);
        } else {
            assert(j != v);
            assert(j != tr);
        }
        if i == tr {
            assert(tl != v);
        } else {
            assert(h != v);
            assert(h != tl);
        }
    }
}

/// Field by field, what `split` changes.
proof fn lemma_split_shape(c: Seq<Node>, cv: int, sv: int, nv1: IndexType, nv2: IndexType)
    requires
        0 <= cv < c.len(),
        0 <= sv < c.len(),
        cv != sv,
        0 <= right_of(c, cv) < c.len(),
        0 <= right_of(c, sv) < c.len(),
        right_of(c, cv) != right_of(c, sv),
        c.len() < usize::MAX,
    ensures
        ({
            let r = split(c, cv, sv, nv1, nv2);
            let n = c.len() as int;
            &&& r.len() == n + 1
            &&& r[n] == (Node {
                index: nv2,
                left: IndexType::PointerIndex(sv as usize),
                right: c[cv].right,
                done: false,
            })
            &&& forall|i: int|
                0 <= i < n ==> {
                    &&& (#[trigger] r[i]).index == (if i == cv {
                        nv1
                    } else {
                        c[i].index
                    })
                    &&& r[i].done == c[i].done
                    &&& r[i].right == (if i == sv {
                        IndexType::PointerIndex(n as usize)
                    } else if i == cv {
                        c[sv].right
                    } else {
                        c[i].right
                    })
                    &&& r[i].left == (if i == right_of(c, sv) {
                        IndexType::PointerIndex(cv as usize)
                    } else if i == right_of(c, cv) {
                        IndexType::PointerIndex(n as usize)
                    } else {
                        c[i].left
                    })
                }
        }),
{
    reveal(split);
}

/// Removing a node links its left and right neighbours to each other,
/// marks it done and leaves every other node live or done as it was.
pub proof fn lemma_removed_bypasses(c: Seq<Node>, v: int)
    requires
        links_valid(c),
        0 <= v < c.len(),
    ensures
        right_of(removed(c, v), left_of(c, v)) == right_of(c, v),
        left_of(removed(c, v), right_of(c, v)) == left_of(c, v),
        !is_live(removed(c, v), v),
        forall|i: int| 0 <= i < c.len() && i != v ==> is_live(removed(c, v), i) == is_live(c, i),
{
    assert(c[v] == c[v]);
    let tl = left_of(c, v);
    let tr = right_of(c, v);
    assert(c[tl] == c[tl]);
    assert(c[tr] == c[tr]);
}

/// After a split at anchor `cv` and split vertex `sv`, the ring goes from
/// `sv` to the new node and on to the old right neighbour of `cv`, and from
/// `cv` on to the old right neighbour of `sv`.
pub proof fn lemma_split_links(c: Seq<Node>, cv: int, sv: int, nv1: IndexType, nv2: IndexType)
    requires
        links_valid(c),
        0 <= cv < c.len(),
        0 <= sv < c.len(),
        cv != sv,
        right_of(c, cv) != right_of(c, sv),
        c.len() < usize::MAX,
    ensures
        right_of(split(c, cv, sv, nv1, nv2), sv) == c.len(),
        left_of(split(c, cv, sv, nv1, nv2), c.len() as int) == sv,
        right_of(split(c, cv, sv, nv1, nv2), c.len() as int) == right_of(c, cv),
        left_of(split(c, cv, sv, nv1, nv2), right_of(c, cv)) == c.len(),
        right_of(split(c, cv, sv, nv1, nv2), cv) == right_of(c, sv),
        left_of(split(c, cv, sv, nv1, nv2), right_of(c, sv)) == cv,
{
    assert(c[cv] == c[cv]);
    assert(c[sv] == c[sv]);
    lemma_split_shape(c, cv, sv, nv1, nv2);
    let r = split(c, cv, sv, nv1, nv2);
    assert(r[sv] == r[sv]);
    assert(r[cv] == r[cv]);
    assert(r[right_of(c, cv)] == r[right_of(c, cv)]);
    assert(r[right_of(c, sv)] == r[right_of(c, sv)]);
}

/// Splitting at two distinct live nodes of a well-linked ring structure keeps
/// it well linked.
#[verifier::rlimit(40)]
pub proof fn lemma_split_keeps_rings(
    c: Seq<Node>,
    cv: int,
    sv: int,
    nv1: IndexType,
    nv2: IndexType,
)
    requires
        links_valid(c),
        rings_linked(c),
        0 <= cv < c.len(),
        0 <= sv < c.len(),
        cv != sv,
        is_live(c, cv),
        is_live(c, sv),
        nv1 is RealIndex,
        nv2 is RealIndex,
        c.len() < usize::MAX,
    ensures
        links_valid(split(c, cv, sv, nv1, nv2)),
        rings_linked(split(c, cv, sv, nv1, nv2)),
        split(c, cv, sv, nv1, nv2).len() == c.len() + 1,
{
    let r = split(c, cv, sv, nv1, nv2);
    let n = c.len() as int;
    let svx = right_of(c, sv);
    let cvx = right_of(c, cv);
    assert(c[cv] == c[cv]);
    assert(c[sv] == c[sv]);
    assert(c[svx] == c[svx]);
    assert(c[cvx] == c[cvx]);
    lemma_split_shape(c, cv, sv, nv1, nv2);
    assert(r[n] == r[n]);
    assert forall|i: int| 0 <= i < r.len() implies {
        &&& (#[trigger] r[i]).index is RealIndex
        &&& points_below(r[i].left, r.len() as int)
        &&& points_below(r[i].right, r.len() as int)
    } by {
        if i < n {
            assert(c[i] == c[i]);
        }
    }
    assert forall|i: int| 0 <= i < r.len() && is_live(r, i) implies {
        &&& is_live(r, #[trigger] right_of(r, i))
        &&& is_live(r, left_of(r, i))
        &&& left_of(r, right_of(r, i)) == i
        &&& right_of(r, left_of(r, i)) == i
    } by {
        if i < n {
            assert(c[i] == c[i]);
            assert(r[i] == r[i]);
            let j = right_of(c, i);
            let h = left_of(c, i);
            assert(c[j] == c[j]);
            assert(c[h] == c[h]);
            assert(r[j] == r[j]);
            assert(r[h] == r[h]);
        }
        assert(r[cvx] == r[cvx]);
        assert(r[svx] == r[svx]);
        assert(r[sv] == r[sv]);
        assert(r[cv] == r[cv]);
    }
}

/// Walking right from a live node stays on live nodes inside the content.
pub proof fn lemma_walk_live(c: Seq<Node>, s: int, m: nat)
    requires
        links_valid(c),
        rings_linked(c),
        0 <= s < c.len(),
        is_live(c, s),
    ensures
        0 <= walk(c, s, m) < c.len(),
        is_live(c, walk(c, s, m)),
    decreases m,
{
    if m > 0 {
        lemma_walk_live(c, s, (m - 1) as nat);
        let p = walk(c, s, (m - 1) as nat);
        assert(c[p] == c[p]);
    }
}

/// One step left undoes one step right along a ring.
pub proof fn lemma_left_walk(c: Seq<Node>, s: int, m: nat)
    requires
        links_valid(c),
        rings_linked(c),
        0 <= s < c.len(),
        is_live(c, s),
    ensures
        left_of(c, walk(c, s, m + 1)) == walk(c, s, m),
{
    lemma_walk_live(c, s, m);
    let p = walk(c, s, m);
    assert(c[p] == c[p]);
}

/// If a ring walk meets the same node twice, the start node recurs after the
/// difference in steps.
pub proof fn lemma_walk_return(c: Seq<Node>, s: int, a: nat, b: nat)
    requires
        links_valid(c),
        rings_linked(c),
        0 <= s < c.len(),
        is_live(c, s),
        a < b,
        walk(c, s, a) == walk(c, s, b),
    ensures
        walk(c, s, (b - a) as nat) == s,
    decreases a,
{
    if a > 0 {
        lemma_left_walk(c, s, (a - 1) as nat);
        lemma_left_walk(c, s, (b - 1) as nat);
        lemma_walk_return(c, s, (a - 1) as nat, (b - 1) as nat);
    }
}

/// After `k >= 1` steps right from `s`, `s` comes round again for the first
/// time.
pub open spec fn returns_after(c: Seq<Node>, s: int, k: nat) -> bool {
    &&& k >= 1
    &&& walk(c, s, k) == s
    &&& forall|j: nat| 1 <= j < k ==> #[trigger] walk(c, s, j) != s
}

/// The number of nodes on the ring through `s`.
pub open spec fn ring_len(c: Seq<Node>, s: int) -> nat {
    choose|k: nat| returns_after(c, s, k)
}

/// The nodes met in the first `m` steps from `s`.
pub open spec fn walk_set(c: Seq<Node>, s: int, m: nat) -> Set<int>
    decreases m,
{
    if m == 0 {
        Set::empty()
    } else {
        walk_set(c, s, (m - 1) as nat).insert(walk(c, s, (m - 1) as nat))
    }
}

/// Before `s` comes round again, the first `m` steps meet `m` different
/// nodes, all inside the content.
proof fn lemma_walk_set(c: Seq<Node>, s: int, m: nat)
    requires
        links_valid(c),
        rings_linked(c),
        0 <= s < c.len(),
        is_live(c, s),
        forall|j: nat| 1 <= j < m ==> #[trigger] walk(c, s, j) != s,
    ensures
        walk_set(c, s, m).finite(),
        walk_set(c, s, m).len() == m,
        forall|x: int| #[trigger] walk_set(c, s, m).contains(x) ==> 0 <= x < c.len(),
        forall|x: int|
            #[trigger] walk_set(c, s, m).contains(x) <==> exists|j: nat| j < m && walk(c, s, j) == x,
    decreases m,
{
    if m > 0 {
        let p = (m - 1) as nat;
        lemma_walk_set(c, s, p);
        lemma_walk_live(c, s, p);
        if walk_set(c, s, p).contains(walk(c, s, p)) {
            let j = choose|j: nat| j < p && walk(c, s, j) == walk(c, s, p);
            lemma_walk_return(c, s, j, p);
            assert(walk(c, s, (p - j) as nat) != s);
        }
        assert forall|x: int| #[trigger] walk_set(c, s, m).contains(x) <==> exists|j: nat|
            j < m && walk(c, s, j) == x by {
            if walk_set(c, s, m).contains(x) && x != walk(c, s, p) {
                assert(walk_set(c, s, p).contains(x));
            }
            if exists|j: nat| j < m && walk(c, s, j) == x {
                let j = choose|j: nat| j < m && walk(c, s, j) == x;
                if j < p {
                    assert(walk_set(c, s, p).contains(x));
                }
            }
        }
    }
}

/// A first return after `k` steps exists below any return.
proof fn lemma_first_return(c: Seq<Node>, s: int, k: nat)
    requires
        k >= 1,
        walk(c, s, k) == s,
    ensures
        exists|r: nat| r <= k && returns_after(c, s, r),
    decreases k,
{
    if forall|j: nat| 1 <= j < k ==> #[trigger] walk(c, s, j) != s {
        assert(returns_after(c, s, k));
    } else {
        let j = choose|j: nat| 1 <= j < k && #[trigger] walk(c, s, j) == s;
        lemma_first_return(c, s, j);
    }
}

/// Walking right from a live node comes back to it, after at most as many
/// steps as there are nodes; `ring_len` is the number of steps it takes.
pub proof fn lemma_ring_returns(c: Seq<Node>, s: int)
    requires
        links_valid(c),
        rings_linked(c),
        0 <= s < c.len(),
        is_live(c, s),
    ensures
        returns_after(c, s, ring_len(c, s)),
        ring_len(c, s) <= c.len(),
{
    let n = c.len();
    if forall|j: nat| 1 <= j <= n ==> #[trigger] walk(c, s, j) != s {
        lemma_walk_set(c, s, n + 1);
        lemma_int_range(0, n as int);
        assert(walk_set(c, s, n + 1).subset_of(set_int_range(0, n as int)));
        lemma_len_subset(walk_set(c, s, n + 1), set_int_range(0, n as int));
    }
    let k = choose|j: nat| 1 <= j <= n && #[trigger] walk(c, s, j) == s;
    lemma_first_return(c, s, k);
    let r = choose|r: nat| r <= k && returns_after(c, s, r);
    assert(returns_after(c, s, ring_len(c, s)));
    if ring_len(c, s) > r {
        assert(walk(c, s, r) != s);
    }
}

/// Walking a ring from a live node meets no node twice before it comes
/// back to where it started.
pub proof fn lemma_ring_nodes_distinct(c: Seq<Node>, s: int, i: nat, j: nat)
    requires
        links_valid(c),
        rings_linked(c),
        0 <= s < c.len(),
        is_live(c, s),
        i < j < ring_len(c, s),
    ensures
        walk(c, s, i) != walk(c, s, j),
{
    lemma_ring_returns(c, s);
    if walk(c, s, i) == walk(c, s, j) {
        lemma_walk_return(c, s, i, j);
        assert(walk(c, s, (j - i) as nat) != s);
    }
}

/// A set of positions in which every live member has both neighbours.
pub open spec fn ring_closed(c: Seq<Node>, v: Set<int>) -> bool {
    forall|x: int|
        #![trigger v.contains(x)]
        v.contains(x) && 0 <= x < c.len() && is_live(c, x) ==> v.contains(right_of(c, x))
            && v.contains(left_of(c, x))
}

/// A ring-closed set that holds some node of a walk holds the walk's start.
pub proof fn lemma_back_in(c: Seq<Node>, v: Set<int>, s: int, m: nat)
    requires
        links_valid(c),
        rings_linked(c),
        0 <= s < c.len(),
        is_live(c, s),
        ring_closed(c, v),
        v.contains(walk(c, s, m)),
    ensures
        v.contains(s),
    decreases m,
{
    if m > 0 {
        lemma_left_walk(c, s, (m - 1) as nat);
        lemma_walk_live(c, s, m);
        lemma_back_in(c, v, s, (m - 1) as nat);
    }
}

/// A ring-closed set that holds a live node holds its whole ring.
pub proof fn lemma_forward_in(c: Seq<Node>, v: Set<int>, s: int, m: nat)
    requires
        links_valid(c),
        rings_linked(c),
        0 <= s < c.len(),
        is_live(c, s),
        ring_closed(c, v),
        v.contains(s),
    ensures
        v.contains(walk(c, s, m)),
    decreases m,
{
    if m > 0 {
        lemma_forward_in(c, v, s, (m - 1) as nat);
        lemma_walk_live(c, s, (m - 1) as nat);
    }
}

/// The point counts of the closed rings of one polygon: its exterior ring
/// and its interior rings, each counting the repeated closing point.
#[derive(Clone, Debug)]
pub struct PolygonRings {
    pub exterior: usize,
    pub interiors: Vec<usize>,
}

/// The number of ring nodes for each ring of `p`, exterior first: one less
/// than its point count.
pub open spec fn polygon_ring_nodes(p: PolygonRings) -> Seq<int> {
    seq![p.exterior - 1] + p.interiors@.map_values(|x: usize| x - 1)
}

/// The number of ring nodes for each ring of each polygon, in order.
pub open spec fn ring_node_counts(pv: Seq<PolygonRings>) -> Seq<int>
    decreases pv.len(),
{
    if pv.len() == 0 {
        Seq::empty()
    } else {
        ring_node_counts(pv.drop_last()) + polygon_ring_nodes(pv.last())
    }
}

/// Every ring of every polygon has at least one point.
pub open spec fn rings_nonempty(pv: Seq<PolygonRings>) -> bool {
    forall|k: int|
        0 <= k < pv.len() ==> (#[trigger] pv[k]).exterior >= 1 && forall|j: int|
            0 <= j < pv[k].interiors@.len() ==> #[trigger] pv[k].interiors@[j] >= 1
}

/// Every ring of every polygon has at least two points, so at least one
/// node.
pub open spec fn rings_have_nodes(pv: Seq<PolygonRings>) -> bool {
    forall|k: int|
        0 <= k < pv.len() ==> (#[trigger] pv[k]).exterior >= 2 && forall|j: int|
            0 <= j < pv[k].interiors@.len() ==> #[trigger] pv[k].interiors@[j] >= 2
}

/// The sum of a sequence of counts.
pub open spec fn total(counts: Seq<int>) -> int
    decreases counts.len(),
{
    if counts.len() == 0 {
        0
    } else {
        total(counts.drop_last()) + counts.last()
    }
}

/// The position after `i` in a ring of `len` nodes numbered `0..len`.
pub open spec fn ring_next(i: int, len: int) -> int {
    if i + 1 < len {
        i + 1
    } else {
        0
    }
}

/// The position before `i` in a ring of `len` nodes numbered `0..len`.
pub open spec fn ring_prev(i: int, len: int) -> int {
    if i > 0 {
        i - 1
    } else {
        len - 1
    }
}

/// A fresh ring of `len` nodes stored at positions `offset..offset + len`,
/// node `i` standing for vertex `offset + i`.
pub open spec fn ring_block(offset: int, len: int) -> Seq<Node> {
    Seq::new(
        len as nat,
        |i: int|
            Node {
                index: IndexType::RealIndex((offset + i) as usize),
                left: IndexType::PointerIndex((offset + ring_prev(i, len)) as usize),
                right: IndexType::PointerIndex((offset + ring_next(i, len)) as usize),
                done: false,
            },
    )
}

/// Fresh rings of the given sizes stored one after another from `offset`.
pub open spec fn ring_blocks(offset: int, counts: Seq<int>) -> Seq<Node>
    decreases counts.len(),
{
    if counts.len() == 0 {
        Seq::empty()
    } else {
        ring_blocks(offset, counts.drop_last()) + ring_block(
            offset + total(counts.drop_last()),
            counts.last(),
        )
    }
}

/// The first position of each of the fresh rings stored from `offset`.
pub open spec fn ring_offsets(offset: int, counts: Seq<int>) -> Seq<usize>
    decreases counts.len(),
{
    if counts.len() == 0 {
        Seq::empty()
    } else {
        ring_offsets(offset, counts.drop_last()).push(
            (offset + total(counts.drop_last())) as usize,
        )
    }
}

/// The total of two joined count sequences is the sum of their totals.
proof fn lemma_total_append(a: Seq<int>, b: Seq<int>)
    ensures
        total(a + b) == total(a) + total(b),
    decreases b.len(),
{
    if b.len() > 0 {
        assert((a + b).drop_last() =~= a + b.drop_last());
        lemma_total_append(a, b.drop_last());
    } else {
        assert(a + b =~= a);
    }
}

/// A prefix of nonnegative counts has at most the total of all of them.
proof fn lemma_total_take(s: Seq<int>, j: int)
    requires
        0 <= j <= s.len(),
        forall|k: int| 0 <= k < s.len() ==> s[k] >= 0,
    ensures
        total(s.take(j)) <= total(s),
        total(s) >= 0,
    decreases s.len(),
{
    if s.len() > 0 {
        if j == s.len() {
            assert(s.take(j) =~= s);
            lemma_total_take(s.drop_last(), j - 1);
        } else {
            assert(s.take(j) =~= s.drop_last().take(j));
            lemma_total_take(s.drop_last(), j);
        }
    } else {
        assert(s.take(j) =~= s);
    }
}

/// The fresh rings occupy as many positions as their sizes add up to.
proof fn lemma_ring_blocks_len(offset: int, counts: Seq<int>)
    requires
        forall|k: int| 0 <= k < counts.len() ==> counts[k] >= 0,
    ensures
        ring_blocks(offset, counts).len() == total(counts),
    decreases counts.len(),
{
    if counts.len() > 0 {
        lemma_ring_blocks_len(offset, counts.drop_last());
    }
}

/// The ring counts of a prefix of the polygons are a prefix of all counts.
proof fn lemma_counts_prefix(pv: Seq<PolygonRings>, p: int)
    requires
        0 < p <= pv.len(),
    ensures
        ring_node_counts(pv.take(p)) == ring_node_counts(pv.take(p - 1)) + polygon_ring_nodes(pv[p - 1]),
{
    assert(pv.take(p).drop_last() =~= pv.take(p - 1));
}

/// Every ring of polygons with nonempty rings has a nonnegative node count.
proof fn lemma_counts_nonneg(pv: Seq<PolygonRings>)
    requires
        rings_nonempty(pv),
    ensures
        forall|k: int| 0 <= k < ring_node_counts(pv).len() ==> ring_node_counts(pv)[k] >= 0,
    decreases pv.len(),
{
    if pv.len() > 0 {
        lemma_counts_nonneg(pv.drop_last());
        let last = pv.last();
        assert(pv[pv.len() - 1] == last);
        let a = ring_node_counts(pv.drop_last());
        let b = polygon_ring_nodes(last);
        assert forall|k: int| 0 <= k < b.len() implies b[k] >= 0 by {
            if k > 0 {
                assert(last.interiors@[k - 1] >= 1);
            }
        }
        assert forall|k: int| 0 <= k < (a + b).len() implies (a + b)[k] >= 0 by {
            if k >= a.len() {
                assert((a + b)[k] == b[k - a.len()]);
            }
        }
    }
}

/// The ring counts of joined polygon lists are joined.
proof fn lemma_counts_append(a: Seq<PolygonRings>, b: Seq<PolygonRings>)
    ensures
        ring_node_counts(a + b) == ring_node_counts(a) + ring_node_counts(b),
    decreases b.len(),
{
    if b.len() > 0 {
        assert((a + b).drop_last() =~= a + b.drop_last());
        lemma_counts_append(a, b.drop_last());
        assert(ring_node_counts(a + b) =~= ring_node_counts(a) + ring_node_counts(b));
    } else {
        assert(a + b =~= a);
        assert(ring_node_counts(a + b) =~= ring_node_counts(a) + ring_node_counts(b));
    }
}

/// The counts of a prefix of the polygons add up to no more than all counts.
proof fn lemma_counts_take_bound(pv: Seq<PolygonRings>, q: int)
    requires
        0 <= q <= pv.len(),
        rings_nonempty(pv),
    ensures
        total(ring_node_counts(pv.take(q))) <= total(ring_node_counts(pv)),
{
    assert(pv =~= pv.take(q) + pv.skip(q));
    lemma_counts_append(pv.take(q), pv.skip(q));
    lemma_total_append(ring_node_counts(pv.take(q)), ring_node_counts(pv.skip(q)));
    assert(rings_nonempty(pv.skip(q))) by {
        assert forall|k: int| 0 <= k < pv.skip(q).len() implies (#[trigger] pv.skip(q)[k]).exterior
            >= 1 && forall|j: int|
            0 <= j < pv.skip(q)[k].interiors@.len() ==> #[trigger] pv.skip(q)[k].interiors@[j]
                >= 1 by {
            assert(pv.skip(q)[k] == pv[k + q]);
        }
    }
    lemma_counts_nonneg(pv.skip(q));
    let r = ring_node_counts(pv.skip(q));
    lemma_total_take(r, 0);
}

/// Walking `a` steps and then `b` steps is walking `a + b` steps.
pub proof fn lemma_walk_add(c: Seq<Node>, s: int, a: nat, b: nat)
    ensures
        walk(c, walk(c, s, a), b) == walk(c, s, a + b),
    decreases b,
{
    if b > 0 {
        lemma_walk_add(c, s, a, (b - 1) as nat);
        assert(walk(c, s, a + b) == right_of(c, walk(c, s, (a + b - 1) as nat)));
    }
}

/// The first live node going right from `s` is reached after `m` steps.
pub open spec fn first_live_at(c: Seq<Node>, s: int, m: nat) -> bool {
    &&& is_live(c, walk(c, s, m))
    &&& forall|j: nat| j < m ==> !is_live(c, #[trigger] walk(c, s, j))
}

/// Every ring of at least three nodes that the walk from `s` first enters
/// is marked in `v`.
pub open spec fn settled(c: Seq<Node>, v: Set<int>, s: int) -> bool {
    forall|m: nat|
        #[trigger] first_live_at(c, s, m) && left_of(c, walk(c, s, m)) != right_of(
            c,
            walk(c, s, m),
        ) ==> v.contains(walk(c, s, m))
}

/// There is only one first live node.
proof fn lemma_first_live_unique(c: Seq<Node>, s: int, m1: nat, m2: nat)
    requires
        first_live_at(c, s, m1),
        first_live_at(c, s, m2),
    ensures
        m1 == m2,
{
    if m1 < m2 {
        assert(!is_live(c, walk(c, s, m1)));
    } else if m2 < m1 {
        assert(!is_live(c, walk(c, s, m2)));
    }
}

/// Past `q` removed nodes, the first live node from `s` is the first live
/// node from the node reached after `q` steps.
proof fn lemma_first_live_after(c: Seq<Node>, s: int, q: nat, m: nat)
    requires
        forall|j: nat| j < q ==> !is_live(c, #[trigger] walk(c, s, j)),
        first_live_at(c, s, m),
    ensures
        m >= q,
        first_live_at(c, walk(c, s, q), (m - q) as nat),
{
    if m < q {
        assert(!is_live(c, walk(c, s, m)));
    }
    let d = (m - q) as nat;
    lemma_walk_add(c, s, q, d);
    assert forall|j: nat| j < d implies !is_live(c, #[trigger] walk(c, walk(c, s, q), j)) by {
        lemma_walk_add(c, s, q, j);
        assert(!is_live(c, walk(c, s, q + j)));
    }
}

/// Before `q` removed nodes, the first live node from a node on the way is
/// the first live node from `s`.
proof fn lemma_first_live_before(c: Seq<Node>, s: int, q: nat, m: nat)
    requires
        forall|j: nat| j < q ==> !is_live(c, #[trigger] walk(c, s, j)),
        first_live_at(c, walk(c, s, q), m),
    ensures
        first_live_at(c, s, q + m),
        walk(c, s, q + m) == walk(c, walk(c, s, q), m),
{
    lemma_walk_add(c, s, q, m);
    assert forall|j: nat| j < q + m implies !is_live(c, #[trigger] walk(c, s, j)) by {
        if j >= q {
            let i = (j - q) as nat;
            lemma_walk_add(c, s, q, i);
            assert(!is_live(c, walk(c, walk(c, s, q), i)));
        }
    }
}

/// A walk that returns to a removed node it has passed never meets a live
/// node.
proof fn lemma_removed_cycle(c: Seq<Node>, s: int, j: nat, q: nat, m: nat)
    requires
        j < q,
        walk(c, s, q) == walk(c, s, j),
        forall|i: nat| i < q ==> !is_live(c, #[trigger] walk(c, s, i)),
    ensures
        !is_live(c, walk(c, s, m)),
    decreases m,
{
    if m >= q {
        let t = (m - q) as nat;
        lemma_walk_add(c, s, q, t);
        lemma_walk_add(c, s, j, t);
        lemma_removed_cycle(c, s, j, q, j + t);
    } else {
        assert(!is_live(c, walk(c, s, m)));
    }
}

/// Marking more nodes keeps a start node settled.
proof fn lemma_settled_mono(c: Seq<Node>, v: Set<int>, w: Set<int>, s: int)
    requires
        settled(c, v, s),
        v.subset_of(w),
    ensures
        settled(c, w, s),
{
    assert forall|m: nat|
        #[trigger] first_live_at(c, s, m) && left_of(c, walk(c, s, m)) != right_of(
            c,
            walk(c, s, m),
        ) implies w.contains(walk(c, s, m)) by {
        assert(v.contains(walk(c, s, m)));
    }
}

/// A node on the way from a settled `s` through removed nodes is settled.
proof fn lemma_settled_on_way(c: Seq<Node>, v: Set<int>, s: int, j: nat)
    requires
        settled(c, v, s),
        forall|i: nat| i < j ==> !is_live(c, #[trigger] walk(c, s, i)),
    ensures
        settled(c, v, walk(c, s, j)),
{
    let d = walk(c, s, j);
    assert forall|m: nat|
        #[trigger] first_live_at(c, d, m) && left_of(c, walk(c, d, m)) != right_of(
            c,
            walk(c, d, m),
        ) implies v.contains(walk(c, d, m)) by {
        lemma_first_live_before(c, s, j, m);
    }
}

/// The walk from `s0` followed `q` removed, unvisited nodes, marking them,
/// and stopped at `cur`, which is live or was already marked.
pub open spec fn followed(c: Seq<Node>, s0: int, q: nat, cur: int, v0: Set<int>, v1: Set<int>) -> bool {
    &&& cur == walk(c, s0, q)
    &&& forall|j: nat|
        j < q ==> !is_live(c, #[trigger] walk(c, s0, j)) && !v0.contains(walk(c, s0, j))
            && v1.contains(walk(c, s0, j))
    &&& forall|x: int|
        #[trigger] v1.contains(x) ==> v0.contains(x) || exists|j: nat|
            j < q && #[trigger] walk(c, s0, j) == x
    &&& v0.subset_of(v1)
    &&& is_live(c, cur) || v1.contains(cur)
}

/// The first `q` steps of the walk from `s0` meet `q` different nodes.
pub open spec fn walk_distinct(c: Seq<Node>, s0: int, q: nat) -> bool {
    forall|i: nat, j: nat| i < j < q ==> #[trigger] walk(c, s0, i) != #[trigger] walk(c, s0, j)
}

/// Following removed nodes from `s0` halts at step `q`: the node there is
/// live, was visited before (in `v0`), or was already passed on this walk.
pub open spec fn stop_here(c: Seq<Node>, s0: int, v0: Set<int>, q: nat) -> bool {
    ||| is_live(c, walk(c, s0, q))
    ||| v0.contains(walk(c, s0, q))
    ||| exists|j: nat| j < q && #[trigger] walk(c, s0, j) == walk(c, s0, q)
}

/// `q` is the first step at which following removed nodes from `s0` halts.
pub open spec fn stops_at(c: Seq<Node>, s0: int, v0: Set<int>, q: nat) -> bool {
    &&& stop_here(c, s0, v0, q)
    &&& forall|j: nat| j < q ==> !#[trigger] stop_here(c, s0, v0, j)
}

/// The number of removed nodes followed from `s0` with `v0` visited.
pub open spec fn follow_stop(c: Seq<Node>, s0: int, v0: Set<int>) -> nat {
    choose|q: nat| stops_at(c, s0, v0, q)
}

/// The nodes met in the first `q` steps from `s0`.
pub open spec fn passed(c: Seq<Node>, s0: int, q: nat) -> Set<int> {
    Set::new(|x: int| exists|j: nat| j < q && #[trigger] walk(c, s0, j) == x)
}

/// The nodes of the ring through `s`.
pub open spec fn ring_set(c: Seq<Node>, s: int) -> Set<int> {
    Set::new(|x: int| same_ring(c, s, x))
}

/// The start nodes `cleanup` leaves, going on from position `i` of `sv`
/// with the nodes `v` visited. The start node at `i` is followed through
/// removed, unvisited nodes. Where that stops at a visited node or at a
/// node whose two neighbours coincide, the last start node takes its
/// place (`swap_remove`); otherwise the node reached replaces it and its
/// whole ring counts as visited.
pub open spec fn cleanup_run(c: Seq<Node>, sv: Seq<usize>, i: int, v: Set<int>) -> Seq<usize>
    decreases sv.len() - i,
{
    if 0 <= i < sv.len() {
        let s0 = sv[i] as int;
        let q = follow_stop(c, s0, v);
        let cur = walk(c, s0, q);
        let v1 = v.union(passed(c, s0, q));
        if v1.contains(cur) || left_of(c, cur) == right_of(c, cur) {
            cleanup_run(c, sv.update(i, sv.last()).drop_last(), i, v1)
        } else {
            cleanup_run(c, sv.update(i, cur as usize), i + 1, v1.union(ring_set(c, cur)))
        }
    } else {
        sv
    }
}

/// The start nodes `cleanup` leaves for the start nodes `sv`.
pub open spec fn cleaned_starts(c: Seq<Node>, sv: Seq<usize>) -> Seq<usize> {
    cleanup_run(c, sv, 0, Set::empty())
}

/// A walk that follows removed nodes the way `cleanup` does halts where
/// `follow_stop` says, having visited exactly the nodes it passed.
proof fn lemma_follow_stop(c: Seq<Node>, s0: int, q: nat, cur: int, v0: Set<int>, v1: Set<int>)
    requires
        followed(c, s0, q, cur, v0, v1),
        walk_distinct(c, s0, q),
    ensures
        follow_stop(c, s0, v0) == q,
        v1 == v0.union(passed(c, s0, q)),
{
    assert(stop_here(c, s0, v0, q)) by {
        if !is_live(c, cur) && !v0.contains(cur) {
            let j = choose|j: nat| j < q && #[trigger] walk(c, s0, j) == cur;
            assert(walk(c, s0, j) == walk(c, s0, q));
        }
    }
    assert forall|j: nat| j < q implies !#[trigger] stop_here(c, s0, v0, j) by {
        assert(!is_live(c, walk(c, s0, j)) && !v0.contains(walk(c, s0, j)));
        if exists|i: nat| i < j && #[trigger] walk(c, s0, i) == walk(c, s0, j) {
            let i = choose|i: nat| i < j && #[trigger] walk(c, s0, i) == walk(c, s0, j);
            assert(walk(c, s0, i) != walk(c, s0, j));
        }
    }
    assert(stops_at(c, s0, v0, q));
    let r = follow_stop(c, s0, v0);
    assert(stops_at(c, s0, v0, r));
    if r < q {
        assert(!stop_here(c, s0, v0, r));
    } else if r > q {
        assert(!stop_here(c, s0, v0, q));
    }
    assert forall|x: int| #[trigger] v1.contains(x) <==> v0.union(passed(c, s0, q)).contains(x) by {
        if passed(c, s0, q).contains(x) {
            let j = choose|j: nat| j < q && #[trigger] walk(c, s0, j) == x;
            assert(v1.contains(walk(c, s0, j)));
        }
        if v1.contains(x) && !v0.contains(x) {
            let j = choose|j: nat| j < q && #[trigger] walk(c, s0, j) == x;
            assert(passed(c, s0, q).contains(x));
        }
    }
    assert(v1 =~= v0.union(passed(c, s0, q)));
}

/// Marking a ring adds exactly the nodes of that ring.
proof fn lemma_ring_marked_set(c: Seq<Node>, start: int, v1: Set<int>, v3: Set<int>)
    requires
        ring_marked(c, start, v1, v3),
    ensures
        v3 == v1.union(ring_set(c, start)),
{
    assert forall|x: int| #[trigger] v3.contains(x) <==> v1.union(ring_set(c, start)).contains(x) by {
        if ring_set(c, start).contains(x) {
            let m = choose|m: nat| #[trigger] walk(c, start, m) == x;
            assert(v3.contains(walk(c, start, m)));
        }
    }
    assert(v3 =~= v1.union(ring_set(c, start)));
}

/// One step of `cleanup` that drops the start node at position `i`.
proof fn lemma_run_drop(c: Seq<Node>, sv: Seq<usize>, i: int, v0: Set<int>, v1: Set<int>, q: nat, cur: int)
    requires
        0 <= i < sv.len(),
        followed(c, sv[i] as int, q, cur, v0, v1),
        walk_distinct(c, sv[i] as int, q),
        v1.contains(cur) || left_of(c, cur) == right_of(c, cur),
    ensures
        cleanup_run(c, sv, i, v0) == cleanup_run(c, sv.update(i, sv.last()).drop_last(), i, v1),
{
    lemma_follow_stop(c, sv[i] as int, q, cur, v0, v1);
}

/// One step of `cleanup` that keeps the live node `cur` as the start node at
/// position `i`.
proof fn lemma_run_keep(
    c: Seq<Node>,
    sv: Seq<usize>,
    i: int,
    v0: Set<int>,
    v1: Set<int>,
    v3: Set<int>,
    q: nat,
    cur: int,
)
    requires
        0 <= i < sv.len(),
        followed(c, sv[i] as int, q, cur, v0, v1),
        walk_distinct(c, sv[i] as int, q),
        !v1.contains(cur),
        left_of(c, cur) != right_of(c, cur),
        ring_marked(c, cur, v1, v3),
    ensures
        cleanup_run(c, sv, i, v0) == cleanup_run(c, sv.update(i, cur as usize), i + 1, v3),
{
    lemma_follow_stop(c, sv[i] as int, q, cur, v0, v1);
    lemma_ring_marked_set(c, cur, v1, v3);
}

/// `v1` is `v0` together with the whole ring through `start`.
pub open spec fn ring_marked(c: Seq<Node>, start: int, v0: Set<int>, v1: Set<int>) -> bool {
    &&& forall|x: int| #[trigger] v1.contains(x) ==> v0.contains(x) || same_ring(c, start, x)
    &&& forall|m: nat| v1.contains(#[trigger] walk(c, start, m))
    &&& v0.subset_of(v1)
    &&& ring_closed(c, v1)
}

/// Each new start node is the first live node reached from some old one.
pub open spec fn starts_from(c: Seq<Node>, old_sv: Seq<usize>, new_sv: Seq<usize>) -> bool {
    forall|k: int|
        0 <= k < new_sv.len() ==> exists|k0: int, m: nat|
            0 <= k0 < old_sv.len() && #[trigger] first_live_at(c, old_sv[k0] as int, m) && walk(
                c,
                old_sv[k0] as int,
                m,
            ) == #[trigger] new_sv[k]
}

/// Every ring of at least three nodes first reached from an old start node
/// has a new start node.
pub open spec fn starts_cover(c: Seq<Node>, old_sv: Seq<usize>, new_sv: Seq<usize>) -> bool {
    forall|k0: int, m: nat|
        0 <= k0 < old_sv.len() && #[trigger] first_live_at(c, old_sv[k0] as int, m) && left_of(
            c,
            walk(c, old_sv[k0] as int, m),
        ) != right_of(c, walk(c, old_sv[k0] as int, m)) ==> exists|k: int|
            0 <= k < new_sv.len() && same_ring(
                c,
                #[trigger] new_sv[k] as int,
                walk(c, old_sv[k0] as int, m),
            )
}

/// Every old start node is settled or still waits at a position from `i` on.
pub open spec fn pending_or_settled(c: Seq<Node>, orig: Seq<usize>, sv: Seq<usize>, i: int, v: Set<int>) -> bool {
    forall|k0: int|
        0 <= k0 < orig.len() ==> settled(c, v, #[trigger] orig[k0] as int) || exists|p: int|
            i <= p < sv.len() && sv[p] == orig[k0]
}

/// What `cleanup` has established after handling the start nodes before
/// position `i` of `sv` with the nodes `v` marked.
#[verifier::opaque]
pub open spec fn cleanup_progress(c: Seq<Node>, orig: Seq<usize>, sv: Seq<usize>, i: int, v: Set<int>) -> bool {
    &&& forall|k: int|
        0 <= k < i ==> {
            let x = #[trigger] sv[k] as int;
            &&& is_live(c, x)
            &&& left_of(c, x) != right_of(c, x)
            &&& v.contains(x)
        }
    &&& forall|k1: int, k2: int|
        0 <= k1 < k2 < i ==> !same_ring(c, #[trigger] sv[k1] as int, #[trigger] sv[k2] as int)
    &&& forall|x: int|
        #[trigger] v.contains(x) && is_live(c, x) ==> exists|k: int|
            0 <= k < i && same_ring(c, #[trigger] sv[k] as int, x)
    &&& forall|x: int| #[trigger] v.contains(x) && !is_live(c, x) ==> settled(c, v, x)
    &&& forall|p: int| i <= p < sv.len() ==> orig.contains(#[trigger] sv[p])
    &&& pending_or_settled(c, orig, sv, i, v)
    &&& starts_from(c, orig, sv.take(i))
}

/// Before any start node is handled, nothing is marked and every old start
/// node is still to be handled.
proof fn lemma_cleanup_start(c: Seq<Node>, orig: Seq<usize>)
    ensures
        cleanup_progress(c, orig, orig, 0, Set::empty()),
{
    reveal(cleanup_progress);
    assert(orig.take(0).len() == 0);
    assert forall|p: int| 0 <= p < orig.len() implies orig.contains(#[trigger] orig[p]) by {
        assert(orig[p] == orig[p]);
    }
    assert forall|k0: int| 0 <= k0 < orig.len() implies settled(
        c,
        Set::empty(),
        #[trigger] orig[k0] as int,
    ) || exists|p: int| 0 <= p < orig.len() && orig[p] == orig[k0] by {
        assert(orig[k0] == orig[k0]);
    }
}

/// The marked set stays closed under ring neighbours after following
/// removed nodes.
proof fn lemma_followed_closed(c: Seq<Node>, s0: int, q: nat, cur: int, v0: Set<int>, v1: Set<int>)
    requires
        followed(c, s0, q, cur, v0, v1),
        ring_closed(c, v0),
    ensures
        ring_closed(c, v1),
{
    assert forall|x: int|
        #![trigger v1.contains(x)]
        v1.contains(x) && 0 <= x < c.len() && is_live(c, x) implies v1.contains(right_of(c, x))
        && v1.contains(left_of(c, x)) by {
        if !v0.contains(x) {
            let j = choose|j: nat| j < q && #[trigger] walk(c, s0, j) == x;
            assert(!is_live(c, walk(c, s0, j)));
        }
    }
}

/// The ring walk that returned to `start` after `k` steps marked the ring.
proof fn lemma_ring_marked(c: Seq<Node>, start: int, v0: Set<int>, v: Set<int>, k: nat)
    requires
        links_valid(c),
        rings_linked(c),
        0 <= start < c.len(),
        is_live(c, start),
        ring_closed(c, v0),
        k >= 1,
        walk(c, start, k) == start,
        forall|j: nat| j < k ==> v.contains(#[trigger] walk(c, start, j)),
        forall|x: int|
            #[trigger] v.contains(x) ==> v0.contains(x) || exists|j: nat|
                j < k && #[trigger] walk(c, start, j) == x,
        v0.subset_of(v),
    ensures
        ring_marked(c, start, v0, v),
{
    assert(walk(c, start, 0) == start);
    assert(v.contains(start));
    assert forall|x: int|
        #![trigger v.contains(x)]
        v.contains(x) && 0 <= x < c.len() && is_live(c, x) implies v.contains(right_of(c, x))
        && v.contains(left_of(c, x)) by {
        if v0.contains(x) {
            assert(v0.contains(right_of(c, x)) && v0.contains(left_of(c, x)));
        } else {
            let j = choose|j: nat| j < k && #[trigger] walk(c, start, j) == x;
            assert(walk(c, start, j + 1) == right_of(c, x));
            if j + 1 < k {
                assert(v.contains(walk(c, start, j + 1)));
            } else {
                assert(walk(c, start, k) == start);
            }
            if j > 0 {
                lemma_left_walk(c, start, (j - 1) as nat);
                assert(v.contains(walk(c, start, (j - 1) as nat)));
            } else {
                lemma_left_walk(c, start, (k - 1) as nat);
                assert(v.contains(walk(c, start, (k - 1) as nat)));
            }
        }
    }
    assert(ring_closed(c, v));
    assert forall|m: nat| v.contains(#[trigger] walk(c, start, m)) by {
        lemma_forward_in(c, v, start, m);
    }
    assert forall|x: int| #[trigger] v.contains(x) implies v0.contains(x) || same_ring(c, start, x) by {
        if !v0.contains(x) {
            let j = choose|j: nat| j < k && #[trigger] walk(c, start, j) == x;
            assert(walk(c, start, j) == x);
        }
    }
}

/// After the walk from `s0` stopped at `cur` because `cur` was marked or
/// lies on a ring of at most two nodes, `s0` and the removed nodes passed
/// are settled.
proof fn lemma_followed_settles(c: Seq<Node>, vbefore: Set<int>, v1: Set<int>, s0: int, q: nat, cur: int)
    requires
        followed(c, s0, q, cur, vbefore, v1),
        forall|x: int| #[trigger] vbefore.contains(x) && !is_live(c, x) ==> settled(c, vbefore, x),
        v1.contains(cur) || (is_live(c, cur) && left_of(c, cur) == right_of(c, cur)),
    ensures
        settled(c, v1, s0),
        forall|x: int| #[trigger] v1.contains(x) && !is_live(c, x) ==> settled(c, v1, x),
{
    if is_live(c, cur) {
        assert(first_live_at(c, s0, q));
        assert forall|m: nat|
            #[trigger] first_live_at(c, s0, m) && left_of(c, walk(c, s0, m)) != right_of(
                c,
                walk(c, s0, m),
            ) implies v1.contains(walk(c, s0, m)) by {
            lemma_first_live_unique(c, s0, m, q);
        }
    } else if vbefore.contains(cur) {
        assert(settled(c, vbefore, cur));
        assert forall|m: nat|
            #[trigger] first_live_at(c, s0, m) && left_of(c, walk(c, s0, m)) != right_of(
                c,
                walk(c, s0, m),
            ) implies v1.contains(walk(c, s0, m)) by {
            lemma_first_live_after(c, s0, q, m);
            lemma_walk_add(c, s0, q, (m - q) as nat);
            assert(vbefore.contains(walk(c, s0, m)));
        }
    } else {
        let j = choose|j: nat| j < q && #[trigger] walk(c, s0, j) == cur;
        assert forall|m: nat|
            #[trigger] first_live_at(c, s0, m) && left_of(c, walk(c, s0, m)) != right_of(
                c,
                walk(c, s0, m),
            ) implies v1.contains(walk(c, s0, m)) by {
            lemma_removed_cycle(c, s0, j, q, m);
        }
    }
    lemma_settle_passed(c, vbefore, v1, s0, q);
}

/// Once `s0` is settled, the removed nodes passed on the way from it are
/// settled too, as are the removed nodes marked before.
proof fn lemma_settle_passed(c: Seq<Node>, vbefore: Set<int>, v: Set<int>, s0: int, q: nat)
    requires
        settled(c, v, s0),
        vbefore.subset_of(v),
        forall|j: nat| j < q ==> !is_live(c, #[trigger] walk(c, s0, j)),
        forall|x: int| #[trigger] vbefore.contains(x) && !is_live(c, x) ==> settled(c, vbefore, x),
        forall|x: int|
            #[trigger] v.contains(x) ==> vbefore.contains(x) || exists|j: nat|
                j < q && #[trigger] walk(c, s0, j) == x,
    ensures
        forall|x: int| #[trigger] v.contains(x) && !is_live(c, x) ==> settled(c, v, x),
{
    assert forall|x: int| #[trigger] v.contains(x) && !is_live(c, x) implies settled(c, v, x) by {
        if vbefore.contains(x) {
            lemma_settled_mono(c, vbefore, v, x);
        } else {
            let j = choose|j: nat| j < q && #[trigger] walk(c, s0, j) == x;
            assert forall|i: nat| i < j implies !is_live(c, #[trigger] walk(c, s0, i)) by {}
            lemma_settled_on_way(c, v, s0, j);
        }
    }
}

/// Once the start node at position `i` is settled, dropping it (the last
/// one takes its place) leaves every old start node settled or pending.
proof fn lemma_drop_pending(
    c: Seq<Node>,
    orig: Seq<usize>,
    sv: Seq<usize>,
    i: int,
    vbefore: Set<int>,
    v1: Set<int>,
)
    requires
        0 <= i < sv.len(),
        pending_or_settled(c, orig, sv, i, vbefore),
        settled(c, v1, sv[i] as int),
        vbefore.subset_of(v1),
    ensures
        pending_or_settled(c, orig, sv.update(i, sv.last()).drop_last(), i, v1),
{
    let after = sv.update(i, sv.last()).drop_last();
    assert forall|k0: int| 0 <= k0 < orig.len() implies settled(c, v1, #[trigger] orig[k0] as int)
        || exists|p: int| i <= p < after.len() && after[p] == orig[k0] by {
        if settled(c, vbefore, orig[k0] as int) {
            lemma_settled_mono(c, vbefore, v1, orig[k0] as int);
        } else {
            let p = choose|p: int| i <= p < sv.len() && sv[p] == orig[k0];
            if p == i {
            } else if p == sv.len() - 1 {
                assert(after[i] == orig[k0]);
            } else {
                assert(after[p] == orig[k0]);
            }
        }
    }
}

/// Once the start node at position `i` is settled, moving past it leaves
/// every old start node settled or pending.
proof fn lemma_keep_pending(
    c: Seq<Node>,
    orig: Seq<usize>,
    sv: Seq<usize>,
    i: int,
    vbefore: Set<int>,
    v3: Set<int>,
    x: usize,
)
    requires
        0 <= i < sv.len(),
        pending_or_settled(c, orig, sv, i, vbefore),
        settled(c, v3, sv[i] as int),
        vbefore.subset_of(v3),
    ensures
        pending_or_settled(c, orig, sv.update(i, x), i + 1, v3),
{
    let after = sv.update(i, x);
    assert forall|k0: int| 0 <= k0 < orig.len() implies settled(c, v3, #[trigger] orig[k0] as int)
        || exists|p: int| i + 1 <= p < after.len() && after[p] == orig[k0] by {
        if settled(c, vbefore, orig[k0] as int) {
            lemma_settled_mono(c, vbefore, v3, orig[k0] as int);
        } else {
            let p = choose|p: int| i <= p < sv.len() && sv[p] == orig[k0];
            if p > i {
                assert(after[p] == orig[k0]);
            }
        }
    }
}

/// Dropping the start node at position `i` keeps the progress invariant.
#[verifier::rlimit(40)]
proof fn lemma_cleanup_drop(
    c: Seq<Node>,
    orig: Seq<usize>,
    sv: Seq<usize>,
    i: int,
    vbefore: Set<int>,
    v1: Set<int>,
    q: nat,
    cur: int,
)
    requires
        0 <= i < sv.len(),
        cleanup_progress(c, orig, sv, i, vbefore),
        followed(c, sv[i] as int, q, cur, vbefore, v1),
        v1.contains(cur) || (is_live(c, cur) && left_of(c, cur) == right_of(c, cur)),
    ensures
        cleanup_progress(c, orig, sv.update(i, sv.last()).drop_last(), i, v1),
{
    reveal(cleanup_progress);
    let s0 = sv[i] as int;
    let after = sv.update(i, sv.last()).drop_last();
    assert(after.len() == sv.len() - 1);
    lemma_followed_settles(c, vbefore, v1, s0, q, cur);
    assert forall|k: int| 0 <= k < i implies #[trigger] after[k] == sv[k] by {}
    assert forall|x: int|
        #[trigger] v1.contains(x) && is_live(c, x) implies exists|k: int|
        0 <= k < i && same_ring(c, #[trigger] after[k] as int, x) by {
        assert(vbefore.contains(x));
        let k = choose|k: int| 0 <= k < i && same_ring(c, #[trigger] sv[k] as int, x);
        assert(after[k] == sv[k]);
    }
    assert forall|p: int| i <= p < after.len() implies orig.contains(#[trigger] after[p]) by {
        if p == i {
            assert(after[p] == sv[sv.len() - 1]);
        } else {
            assert(after[p] == sv[p]);
        }
    }
    lemma_drop_pending(c, orig, sv, i, vbefore, v1);
    assert(after.take(i) =~= sv.take(i));
    assert forall|k1: int, k2: int|
        0 <= k1 < k2 < i implies !same_ring(c, #[trigger] after[k1] as int, #[trigger] after[k2] as int) by {
        assert(after[k1] == sv[k1]);
        assert(after[k2] == sv[k2]);
    }
}

/// After keeping the live node `start` reached from `s0` and marking its
/// ring, `s0` and every removed node marked so far are settled.
proof fn lemma_keep_settles(c: Seq<Node>, vbefore: Set<int>, v1: Set<int>, v3: Set<int>, s0: int, q: nat, start: int)
    requires
        links_valid(c),
        rings_linked(c),
        0 <= start < c.len(),
        is_live(c, start),
        followed(c, s0, q, start, vbefore, v1),
        ring_marked(c, start, v1, v3),
        forall|x: int| #[trigger] vbefore.contains(x) && !is_live(c, x) ==> settled(c, vbefore, x),
    ensures
        settled(c, v3, s0),
        forall|x: int| #[trigger] v3.contains(x) && !is_live(c, x) ==> settled(c, v3, x),
{
    assert(first_live_at(c, s0, q));
    assert(walk(c, start, 0) == start);
    assert(settled(c, v3, s0)) by {
        assert forall|m: nat|
            #[trigger] first_live_at(c, s0, m) && left_of(c, walk(c, s0, m)) != right_of(
                c,
                walk(c, s0, m),
            ) implies v3.contains(walk(c, s0, m)) by {
            lemma_first_live_unique(c, s0, m, q);
        }
    }
    assert forall|x: int| #[trigger] v3.contains(x) && !is_live(c, x) implies settled(c, v3, x) by {
        if vbefore.contains(x) {
            lemma_settled_mono(c, vbefore, v3, x);
        } else if v1.contains(x) {
            let j = choose|j: nat| j < q && #[trigger] walk(c, s0, j) == x;
            assert forall|i: nat| i < j implies !is_live(c, #[trigger] walk(c, s0, i)) by {}
            lemma_settled_on_way(c, v3, s0, j);
        } else {
            assert(same_ring(c, start, x));
            let m = choose|m: nat| #[trigger] walk(c, start, m) == x;
            lemma_walk_live(c, start, m);
        }
    }
}

/// Keeping the live node `start` reached from the start node at position
/// `i`, with its ring marked, keeps the progress invariant one further.
#[verifier::rlimit(60)]
proof fn lemma_cleanup_keep(
    c: Seq<Node>,
    orig: Seq<usize>,
    sv: Seq<usize>,
    i: int,
    vbefore: Set<int>,
    v1: Set<int>,
    v3: Set<int>,
    q: nat,
    start: int,
)
    requires
        links_valid(c),
        rings_linked(c),
        0 <= i < sv.len(),
        0 <= start < c.len(),
        start as usize == start,
        cleanup_progress(c, orig, sv, i, vbefore),
        forall|k: int| 0 <= k < sv.len() ==> #[trigger] sv[k] < c.len(),
        ring_closed(c, v1),
        followed(c, sv[i] as int, q, start, vbefore, v1),
        !v1.contains(start),
        is_live(c, start),
        left_of(c, start) != right_of(c, start),
        ring_marked(c, start, v1, v3),
    ensures
        cleanup_progress(c, orig, sv.update(i, start as usize), i + 1, v3),
{
    reveal(cleanup_progress);
    let s0 = sv[i] as int;
    let after = sv.update(i, start as usize);
    assert(first_live_at(c, s0, q));
    lemma_keep_settles(c, vbefore, v1, v3, s0, q, start);
    assert forall|k: int| 0 <= k < i implies #[trigger] after[k] == sv[k] by {}
    assert forall|kk: int| 0 <= kk < i implies !same_ring(c, #[trigger] after[kk] as int, start) by {
        let a = sv[kk] as int;
        assert(after[kk] == sv[kk]);
        assert(vbefore.contains(a));
        if same_ring(c, a, start) {
            let m = choose|m: nat| #[trigger] walk(c, a, m) == start;
            lemma_forward_in(c, v1, a, m);
        }
    }
    assert forall|k1: int, k2: int|
        0 <= k1 < k2 < i + 1 implies !same_ring(c, #[trigger] after[k1] as int, #[trigger] after[k2] as int) by {
        if k2 < i {
            assert(after[k1] == sv[k1]);
            assert(after[k2] == sv[k2]);
        }
    }
    assert forall|kk: int| 0 <= kk < i + 1 implies {
        let x = #[trigger] after[kk] as int;
        &&& is_live(c, x)
        &&& left_of(c, x) != right_of(c, x)
        &&& v3.contains(x)
    } by {
        if kk < i {
            assert(after[kk] == sv[kk]);
        }
    }
    assert forall|x: int|
        #[trigger] v3.contains(x) && is_live(c, x) implies exists|k: int|
        0 <= k < i + 1 && same_ring(c, #[trigger] after[k] as int, x) by {
        if v1.contains(x) {
            if vbefore.contains(x) {
                let k = choose|k: int| 0 <= k < i && same_ring(c, #[trigger] sv[k] as int, x);
                assert(after[k] == sv[k]);
            } else {
                let j = choose|j: nat| j < q && #[trigger] walk(c, s0, j) == x;
                assert(!is_live(c, walk(c, s0, j)));
            }
        } else {
            assert(same_ring(c, start, x));
            assert(after[i] == start);
        }
    }
    assert forall|p: int| i + 1 <= p < after.len() implies orig.contains(#[trigger] after[p]) by {
        assert(after[p] == sv[p]);
    }
    lemma_keep_pending(c, orig, sv, i, vbefore, v3, start as usize);
    assert(orig.contains(sv[i]));
    let k0w = choose|k0: int| 0 <= k0 < orig.len() && #[trigger] orig[k0] == sv[i];
    assert(first_live_at(c, orig[k0w] as int, q));
    lemma_starts_from_push(c, orig, sv.take(i), start as usize, k0w, q);
    assert(after.take(i + 1) =~= sv.take(i).push(start as usize));
}

/// A live node first reached from an old start node may join the new ones.
proof fn lemma_starts_from_push(
    c: Seq<Node>,
    orig: Seq<usize>,
    prefix: Seq<usize>,
    x: usize,
    k0: int,
    m: nat,
)
    requires
        starts_from(c, orig, prefix),
        0 <= k0 < orig.len(),
        first_live_at(c, orig[k0] as int, m),
        walk(c, orig[k0] as int, m) == x,
    ensures
        starts_from(c, orig, prefix.push(x)),
{
    let pushed = prefix.push(x);
    assert forall|k: int| 0 <= k < pushed.len() implies exists|k1: int, m1: nat|
        0 <= k1 < orig.len() && #[trigger] first_live_at(c, orig[k1] as int, m1) && walk(
            c,
            orig[k1] as int,
            m1,
        ) == #[trigger] pushed[k] by {
        if k < prefix.len() {
            let (k1, m1) = choose|k1: int, m1: nat|
                0 <= k1 < orig.len() && #[trigger] first_live_at(c, orig[k1] as int, m1) && walk(
                    c,
                    orig[k1] as int,
                    m1,
                ) == #[trigger] prefix[k];
            assert(pushed[k] == prefix[k]);
            assert(first_live_at(c, orig[k1] as int, m1));
        } else {
            assert(pushed[k] == x);
            assert(first_live_at(c, orig[k0] as int, m));
        }
    }
}

/// When every start node has been handled, the start nodes are normalised,
/// each comes from an old one, and every ring an old one led to is covered.
proof fn lemma_cleanup_finish(c: Seq<Node>, orig: Seq<usize>, sv: Seq<usize>, v: Set<int>)
    requires
        cleanup_progress(c, orig, sv, sv.len() as int, v),
    ensures
        starts_from(c, orig, sv),
        starts_cover(c, orig, sv),
        forall|k: int|
            0 <= k < sv.len() ==> {
                let x = #[trigger] sv[k] as int;
                &&& is_live(c, x)
                &&& left_of(c, x) != right_of(c, x)
            },
        forall|k1: int, k2: int|
            0 <= k1 < k2 < sv.len() ==> !same_ring(
                c,
                #[trigger] sv[k1] as int,
                #[trigger] sv[k2] as int,
            ),
{
    reveal(cleanup_progress);
    assert(sv.take(sv.len() as int) =~= sv);
    assert forall|k0: int, m: nat|
        0 <= k0 < orig.len() && #[trigger] first_live_at(c, orig[k0] as int, m) && left_of(
            c,
            walk(c, orig[k0] as int, m),
        ) != right_of(c, walk(c, orig[k0] as int, m)) implies exists|k: int|
        0 <= k < sv.len() && same_ring(c, #[trigger] sv[k] as int, walk(c, orig[k0] as int, m)) by {
        assert(settled(c, v, orig[k0] as int));
        let l = walk(c, orig[k0] as int, m);
        assert(v.contains(l));
    }
}

/// Rings of vertices stored in one vector, with one start node per ring.
#[derive(Clone, Debug)]
pub struct VertexQueue {
    pub content: Vec<Node>,
    pub start_vertex: Vec<usize>,
}

impl VertexQueue {
    /// Every start node lies inside `content`.
    pub open spec fn starts_valid(&self) -> bool {
        forall|k: int|
            0 <= k < self.start_vertex@.len() ==> #[trigger] self.start_vertex@[k]
                < self.content@.len()
    }

    /// Every start node is live, lies on a ring of at least three nodes, and
    /// no two start nodes lie on the same ring.
    pub open spec fn starts_normalized(&self) -> bool {
        &&& forall|k: int|
            0 <= k < self.start_vertex@.len() ==> {
                let v = #[trigger] self.start_vertex@[k] as int;
                &&& is_live(self.content@, v)
                &&& left_of(self.content@, v) != right_of(self.content@, v)
            }
        &&& forall|k1: int, k2: int|
            0 <= k1 < k2 < self.start_vertex@.len() ==> !same_ring(
                self.content@,
                #[trigger] self.start_vertex@[k1] as int,
                #[trigger] self.start_vertex@[k2] as int,
            )
    }

    /// The structural invariant of the queue.
    pub open spec fn well_formed(&self) -> bool {
        &&& links_valid(self.content@)
        &&& rings_linked(self.content@)
        &&& self.starts_valid()
    }

    /// An empty queue.
    pub fn new() -> (q: VertexQueue)
        ensures
            q.content@ == Seq::<Node>::empty(),
            q.start_vertex@ == Seq::<usize>::empty(),
            q.well_formed(),
    {
        VertexQueue { content: Vec::new(), start_vertex: Vec::new() }
    }

    /// The vertex index stored at position `cv`.
    pub fn get_real_index(&self, cv: IndexType) -> (res: usize)
        requires
            points_below(cv, self.content@.len() as int),
            self.content@[ptr(cv)].index is RealIndex,
        ensures
            self.content@[ptr(cv)].index == IndexType::RealIndex(res),
    {
        let i = cv.get_index();
        self.content[i].index.get_real_index()
    }

    /// The left neighbour of position `cv`.
    pub fn lv(&self, cv: IndexType) -> (res: IndexType)
        requires
            points_below(cv, self.content@.len() as int),
        ensures
            res == self.content@[ptr(cv)].left,
    {
        let i = cv.get_index();
        self.content[i].left
    }

    /// The right neighbour of position `cv`.
    pub fn rv(&self, cv: IndexType) -> (res: IndexType)
        requires
            points_below(cv, self.content@.len() as int),
        ensures
            res == self.content@[ptr(cv)].right,
    {
        let i = cv.get_index();
        self.content[i].right
    }

    /// Takes node `cv` out of its ring and returns its right neighbour.
    pub fn remove(&mut self, cv: IndexType) -> (tr: IndexType)
        requires
            points_below(cv, old(self).content@.len() as int),
            points_below(old(self).content@[ptr(cv)].left, old(self).content@.len() as int),
            points_below(old(self).content@[ptr(cv)].right, old(self).content@.len() as int),
        ensures
            tr == old(self).content@[ptr(cv)].right,
            final(self).content@ == removed(old(self).content@, ptr(cv)),
            final(self).start_vertex@ == old(self).start_vertex@,
            old(self).well_formed() && is_live(old(self).content@, ptr(cv))
                ==> final(self).well_formed(),
    {
        let tl = self.lv(cv);
        let tr = self.rv(cv);
        let tli = tl.get_index();
        let tri = tr.get_index();
        let cvi = cv.get_index();
        self.content[tli].right = tr;
        self.content[tri].left = tl;
        self.content[cvi].done = true;
        proof {
            if old(self).well_formed() && is_live(old(self).content@, ptr(cv)) {
                lemma_removed_keeps_rings(old(self).content@, ptr(cv));
            }
        }
        tr
    }

    /// Takes node `cv` out of its ring, gives its right neighbour the vertex
    /// index `nv`, and returns that neighbour.
    pub fn remove_and_set(&mut self, cv: IndexType, nv: IndexType) -> (res: IndexType)
        requires
            points_below(cv, old(self).content@.len() as int),
            points_below(old(self).content@[ptr(cv)].left, old(self).content@.len() as int),
            points_below(old(self).content@[ptr(cv)].right, old(self).content@.len() as int),
            nv is RealIndex,
        ensures
            res == old(self).content@[ptr(cv)].right,
            final(self).content@ == ({
                let c = removed(old(self).content@, ptr(cv));
                c.update(ptr(res), Node { index: nv, ..c[ptr(res)] })
            }),
            final(self).start_vertex@ == old(self).start_vertex@,
            old(self).well_formed() && is_live(old(self).content@, ptr(cv))
                ==> final(self).well_formed(),
    {
        let res = self.remove(cv);
        let ghost mid = self.content@;
        let i = res.get_index();
        self.content[i].index = nv;
        proof {
            if old(self).well_formed() && is_live(old(self).content@, ptr(cv)) {
                let c = self.content@;
                assert forall|k: int| 0 <= k < c.len() implies {
                    &&& (#[trigger] c[k]).index is RealIndex
                    &&& points_below(c[k].left, c.len() as int)
                    &&& points_below(c[k].right, c.len() as int)
                } by {
                    assert(mid[k] == mid[k]);
                }
                assert forall|k: int| 0 <= k < c.len() && is_live(c, k) implies {
                    &&& is_live(c, #[trigger] right_of(c, k))
                    &&& is_live(c, left_of(c, k))
                    &&& left_of(c, right_of(c, k)) == k
                    &&& right_of(c, left_of(c, k)) == k
                } by {
                    assert(mid[k] == mid[k]);
                    let j = right_of(mid, k);
                    let h = left_of(mid, k);
                    assert(mid[j] == mid[j]);
                    assert(mid[h] == mid[h]);
                }
            }
        }
        res
    }

    /// Splits at anchor `cv` and split vertex `sv`: appends a node between
    /// `sv` and the right neighbour of `cv`, links `cv` to the right
    /// neighbour of `sv`, gives `cv` and the new node the vertex indices
    /// `nv1` and `nv2`, records both as start nodes and returns them.
    pub fn split_and_set(
        &mut self,
        cv: IndexType,
        sv: IndexType,
        nv1: IndexType,
        nv2: IndexType,
    ) -> (res: (IndexType, IndexType))
        requires
            points_below(cv, old(self).content@.len() as int),
            points_below(sv, old(self).content@.len() as int),
            points_below(old(self).content@[ptr(cv)].right, old(self).content@.len() + 1int),
            points_below(old(self).content@[ptr(sv)].right, old(self).content@.len() + 1int),
            nv1 is RealIndex,
            nv2 is RealIndex,
            old(self).content@.len() < usize::MAX,
        ensures
            res == (cv, IndexType::PointerIndex(old(self).content@.len() as usize)),
            final(self).content@ == split(old(self).content@, ptr(cv), ptr(sv), nv1, nv2),
            final(self).start_vertex@ == old(self).start_vertex@.push(ptr(cv) as usize).push(
                old(self).content@.len() as usize,
            ),
            old(self).well_formed() && is_live(old(self).content@, ptr(cv)) && is_live(
                old(self).content@,
                ptr(sv),
            ) && ptr(cv) != ptr(sv) ==> final(self).well_formed(),
    {
        let ghost c = self.content@;
        let cvi = cv.get_index();
        let svi = sv.get_index();
        let right_of_cv = self.rv(cv).get_index();
        let new_node = Node::new(0, svi, right_of_cv);
        let new_pos = self.content.len();
        let new_index = IndexType::PointerIndex(new_pos);
        self.content.push(new_node);
        self.content[cvi].index = nv1;
        self.content[new_pos].index = nv2;
        let svx = self.rv(sv);
        let cvx = self.rv(cv);
        let svxi = svx.get_index();
        let cvxi = cvx.get_index();
        self.content[cvxi].left = new_index;
        self.content[svi].right = new_index;
        self.content[cvi].right = svx;
        self.content[svxi].left = cv;
        self.start_vertex.push(cvi);
        self.start_vertex.push(new_pos);
        proof {
            reveal(split);
            assert(self.content@ =~= split(c, ptr(cv), ptr(sv), nv1, nv2));
            if old(self).well_formed() && is_live(c, ptr(cv)) && is_live(c, ptr(sv)) && ptr(cv)
                != ptr(sv) {
                lemma_split_keeps_rings(c, ptr(cv), ptr(sv), nv1, nv2);
                assert forall|k: int| 0 <= k < self.start_vertex@.len() implies #[trigger] self.start_vertex@[k]
                    < self.content@.len() by {
                    if k < old(self).start_vertex@.len() {
                        assert(old(self).start_vertex@[k] < c.len());
                    }
                }
            }
        }
        (cv, new_index)
    }

    /// Appends one fresh ring of `len` nodes and records its first node as a
    /// start node.
    fn push_ring(&mut self, len: usize)
        requires
            old(self).content@.len() + len <= usize::MAX,
        ensures
            final(self).content@ == old(self).content@ + ring_block(
                old(self).content@.len() as int,
                len as int,
            ),
            final(self).start_vertex@ == old(self).start_vertex@.push(
                old(self).content@.len() as usize,
            ),
            old(self).well_formed() && len > 0 ==> final(self).well_formed(),
    {
        let offset = self.content.len();
        self.start_vertex.push(offset);
        let ghost block = ring_block(offset as int, len as int);
        let mut i: usize = 0;
        while i < len
            invariant
                offset == old(self).content@.len(),
                offset + len <= usize::MAX,
                i <= len,
                block == ring_block(offset as int, len as int),
                self.content@ == old(self).content@ + block.take(i as int),
                self.start_vertex@ == old(self).start_vertex@.push(offset),
            decreases len - i,
        {
            let left = if i == 0 {
                len - 1
            } else {
                i - 1
            };
            let right = if i + 1 < len {
                i + 1
            } else {
                0
            };
            self.content.push(Node::new(i + offset, left + offset, right + offset));
            proof {
                assert(block.take(i as int + 1) =~= block.take(i as int).push(block[i as int]));
            }
            i += 1;
        }
        proof {
            assert(block.take(len as int) =~= block);
            if old(self).well_formed() && len > 0 {
                let c = self.content@;
                let c0 = old(self).content@;
                assert forall|k: int| 0 <= k < c.len() implies {
                    &&& (#[trigger] c[k]).index is RealIndex
                    &&& points_below(c[k].left, c.len() as int)
                    &&& points_below(c[k].right, c.len() as int)
                } by {
                    if k < c0.len() {
                        assert(c0[k] == c0[k]);
                    } else {
                        assert(c[k] == block[k - offset]);
                    }
                }
                assert forall|k: int| 0 <= k < c.len() && is_live(c, k) implies {
                    &&& is_live(c, #[trigger] right_of(c, k))
                    &&& is_live(c, left_of(c, k))
                    &&& left_of(c, right_of(c, k)) == k
                    &&& right_of(c, left_of(c, k)) == k
                } by {
                    if k < c0.len() {
                        assert(c0[k] == c0[k]);
                        let j = right_of(c0, k);
                        let h = left_of(c0, k);
                        assert(c0[j] == c0[j]);
                        assert(c0[h] == c0[h]);
                    } else {
                        let i = k - offset;
                        assert(c[k] == block[i]);
                        let j = ring_next(i, len as int);
                        let h = ring_prev(i, len as int);
                        assert(c[offset + j] == block[j]);
                        assert(c[offset + h] == block[h]);
                    }
                }
                assert forall|k: int| 0 <= k < self.start_vertex@.len() implies #[trigger] self.start_vertex@[k]
                    < self.content@.len() by {
                    if k < old(self).start_vertex@.len() {
                        assert(old(self).start_vertex@[k] < c0.len());
                    }
                }
            }
        }
    }

    /// Appends one ring per polygon ring, exterior rings before the interior
    /// rings of the same polygon, and records the first node of each ring as
    /// a start node. A ring of `m` points (the closing point repeated) gives
    /// `m - 1` nodes, node `i` standing for vertex `offset + i`.
    pub fn initialize_from_polygon_vector(&mut self, pv: &Vec<PolygonRings>)
        requires
            rings_nonempty(pv@),
            old(self).content@.len() + total(ring_node_counts(pv@)) <= usize::MAX,
        ensures
            final(self).content@ == old(self).content@ + ring_blocks(
                old(self).content@.len() as int,
                ring_node_counts(pv@),
            ),
            final(self).start_vertex@ == old(self).start_vertex@ + ring_offsets(
                old(self).content@.len() as int,
                ring_node_counts(pv@),
            ),
            old(self).well_formed() && rings_have_nodes(pv@) ==> final(self).well_formed(),
    {
        let ghost off0 = old(self).content@.len() as int;
        let ghost all = ring_node_counts(pv@);
        let ghost mut counts: Seq<int> = Seq::empty();
        proof {
            lemma_counts_nonneg(pv@);
            lemma_total_take(all, 0);
            assert(pv@.take(0) =~= Seq::<PolygonRings>::empty());
        }
        let mut p: usize = 0;
        while p < pv.len()
            invariant
                p <= pv@.len(),
                rings_nonempty(pv@),
                all == ring_node_counts(pv@),
                forall|k: int| 0 <= k < all.len() ==> all[k] >= 0,
                off0 == old(self).content@.len(),
                off0 + total(all) <= usize::MAX,
                counts == ring_node_counts(pv@.take(p as int)),
                forall|k: int| 0 <= k < counts.len() ==> counts[k] >= 0,
                self.content@ == old(self).content@ + ring_blocks(off0, counts),
                self.start_vertex@ == old(self).start_vertex@ + ring_offsets(off0, counts),
                self.content@.len() == off0 + total(counts),
                old(self).well_formed() && rings_have_nodes(pv@) ==> self.well_formed(),
            decreases pv@.len() - p,
        {
            let ghost base = counts;
            let ghost poly = polygon_ring_nodes(pv@[p as int]);
            proof {
                lemma_counts_prefix(pv@, p as int + 1);
                lemma_counts_take_bound(pv@, p as int + 1);
                assert(pv@.take(p as int + 1).drop_last() =~= pv@.take(p as int));
                assert(ring_node_counts(pv@.take(p as int + 1)) == base + poly);
                lemma_total_append(base, poly);
                lemma_total_take(poly, 1);
                assert(pv@[p as int].exterior >= 1);
                assert(poly.take(1) =~= seq![pv@[p as int].exterior - 1]);
                assert(poly.take(1).drop_last() =~= Seq::<int>::empty());
                assert(total(poly.take(1).drop_last()) == 0);
                assert(poly.take(1).last() == pv@[p as int].exterior - 1);
                assert(total(poly.take(1)) == pv@[p as int].exterior - 1);
                assert(total(base) + total(poly) <= total(all));
            }
            let ext = pv[p].exterior - 1;
            self.push_ring(ext);
            proof {
                lemma_ring_blocks_len(off0, base);
                let nc = base.push(ext as int);
                assert(nc.drop_last() =~= base);
                counts = nc;
            }
            let mut i: usize = 0;
            while i < pv[p].interiors.len()
                invariant
                    p < pv@.len(),
                    rings_nonempty(pv@),
                    i <= pv@[p as int].interiors@.len(),
                    poly == polygon_ring_nodes(pv@[p as int]),
                    forall|k: int| 0 <= k < poly.len() ==> poly[k] >= 0,
                    forall|k: int| 0 <= k < base.len() ==> base[k] >= 0,
                    counts == base + poly.take(i as int + 1),
                    off0 + total(base) + total(poly) <= usize::MAX,
                    off0 == old(self).content@.len(),
                    self.content@ == old(self).content@ + ring_blocks(off0, counts),
                    self.start_vertex@ == old(self).start_vertex@ + ring_offsets(off0, counts),
                    self.content@.len() == off0 + total(counts),
                    old(self).well_formed() && rings_have_nodes(pv@) ==> self.well_formed(),
                decreases pv@[p as int].interiors@.len() - i,
            {
                proof {
                    assert(pv@[p as int].interiors@[i as int] >= 1);
                    lemma_total_take(poly, i as int + 2);
                    lemma_total_append(base, poly.take(i as int + 1));
                    assert(poly.take(i as int + 2) =~= poly.take(i as int + 1).push(poly[i as int + 1]));
                    assert(poly.take(i as int + 2).drop_last() =~= poly.take(i as int + 1));
                }
                let len = pv[p].interiors[i] - 1;
                self.push_ring(len);
                proof {
                    let nc = counts.push(len as int);
                    assert(nc.drop_last() =~= counts);
                    assert(nc =~= base + poly.take(i as int + 2));
                    lemma_total_append(base, poly.take(i as int + 2));
                    counts = nc;
                }
                i += 1;
            }
            proof {
                assert(poly.take(poly.len() as int) =~= poly);
                assert(counts == ring_node_counts(pv@.take(p as int + 1)));
            }
            p += 1;
        }
        proof {
            assert(pv@.take(pv@.len() as int) =~= pv@);
        }
    }

    /// A traversal of the rings, starting before the first start node.
    pub fn iter(&self) -> (it: Iter<'_>)
        ensures
            it.queue() == *self,
            it.ring() == 0,
            it.position() == usize::MAX,
    {
        Iter { item: self, sv_idx: 0, idx: usize::MAX }
    }

    /// Follows right links from `s0` through removed nodes that have not been
    /// visited, marking them visited, and returns the node where it stops,
    /// the new visited set and the number of steps.
    #[verifier::rlimit(40)]
    fn follow_removed(&self, visit: &mut Vec<bool>, Ghost(vset): Ghost<Set<int>>, s0: usize) -> (res: (
        usize,
        Ghost<Set<int>>,
        Ghost<nat>,
    ))
        requires
            links_valid(self.content@),
            s0 < self.content@.len(),
            old(visit)@.len() == self.content@.len(),
            vset.finite(),
            forall|x: int| #[trigger] vset.contains(x) ==> 0 <= x < self.content@.len(),
            forall|x: int|
                0 <= x < self.content@.len() ==> (old(visit)@[x] <==> #[trigger] vset.contains(x)),
        ensures
            followed(self.content@, s0 as int, res.2@, res.0 as int, vset, res.1@),
            walk_distinct(self.content@, s0 as int, res.2@),
            res.0 < self.content@.len(),
            res.1@.finite(),
            forall|x: int| #[trigger] res.1@.contains(x) ==> 0 <= x < self.content@.len(),
            final(visit)@.len() == self.content@.len(),
            forall|x: int|
                0 <= x < self.content@.len() ==> (final(visit)@[x] <==> #[trigger] res.1@.contains(
                    x,
                )),
    {
        let ghost c = self.content@;
        let n = self.content.len();
        let ghost mut v1 = vset;
        let ghost mut q: nat = 0;
        let mut cur = s0;
        proof {
            lemma_int_range(0, n as int);
            lemma_len_subset(v1, set_int_range(0, n as int));
        }
        while self.content[cur].done && !visit[cur]
            invariant
                c == self.content@,
                n == c.len(),
                links_valid(c),
                0 <= s0 < n,
                cur == walk(c, s0 as int, q),
                0 <= cur < n,
                forall|j: nat|
                    j < q ==> !is_live(c, #[trigger] walk(c, s0 as int, j)) && !vset.contains(
                        walk(c, s0 as int, j),
                    ) && v1.contains(walk(c, s0 as int, j)),
                forall|x: int|
                    #[trigger] v1.contains(x) ==> vset.contains(x) || exists|j: nat|
                        j < q && #[trigger] walk(c, s0 as int, j) == x,
                vset.subset_of(v1),
                walk_distinct(c, s0 as int, q),
                v1.finite(),
                set_int_range(0, n as int).finite(),
                set_int_range(0, n as int).len() == n,
                v1.len() <= n,
                forall|x: int| #[trigger] v1.contains(x) ==> 0 <= x < n,
                visit@.len() == n,
                forall|x: int| 0 <= x < n ==> (visit@[x] <==> #[trigger] v1.contains(x)),
            decreases n - v1.len(),
        {
            visit.set(cur, true);
            proof {
                assert(!vset.contains(cur as int));
                v1 = v1.insert(cur as int);
                lemma_len_subset(v1, set_int_range(0, n as int));
                assert(c[cur as int] == c[cur as int]);
                assert forall|x: int| #[trigger] v1.contains(x) implies vset.contains(x) || exists|
                    j: nat,
                | j < q + 1 && #[trigger] walk(c, s0 as int, j) == x by {
                    if x == cur {
                        assert(walk(c, s0 as int, q) == x);
                    }
                }
                assert(walk(c, s0 as int, q + 1) == right_of(c, cur as int));
                assert forall|i: nat, j: nat| i < j < q + 1 implies #[trigger] walk(c, s0 as int, i)
                    != #[trigger] walk(c, s0 as int, j) by {
                    if j == q {
                        assert(v1.contains(walk(c, s0 as int, i)) || i == q);
                    }
                }
                q = q + 1;
            }
            cur = self.content[cur].right.get_index();
        }
        (cur, Ghost(v1), Ghost(q))
    }

    /// Marks every node of the ring through the live, unvisited node `start`
    /// as visited and returns the new visited set.
    #[verifier::rlimit(60)]
    fn mark_ring(&self, visit: &mut Vec<bool>, Ghost(v0): Ghost<Set<int>>, start: usize) -> (res:
        Ghost<Set<int>>)
        requires
            links_valid(self.content@),
            rings_linked(self.content@),
            start < self.content@.len(),
            is_live(self.content@, start as int),
            !v0.contains(start as int),
            ring_closed(self.content@, v0),
            old(visit)@.len() == self.content@.len(),
            v0.finite(),
            forall|x: int| #[trigger] v0.contains(x) ==> 0 <= x < self.content@.len(),
            forall|x: int|
                0 <= x < self.content@.len() ==> (old(visit)@[x] <==> #[trigger] v0.contains(x)),
        ensures
            ring_marked(self.content@, start as int, v0, res@),
            res@.finite(),
            forall|x: int| #[trigger] res@.contains(x) ==> 0 <= x < self.content@.len(),
            final(visit)@.len() == self.content@.len(),
            forall|x: int|
                0 <= x < self.content@.len() ==> (final(visit)@[x] <==> #[trigger] res@.contains(x)),
    {
        let ghost c = self.content@;
        let n = self.content.len();
        let ghost mut vset = v0;
        proof {
            lemma_int_range(0, n as int);
        }
        visit.set(start, true);
        proof {
            vset = vset.insert(start as int);
            lemma_len_subset(vset, set_int_range(0, n as int));
            assert(walk(c, start as int, 0) == start);
            assert(c[start as int] == c[start as int]);
        }
        let mut cur = self.content[start].right.get_index();
        let ghost mut k: nat = 1;
        proof {
            assert(walk(c, start as int, 1) == cur);
        }
        while cur != start
            invariant
                c == self.content@,
                n == c.len(),
                links_valid(c),
                rings_linked(c),
                0 <= start < n,
                is_live(c, start as int),
                !v0.contains(start as int),
                ring_closed(c, v0),
                k >= 1,
                cur == walk(c, start as int, k),
                forall|j: nat| 0 < j < k ==> #[trigger] walk(c, start as int, j) != start,
                forall|j: nat| j < k ==> vset.contains(#[trigger] walk(c, start as int, j)),
                forall|x: int|
                    #[trigger] vset.contains(x) ==> v0.contains(x) || exists|j: nat|
                        j < k && #[trigger] walk(c, start as int, j) == x,
                v0.subset_of(vset),
                visit@.len() == n,
                vset.finite(),
                set_int_range(0, n as int).finite(),
                set_int_range(0, n as int).len() == n,
                vset.len() <= n,
                forall|x: int| #[trigger] vset.contains(x) ==> 0 <= x < n,
                forall|x: int| 0 <= x < n ==> (visit@[x] <==> #[trigger] vset.contains(x)),
            decreases n - vset.len(),
        {
            proof {
                lemma_walk_live(c, start as int, k);
                if vset.contains(cur as int) {
                    if v0.contains(cur as int) {
                        lemma_back_in(c, v0, start as int, k);
                    } else {
                        let j = choose|j: nat| j < k && #[trigger] walk(c, start as int, j) == cur;
                        lemma_walk_return(c, start as int, j, k);
                        assert(walk(c, start as int, (k - j) as nat) == start);
                    }
                }
                assert(!vset.contains(cur as int));
            }
            visit.set(cur, true);
            proof {
                vset = vset.insert(cur as int);
                lemma_len_subset(vset, set_int_range(0, n as int));
                let cc = cur as int;
                assert(c[cc] == c[cc]);
                assert forall|x: int| #[trigger] vset.contains(x) implies v0.contains(x) || exists|
                    j: nat,
                | j < k + 1 && #[trigger] walk(c, start as int, j) == x by {
                    if x == cc {
                        assert(walk(c, start as int, k) == x);
                    }
                }
                assert(walk(c, start as int, k + 1) == right_of(c, cc));
            }
            cur = self.content[cur].right.get_index();
            proof {
                k = k + 1;
            }
        }
        proof {
            lemma_ring_marked(c, start as int, v0, vset, k);
        }
        Ghost(vset)
    }

    /// Normalises the start nodes. Each start node is replaced by the first
    /// live node reached from it going right through removed nodes; it is
    /// dropped when that node's ring already has a start node, when the ring
    /// has fewer than three nodes, or when the walk meets only removed nodes.
    /// Afterwards every ring of at least three nodes that some former start
    /// node led to has exactly one start node, and nothing else has one.
    pub fn cleanup(&mut self)
        requires
            old(self).well_formed(),
        ensures
            final(self).content@ == old(self).content@,
            final(self).well_formed(),
            final(self).starts_normalized(),
            starts_from(old(self).content@, old(self).start_vertex@, final(self).start_vertex@),
            starts_cover(old(self).content@, old(self).start_vertex@, final(self).start_vertex@),
            final(self).start_vertex@ == cleaned_starts(old(self).content@, old(self).start_vertex@),
            final(self).start_vertex@.len() <= old(self).start_vertex@.len(),
    {
        let ghost c = self.content@;
        let ghost orig = self.start_vertex@;
        let n = self.content.len();
        let mut sv_idx: usize = 0;
        let mut visit: Vec<bool> = vec![false; n];
        let ghost mut vset: Set<int> = Set::empty();
        proof {
            lemma_cleanup_start(c, orig);
        }
        while sv_idx < self.start_vertex.len()
            invariant
                self.content@ == c,
                n == c.len(),
                links_valid(c),
                rings_linked(c),
                self.starts_valid(),
                visit@.len() == n,
                vset.finite(),
                forall|x: int| #[trigger] vset.contains(x) ==> 0 <= x < n,
                forall|x: int| 0 <= x < n ==> (visit@[x] <==> #[trigger] vset.contains(x)),
                ring_closed(c, vset),
                sv_idx <= self.start_vertex@.len(),
                cleanup_progress(c, orig, self.start_vertex@, sv_idx as int, vset),
                cleanup_run(c, self.start_vertex@, sv_idx as int, vset) == cleaned_starts(c, orig),
                self.start_vertex@.len() <= orig.len(),
            decreases self.start_vertex@.len() - sv_idx,
        {
            let s0 = self.start_vertex[sv_idx];
            let ghost vbefore = vset;
            let ghost before = self.start_vertex@;
            let (cur, Ghost(v1), Ghost(q)) = self.follow_removed(&mut visit, Ghost(vset), s0);
            proof {
                vset = v1;
                lemma_followed_closed(c, s0 as int, q, cur as int, vbefore, v1);
            }
            if visit[cur] || self.content[cur].left.get_index() == self.content[cur].right.get_index() {
                proof {
                    assert(c[cur as int] == c[cur as int]);
                    lemma_cleanup_drop(c, orig, before, sv_idx as int, vbefore, v1, q, cur as int);
                    lemma_run_drop(c, before, sv_idx as int, vbefore, v1, q, cur as int);
                }
                self.start_vertex.swap_remove(sv_idx);
                proof {
                    assert forall|k: int|
                        0 <= k < self.start_vertex@.len() implies #[trigger] self.start_vertex@[k]
                        < self.content@.len() by {
                        if k == sv_idx {
                            assert(self.start_vertex@[k] == before[before.len() - 1]);
                        } else {
                            assert(self.start_vertex@[k] == before[k]);
                        }
                    }
                }
                continue;
            }
            let start = cur;
            self.start_vertex.set(sv_idx, start);
            let Ghost(v3) = self.mark_ring(&mut visit, Ghost(vset), start);
            proof {
                assert(c[start as int] == c[start as int]);
                lemma_cleanup_keep(c, orig, before, sv_idx as int, vbefore, v1, v3, q, start as int);
                lemma_run_keep(c, before, sv_idx as int, vbefore, v1, v3, q, start as int);
                vset = v3;
            }
            sv_idx += 1;
        }
        proof {
            lemma_cleanup_finish(c, orig, self.start_vertex@, vset);
            assert(cleanup_run(c, self.start_vertex@, sv_idx as int, vset) == self.start_vertex@);
        }
    }
}

/// The vertex index held by a `RealIndex`.
pub open spec fn vertex_of(i: IndexType) -> int {
    match i {
        IndexType::RealIndex(r) => r as int,
        IndexType::PointerIndex(_) => -1,
    }
}

/// A traversal of the rings of a `VertexQueue`: each ring is walked to the
/// right from its start node until the start node comes round again.
pub struct Iter<'a> {
    item: &'a VertexQueue,
    sv_idx: usize,
    idx: usize,
}

impl<'a> Iter<'a> {
    /// The queue being traversed.
    pub closed spec fn queue(&self) -> VertexQueue {
        *self.item
    }

    /// The position in `start_vertex` of the ring being walked.
    pub closed spec fn ring(&self) -> usize {
        self.sv_idx
    }

    /// The next node to visit, or `usize::MAX` before a ring is entered.
    pub closed spec fn position(&self) -> usize {
        self.idx
    }

    /// The traversal state is consistent with a queue whose nodes all name
    /// vertices and point inside it.
    pub open spec fn valid(&self) -> bool {
        &&& links_valid(self.queue().content@)
        &&& self.queue().starts_valid()
        &&& self.position() == usize::MAX || (self.position() < self.queue().content@.len()
            && self.ring() < self.queue().start_vertex@.len())
    }

    /// The next `(ring, position, vertex)` triple, or `None` once every ring
    /// has been walked.
    pub fn next(&mut self) -> (res: Option<(usize, IndexType, usize)>)
        requires
            old(self).valid(),
        ensures
            final(self).valid(),
            final(self).queue() == old(self).queue(),
            ({
                let q = old(self).queue();
                let sv = q.start_vertex@;
                let c = q.content@;
                if old(self).position() == usize::MAX && old(self).ring() >= sv.len() {
                    &&& res is None
                    &&& final(self).ring() == old(self).ring()
                    &&& final(self).position() == old(self).position()
                } else {
                    let i = if old(self).position() == usize::MAX {
                        sv[old(self).ring() as int] as int
                    } else {
                        old(self).position() as int
                    };
                    let nx = right_of(c, i);
                    &&& res == Some(
                        (old(self).ring(), IndexType::PointerIndex(i as usize), vertex_of(c[i].index) as usize),
                    )
                    &&& if sv[old(self).ring() as int] == nx {
                        &&& final(self).ring() == old(self).ring() + 1
                        &&& final(self).position() == usize::MAX
                    } else {
                        &&& final(self).ring() == old(self).ring()
                        &&& final(self).position() == nx
                    }
                }
            }),
    {
        if self.idx == usize::MAX {
            if self.sv_idx >= self.item.start_vertex.len() {
                return None;
            }
            self.idx = self.item.start_vertex[self.sv_idx];
        }
        let ghost c = self.item.content@;
        proof {
            assert(self.sv_idx < self.item.start_vertex@.len());
            assert(c[self.idx as int] == c[self.idx as int]);
        }
        let ret = self.item.content[self.idx].index.get_real_index();
        let res = (self.sv_idx, IndexType::PointerIndex(self.idx), ret);
        self.idx = self.item.content[self.idx].right.get_index();
        let ring_count = self.item.start_vertex.len();
        if self.item.start_vertex[self.sv_idx] == self.idx {
            assert(self.sv_idx < ring_count);
            self.sv_idx += 1;
            self.idx = usize::MAX;
        }
        Some(res)
    }
}

/// The text of an index: `Pointer index: <n>` or `Real index: <n>`.
pub open spec fn index_text(i: IndexType) -> Seq<char> {
    match i {
        IndexType::PointerIndex(x) => seq!['P', 'o', 'i', 'n', 't', 'e', 'r', ' ', 'i', 'n', 'd', 'e', 'x', ':', ' ']
            + decimal(x as nat),
        IndexType::RealIndex(x) => seq!['R', 'e', 'a', 'l', ' ', 'i', 'n', 'd', 'e', 'x', ':', ' ']
            + decimal(x as nat),
    }
}

impl IndexType {
    /// The index as text, saying which kind it is.
    pub fn to_text(&self) -> (res: String)
        ensures
            res@ == index_text(*self),
    {
        match self {
            IndexType::PointerIndex(x) => {
                let mut s = String::from_str("Pointer index: ");
                push_decimal(&mut s, *x as u64);
                proof {
                    reveal_strlit("Pointer index: ");
                    assert(s@ =~= index_text(*self));
                }
                s
            },
            IndexType::RealIndex(x) => {
                let mut s = String::from_str("Real index: ");
                push_decimal(&mut s, *x as u64);
                proof {
                    reveal_strlit("Real index: ");
                    assert(s@ =~= index_text(*self));
                }
                s
            },
        }
    }
}

/// An item of the iteration: ring position, node, vertex index.
pub type Item = (int, int, int);

/// The items of the ring of the start node at position `r`: each node from
/// the start node on, until it comes round again.
pub open spec fn ring_items(c: Seq<Node>, sv: Seq<usize>, r: int) -> Seq<Item> {
    Seq::new(
        ring_len(c, sv[r] as int),
        |j: int|
            (r, walk(c, sv[r] as int, j as nat), vertex_of(c[walk(c, sv[r] as int, j as nat)].index)),
    )
}

/// The items of the rings of the first `m` start nodes.
pub open spec fn queue_items(c: Seq<Node>, sv: Seq<usize>, m: int) -> Seq<Item>
    decreases m,
{
    if m <= 0 {
        Seq::empty()
    } else {
        queue_items(c, sv, m - 1) + ring_items(c, sv, m - 1)
    }
}

/// The text of one item: `(<ring>, <node>, <vertex>), `.
pub open spec fn item_text(it: Item) -> Seq<char> {
    seq!['('] + decimal(it.0 as nat) + seq![',', ' '] + decimal(it.1 as nat) + seq![',', ' ']
        + decimal(it.2 as nat) + seq![')', ',', ' ']
}

/// The text of a sequence of items.
pub open spec fn items_text(items: Seq<Item>) -> Seq<char>
    decreases items.len(),
{
    if items.len() == 0 {
        Seq::empty()
    } else {
        items_text(items.drop_last()) + item_text(items.last())
    }
}

/// The text of a queue: its items in brackets.
pub open spec fn queue_text(c: Seq<Node>, sv: Seq<usize>) -> Seq<char> {
    seq!['['] + items_text(queue_items(c, sv, sv.len() as int)) + seq![']']
}

/// Every start node is live.
pub open spec fn starts_live(q: VertexQueue) -> bool {
    forall|k: int| 0 <= k < q.start_vertex@.len() ==> is_live(q.content@, #[trigger] q.start_vertex@[k] as int)
}

/// Appends the text of one item.
fn push_item_text(out: &mut String, e: usize, ee: usize, eee: usize)
    ensures
        final(out)@ == old(out)@ + item_text((e as int, ee as int, eee as int)),
{
    out.append("(");
    push_decimal(out, e as u64);
    out.append(", ");
    push_decimal(out, ee as u64);
    out.append(", ");
    push_decimal(out, eee as u64);
    out.append("), ");
    proof {
        reveal_strlit("(");
        reveal_strlit(", ");
        reveal_strlit("), ");
        assert(out@ =~= old(out)@ + item_text((e as int, ee as int, eee as int)));
    }
}

/// One more item of the ring at position `r`, the `j`-th, extends the text
/// by that item; after it the ring is done exactly when its start comes
/// round again.
proof fn lemma_items_step(c: Seq<Node>, sv: Seq<usize>, r: int, j: nat)
    requires
        links_valid(c),
        rings_linked(c),
        0 <= r < sv.len(),
        0 <= sv[r] < c.len(),
        is_live(c, sv[r] as int),
        j < ring_len(c, sv[r] as int),
    ensures
        ({
            let s = sv[r] as int;
            let its = queue_items(c, sv, r) + ring_items(c, sv, r).take(j as int);
            let its1 = queue_items(c, sv, r) + ring_items(c, sv, r).take((j + 1) as int);
            &&& items_text(its1) == items_text(its) + item_text(
                (r, walk(c, s, j), vertex_of(c[walk(c, s, j)].index)),
            )
            &&& walk(c, s, j + 1) == s ==> its1 == queue_items(c, sv, r + 1) + ring_items(
                c,
                sv,
                r + 1,
            ).take(0)
            &&& walk(c, s, j + 1) != s ==> j + 1 < ring_len(c, s)
            &&& walk(c, s, j + 1) == right_of(c, walk(c, s, j))
        }),
{
    let s = sv[r] as int;
    lemma_ring_returns(c, s);
    let its = queue_items(c, sv, r) + ring_items(c, sv, r).take(j as int);
    let its1 = queue_items(c, sv, r) + ring_items(c, sv, r).take((j + 1) as int);
    assert(its1.drop_last() =~= its);
    assert(its1.last() == ring_items(c, sv, r)[j as int]);
    if walk(c, s, j + 1) == s {
        assert(j + 1 == ring_len(c, s));
        assert(ring_items(c, sv, r).take((j + 1) as int) =~= ring_items(c, sv, r));
        assert(queue_items(c, sv, r + 1) + ring_items(c, sv, r + 1).take(0) =~= its1);
    }
}

impl VertexQueue {
    /// The queue as text: `[(ring, node, vertex), ...]` for each node of each
    /// ring, walked from the ring's start node.
    #[verifier::rlimit(60)]
    pub fn to_text(&self) -> (res: String)
        requires
            self.well_formed(),
            starts_live(*self),
        ensures
            res@ == queue_text(self.content@, self.start_vertex@),
    {
        let ghost c = self.content@;
        let ghost sv = self.start_vertex@;
        let mut out = String::from_str("[");
        proof {
            reveal_strlit("[");
            assert(ring_items(c, sv, 0).take(0) =~= Seq::<Item>::empty());
            assert(out@ =~= seq!['['] + items_text(queue_items(c, sv, 0) + ring_items(c, sv, 0).take(0)));
        }
        let mut it = self.iter();
        let ghost mut j: nat = 0;
        loop
            invariant
                it.valid(),
                it.queue() == *self,
                c == self.content@,
                sv == self.start_vertex@,
                self.well_formed(),
                starts_live(*self),
                it.ring() <= sv.len(),
                it.ring() == sv.len() ==> it.position() == usize::MAX,
                it.position() == usize::MAX ==> j == 0,
                it.position() != usize::MAX ==> 0 < j < ring_len(c, sv[it.ring() as int] as int)
                    && it.position() == walk(c, sv[it.ring() as int] as int, j),
                out@ == seq!['['] + items_text(
                    queue_items(c, sv, it.ring() as int) + ring_items(c, sv, it.ring() as int).take(j as int),
                ),
            ensures
                out@ == seq!['['] + items_text(queue_items(c, sv, sv.len() as int)),
            decreases sv.len() - it.ring(), ring_len(c, sv[it.ring() as int] as int) - j,
        {
            let ghost r = it.ring() as int;
            let ghost before = out@;
            let ghost s = sv[r] as int;
            proof {
                if r < sv.len() {
                    lemma_ring_returns(c, s);
                }
            }
            match it.next() {
                None => {
                    proof {
                        assert(ring_items(c, sv, r).take(0) =~= Seq::<Item>::empty());
                        assert(queue_items(c, sv, r) + ring_items(c, sv, r).take(0) =~= queue_items(c, sv, r));
                    }
                    break;
                },
                Some((e, ee, eee)) => {
                    proof {
                        lemma_items_step(c, sv, r, j);
                        lemma_walk_live(c, s, j);
                        lemma_walk_live(c, s, j + 1);
                        assert(c.len() == self.content.len());
                    }
                    push_item_text(&mut out, e, ee.get_index(), eee);
                    proof {
                        if it.ring() == r + 1 {
                            j = 0;
                        } else {
                            j = j + 1;
                        }
                    }
                },
            }
        }
        out.append("]");
        proof {
            reveal_strlit("]");
            assert(out@ =~= queue_text(c, sv));
        }
        out
    }
}

} // verus!

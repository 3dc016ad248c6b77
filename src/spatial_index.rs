//! A KD-tree over integer positions, answering k-nearest-neighbour queries
//! under the squared Euclidean distance. Ties at equal distance go to the
//! earlier-inserted point.
use vstd::prelude::*;
use crate::point::{Position, squared_distance, squared_distance_spec};

verus! {

struct KdNode {
    pos: Position,
    id: usize,
    left: Option<Box<KdNode>>,
    right: Option<Box<KdNode>>,
}

/// The insertion indices held in a subtree.
spec fn ids(n: Option<Box<KdNode>>) -> Set<int>
    decreases n,
{
    match n {
        None => Set::empty(),
        Some(b) => ids(b.left).union(ids(b.right)).insert(b.id as int),
    }
}

spec fn next_axis(axis: int) -> int {
    if axis == 2 { 0 } else { axis + 1 }
}

/// A subtree split on `axis` at its root, cycling through the axes below it,
/// whose nodes hold the positions `pos` gives for their indices.
spec fn wf_node(n: Option<Box<KdNode>>, axis: int, pos: Seq<Position>) -> bool
    decreases n,
{
    match n {
        None => true,
        Some(b) => {
            &&& 0 <= axis < 3
            &&& (b.id as int) < pos.len()
            &&& pos[b.id as int] == b.pos
            &&& forall|i: int| #[trigger] ids(b.left).contains(i)
                ==> pos[i].coord_spec(axis) < b.pos.coord_spec(axis)
            &&& forall|i: int| #[trigger] ids(b.right).contains(i)
                ==> pos[i].coord_spec(axis) >= b.pos.coord_spec(axis)
            &&& ids(b.left).disjoint(ids(b.right))
            &&& !ids(b.left).contains(b.id as int)
            &&& !ids(b.right).contains(b.id as int)
            &&& wf_node(b.left, next_axis(axis), pos)
            &&& wf_node(b.right, next_axis(axis), pos)
        },
    }
}

proof fn lemma_ids_in_range(n: Option<Box<KdNode>>, axis: int, pos: Seq<Position>)
    requires
        wf_node(n, axis, pos),
    ensures
        forall|i: int| #[trigger] ids(n).contains(i) ==> 0 <= i < pos.len(),
    decreases n,
{
    if let Some(b) = n {
        lemma_ids_in_range(b.left, next_axis(axis), pos);
        lemma_ids_in_range(b.right, next_axis(axis), pos);
    }
}

proof fn lemma_wf_extend(n: Option<Box<KdNode>>, axis: int, pos: Seq<Position>, p: Position)
    requires
        wf_node(n, axis, pos),
    ensures
        wf_node(n, axis, pos.push(p)),
    decreases n,
{
    if let Some(b) = n {
        lemma_ids_in_range(b.left, next_axis(axis), pos);
        lemma_ids_in_range(b.right, next_axis(axis), pos);
        lemma_wf_extend(b.left, next_axis(axis), pos, p);
        lemma_wf_extend(b.right, next_axis(axis), pos, p);
        assert forall|i: int| #[trigger] ids(b.left).contains(i) implies pos.push(p)[i] == pos[i] by {}
        assert forall|i: int| #[trigger] ids(b.right).contains(i) implies pos.push(p)[i] == pos[i] by {}
    }
}

fn insert_node(node: &mut Option<Box<KdNode>>, axis: usize, p: Position, id: usize, Ghost(pos): Ghost<Seq<Position>>)
    requires
        wf_node(*old(node), axis as int, pos),
        axis < 3,
        (id as int) < pos.len(),
        pos[id as int] == p,
        !ids(*old(node)).contains(id as int),
    ensures
        wf_node(*final(node), axis as int, pos),
        ids(*final(node)) == ids(*old(node)).insert(id as int),
    decreases *old(node),
{
    match node.take() {
        None => {
            *node = Some(Box::new(KdNode { pos: p, id: id, left: None, right: None }));
            assert(ids(*node) =~= Set::<int>::empty().insert(id as int));
            assert(ids(None::<Box<KdNode>>) =~= Set::<int>::empty());
            assert(wf_node(None::<Box<KdNode>>, next_axis(axis as int), pos));
        },
        Some(mut b) => {
            let next: usize = if axis == 2 { 0 } else { axis + 1 };
            let ghost old_b = *b;
            if p.coord(axis) < b.pos.coord(axis) {
                insert_node(&mut b.left, next, p, id, Ghost(pos));
                assert(ids(b.left) == ids(old_b.left).insert(id as int));
                assert(b.right == old_b.right);
            } else {
                insert_node(&mut b.right, next, p, id, Ghost(pos));
                assert(ids(b.right) == ids(old_b.right).insert(id as int));
                assert(b.left == old_b.left);
            }
            assert(next as int == next_axis(axis as int));
            *node = Some(b);
            assert(ids(*node) =~= ids(*old(node)).insert(id as int));
        },
    }
}

/// Errors of a nearest-neighbour query.
#[derive(Clone, Copy, Debug, PartialEq, Eq, Structural)]
pub enum KdError {
    /// The index holds no point.
    EmptyTree,
}

/// One answer of a query: the squared distance to the query and the insertion
/// index of the point found.
#[derive(Clone, Copy, Debug, PartialEq, Eq, Structural)]
pub struct Neighbor {
    pub distance: u128,
    pub index: usize,
}

/// The order of query answers: by distance, then by insertion index.
pub open spec fn neighbor_lt(a: Neighbor, b: Neighbor) -> bool {
    a.distance < b.distance || (a.distance == b.distance && a.index < b.index)
}

/// Whether the answer for the point at index `i` is ordered after `a`.
pub open spec fn before_index(a: Neighbor, q: Position, pos: Seq<Position>, i: int) -> bool {
    let d = squared_distance_spec(q, pos[i]);
    a.distance < d || (a.distance == d && a.index < i)
}

/// Whether some answer of `b` names index `i`.
pub open spec fn holds_index(b: Seq<Neighbor>, i: int) -> bool {
    exists|j: int| 0 <= j < b.len() && b[j].index == i
}

/// `b` lists, in order, the `k` best answers for the query `q` among the
/// indices of `s`, or all of them where `s` has fewer.
pub open spec fn is_best_of(b: Seq<Neighbor>, s: Set<int>, k: int, q: Position, pos: Seq<Position>) -> bool {
    &&& b.len() <= k
    &&& forall|j: int|
        0 <= j < b.len() ==> {
            &&& s.contains(#[trigger] b[j].index as int)
            &&& (b[j].index as int) < pos.len()
            &&& b[j].distance == squared_distance_spec(q, pos[b[j].index as int])
        }
    &&& forall|j1: int, j2: int| 0 <= j1 < j2 < b.len() ==> neighbor_lt(#[trigger] b[j1], #[trigger] b[j2])
    &&& forall|i: int|
        #[trigger] s.contains(i) && !holds_index(b, i) ==> b.len() == k && before_index(
            b[b.len() - 1],
            q,
            pos,
            i,
        )
}

/// `r` is the answer to a query for the `k` nearest of all points at `pos`.
pub open spec fn is_k_nearest(r: Seq<Neighbor>, k: int, q: Position, pos: Seq<Position>) -> bool {
    is_best_of(r, Set::new(|i: int| 0 <= i < pos.len()), k, q, pos)
}

proof fn lemma_offer(
    b: Seq<Neighbor>,
    b2: Seq<Neighbor>,
    c: Neighbor,
    p: int,
    s: Set<int>,
    k: int,
    q: Position,
    pos: Seq<Position>,
)
    requires
        is_best_of(b, s, k, q, pos),
        k >= 1,
        forall|i: int| #[trigger] s.contains(i) ==> 0 <= i < pos.len(),
        !s.contains(c.index as int),
        (c.index as int) < pos.len(),
        c.distance == squared_distance_spec(q, pos[c.index as int]),
        0 <= p <= b.len(),
        p < k,
        forall|j: int| 0 <= j < p ==> neighbor_lt(#[trigger] b[j], c),
        p < b.len() ==> !neighbor_lt(b[p], c),
        b2.len() == if b.len() < k { b.len() + 1 } else { k as nat },
        forall|j: int|
            0 <= j < b2.len() ==> #[trigger] b2[j] == if j < p {
                b[j]
            } else if j == p {
                c
            } else {
                b[j - 1]
            },
    ensures
        is_best_of(b2, s.insert(c.index as int), k, q, pos),
{
    let s2 = s.insert(c.index as int);
    assert forall|j: int| p <= j < b.len() implies neighbor_lt(c, #[trigger] b[j]) by {
        assert(b[p].index != c.index);
        if j > p {
            assert(neighbor_lt(b[p], b[j]));
        }
    }
    assert forall|j1: int, j2: int| 0 <= j1 < j2 < b2.len() implies neighbor_lt(
        #[trigger] b2[j1],
        #[trigger] b2[j2],
    ) by {
        if j2 < p {
            assert(neighbor_lt(b[j1], b[j2]));
        } else if j2 == p {
        } else if j1 == p {
            assert(neighbor_lt(c, b[j2 - 1]));
        } else if j1 < p {
            assert(neighbor_lt(b[j1], c));
            assert(neighbor_lt(c, b[j2 - 1]));
        } else {
            assert(neighbor_lt(b[j1 - 1], b[j2 - 1]));
        }
    }
    assert forall|j: int| 0 <= j < b2.len() implies {
        &&& s2.contains(#[trigger] b2[j].index as int)
        &&& (b2[j].index as int) < pos.len()
        &&& b2[j].distance == squared_distance_spec(q, pos[b2[j].index as int])
    } by {
        if j < p {
            assert(s.contains(b[j].index as int));
        } else if j > p {
            assert(s.contains(b[j - 1].index as int));
        }
    }
    assert forall|i: int| #[trigger] s2.contains(i) && !holds_index(b2, i) implies b2.len() == k
        && before_index(b2[b2.len() - 1], q, pos, i) by {
        if i == c.index as int {
            assert(b2[p].index == c.index);
        } else if holds_index(b, i) {
            let j = choose|j: int| 0 <= j < b.len() && b[j].index == i;
            if j < p {
                assert(b2[j].index == i);
            } else if j + 1 < b2.len() {
                assert(b2[j + 1].index == i);
            } else {
                // the answer for i was the last of b and was dropped
                assert(b2.len() == k);
                let l = b2.len() - 1;
                if l == p {
                    assert(neighbor_lt(c, b[j]));
                } else {
                    assert(neighbor_lt(b[l - 1], b[j]));
                }
            }
        } else {
            assert(b.len() == k);
            assert(before_index(b[b.len() - 1], q, pos, i));
            let l = b2.len() - 1;
            if l == p {
                assert(neighbor_lt(c, b[b.len() - 1]));
            } else {
                assert(l - 1 < b.len() - 1 ==> neighbor_lt(b[l - 1], b[b.len() - 1]));
            }
        }
    }
}

fn neighbor_less(a: &Neighbor, b: &Neighbor) -> (r: bool)
    ensures
        r == neighbor_lt(*a, *b),
{
    a.distance < b.distance || (a.distance == b.distance && a.index < b.index)
}

/// Puts candidate `c` in its place among the best answers, keeping at most `k`.
fn offer(
    best: &mut Vec<Neighbor>,
    k: usize,
    c: Neighbor,
    Ghost(s): Ghost<Set<int>>,
    Ghost(q): Ghost<Position>,
    Ghost(pos): Ghost<Seq<Position>>,
)
    requires
        is_best_of(old(best)@, s, k as int, q, pos),
        k >= 1,
        forall|i: int| #[trigger] s.contains(i) ==> 0 <= i < pos.len(),
        !s.contains(c.index as int),
        (c.index as int) < pos.len(),
        c.distance == squared_distance_spec(q, pos[c.index as int]),
    ensures
        is_best_of(final(best)@, s.insert(c.index as int), k as int, q, pos),
{
    let ghost b = best@;
    let mut p: usize = 0;
    while p < best.len() && neighbor_less(&best[p], &c)
        invariant
            p <= best.len(),
            best@ == b,
            forall|j: int| 0 <= j < p ==> neighbor_lt(#[trigger] b[j], c),
        decreases best.len() - p,
    {
        p = p + 1;
    }
    if p < k {
        best.insert(p, c);
        proof {
            b.insert_ensures(p as int, c);
        }
        if best.len() > k {
            best.pop();
        }
        proof {
            lemma_offer(b, best@, c, p as int, s, k as int, q, pos);
        }
    } else {
        assert forall|i: int| #[trigger] s.insert(c.index as int).contains(i) && !holds_index(b, i)
            implies b.len() == k && before_index(b[b.len() - 1], q, pos, i) by {
            if i == c.index as int {
                assert(neighbor_lt(b[b.len() - 1], c));
            }
        }
    }
}

proof fn lemma_far_side(q: int, p: int, split: int)
    requires
        (q < split && p >= split) || (q >= split && p < split),
    ensures
        (q - split) * (q - split) <= (q - p) * (q - p),
{
    assert((q - split) * (q - split) <= (q - p) * (q - p)) by (nonlinear_arith)
        requires
            (q < split && p >= split) || (q >= split && p < split),
    ;
}

proof fn lemma_axis_bound(a: Position, b: Position, axis: int)
    requires
        0 <= axis < 3,
    ensures
        (a.coord_spec(axis) - b.coord_spec(axis)) * (a.coord_spec(axis) - b.coord_spec(axis))
            <= squared_distance_spec(a, b),
{
    let dx = a.x - b.x;
    let dy = a.y - b.y;
    let dz = a.z - b.z;
    assert(dx * dx >= 0 && dy * dy >= 0 && dz * dz >= 0) by (nonlinear_arith);
}

/// The squared distance from coordinate `a` to coordinate `b`.
fn axis_gap(a: i32, b: i32) -> (r: u128)
    ensures
        r as int == (a - b) * (a - b),
{
    let d: i64 = a as i64 - b as i64;
    let m: u64 = if d < 0 { (-d) as u64 } else { d as u64 };
    assert((m as int) * (m as int) == (d as int) * (d as int)) by (nonlinear_arith)
        requires
            m as int == d as int || m as int == -(d as int),
    ;
    assert((m as int) * (m as int) < 0x1_0000_0000_0000_0000) by (nonlinear_arith)
        requires
            0 <= m < 0x1_0000_0000,
    ;
    (m as u128) * (m as u128)
}

/// Adds the points of a subtree to the best answers, skipping a part of it
/// only where every point there is further than the current `k`-th answer.
fn search(
    node: &Option<Box<KdNode>>,
    axis: usize,
    q: &Position,
    k: usize,
    best: &mut Vec<Neighbor>,
    Ghost(s): Ghost<Set<int>>,
    Ghost(pos): Ghost<Seq<Position>>,
)
    requires
        wf_node(*node, axis as int, pos),
        is_best_of(old(best)@, s, k as int, *q, pos),
        k >= 1,
        forall|i: int| #[trigger] s.contains(i) ==> 0 <= i < pos.len(),
        s.disjoint(ids(*node)),
    ensures
        is_best_of(final(best)@, s.union(ids(*node)), k as int, *q, pos),
    decreases node,
{
    proof {
        lemma_ids_in_range(*node, axis as int, pos);
    }
    match node {
        None => {
            assert(s.union(ids(*node)) =~= s);
        },
        Some(b) => {
            let d = squared_distance(q, &b.pos);
            offer(best, k, Neighbor { distance: d, index: b.id }, Ghost(s), Ghost(*q), Ghost(pos));
            let ghost s1 = s.insert(b.id as int);
            let next: usize = if axis == 2 { 0 } else { axis + 1 };
            let qc = q.coord(axis);
            let sc = b.pos.coord(axis);
            let go_left = qc < sc;
            let (near, far) = if go_left { (&b.left, &b.right) } else { (&b.right, &b.left) };
            proof {
                lemma_ids_in_range(*near, next as int, pos);
                lemma_ids_in_range(*far, next as int, pos);
            }
            search(near, next, q, k, best, Ghost(s1), Ghost(pos));
            let ghost s2 = s1.union(ids(*near));
            let gap = axis_gap(qc, sc);
            let n = best.len();
            if n == k && gap > best[n - 1].distance {
                let ghost bb = best@;
                assert forall|i: int| #[trigger] s2.union(ids(*far)).contains(i) && !holds_index(bb, i)
                    implies bb.len() == k && before_index(bb[bb.len() - 1], *q, pos, i) by {
                    if ids(*far).contains(i) && !s2.contains(i) {
                        let pc = pos[i].coord_spec(axis as int);
                        lemma_far_side(qc as int, pc, sc as int);
                        lemma_axis_bound(*q, pos[i], axis as int);
                    }
                }
                assert(s.union(ids(*node)) =~= s2.union(ids(*far)));
            } else {
                search(far, next, q, k, best, Ghost(s2), Ghost(pos));
                assert(s.union(ids(*node)) =~= s2.union(ids(*far)));
            }
        },
    }
}

/// A KD-tree over positions, each inserted with a payload.
pub struct KdTree<T> {
    root: Option<Box<KdNode>>,
    positions: Vec<Position>,
    payloads: Vec<T>,
}

impl<T> KdTree<T> {
    /// The positions inserted, in insertion order.
    pub closed spec fn positions_spec(&self) -> Seq<Position> {
        self.positions@
    }

    /// The payloads inserted, in insertion order.
    pub closed spec fn payloads_spec(&self) -> Seq<T> {
        self.payloads@
    }

    pub closed spec fn wf(&self) -> bool {
        &&& wf_node(self.root, 0, self.positions@)
        &&& ids(self.root) == Set::new(|i: int| 0 <= i < self.positions@.len())
        &&& self.positions@.len() == self.payloads@.len()
    }

    /// An empty index.
    pub fn new() -> (r: Self)
        ensures
            r.wf(),
            r.positions_spec() == Seq::<Position>::empty(),
            r.payloads_spec() == Seq::<T>::empty(),
    {
        let r = KdTree { root: None, positions: Vec::new(), payloads: Vec::new() };
        assert(ids(r.root) =~= Set::new(|i: int| 0 <= i < r.positions@.len()));
        r
    }

    /// The number of points inserted.
    pub fn len(&self) -> (r: usize)
        requires
            self.wf(),
        ensures
            r == self.positions_spec().len(),
    {
        self.positions.len()
    }

    /// The payload inserted at index `i`.
    pub fn payload(&self, i: usize) -> (r: &T)
        requires
            self.wf(),
            (i as int) < self.payloads_spec().len(),
        ensures
            *r == self.payloads_spec()[i as int],
    {
        &self.payloads[i]
    }

    /// Adds a point with its payload. Equal positions may be inserted more than once.
    pub fn insert(&mut self, position: Position, payload: T)
        requires
            old(self).wf(),
            old(self).positions_spec().len() < usize::MAX,
        ensures
            final(self).wf(),
            final(self).positions_spec() == old(self).positions_spec().push(position),
            final(self).payloads_spec() == old(self).payloads_spec().push(payload),
    {
        let id = self.positions.len();
        proof {
            lemma_wf_extend(self.root, 0, self.positions@, position);
        }
        self.positions.push(position);
        self.payloads.push(payload);
        insert_node(&mut self.root, 0, position, id, Ghost(self.positions@));
        assert(ids(self.root) =~= Set::new(|i: int| 0 <= i < self.positions@.len()));
    }
}

impl<T> KdTree<T> {
    /// The `k` points nearest to `q`, nearest first, ties going to the
    /// earlier-inserted point; all points where fewer than `k` were inserted.
    pub fn nearest(&self, q: &Position, k: usize) -> (r: Result<Vec<Neighbor>, KdError>)
        requires
            self.wf(),
            k >= 1,
        ensures
            r is Err <==> self.positions_spec().len() == 0,
            r is Err ==> r->Err_0 == KdError::EmptyTree,
            r is Ok ==> is_k_nearest(r->Ok_0@, k as int, *q, self.positions_spec()),
    {
        if self.positions.len() == 0 {
            return Err(KdError::EmptyTree);
        }
        let mut best: Vec<Neighbor> = Vec::new();
        let ghost all = Set::new(|i: int| 0 <= i < self.positions@.len());
        proof {
            assert(ids(self.root) == all);
            lemma_ids_in_range(self.root, 0, self.positions@);
        }
        search(&self.root, 0, q, k, &mut best, Ghost(Set::empty()), Ghost(self.positions@));
        assert(Set::<int>::empty().union(ids(self.root)) =~= all);
        Ok(best)
    }
}

pub(crate) proof fn lemma_zero_distance(a: Position, b: Position)
    requires
        squared_distance_spec(a, b) <= 0,
    ensures
        a == b,
{
    let dx = a.x - b.x;
    let dy = a.y - b.y;
    let dz = a.z - b.z;
    assert(dx == 0 && dy == 0 && dz == 0) by (nonlinear_arith)
        requires
            dx * dx + dy * dy + dz * dz <= 0,
    ;
}

/// Whether the point at `a` is nearer to `q` than the point at `b`, or as near
/// and inserted earlier.
pub open spec fn nearer(q: Position, pos: Seq<Position>, a: int, b: int) -> bool {
    let da = squared_distance_spec(q, pos[a]);
    let db = squared_distance_spec(q, pos[b]);
    da < db || (da == db && a < b)
}

/// Whether `j` is the index of the nearest point to `q`, ties going to the
/// earlier-inserted point.
pub open spec fn is_nearest_index(pos: Seq<Position>, q: Position, j: int) -> bool {
    &&& 0 <= j < pos.len()
    &&& forall|i: int| 0 <= i < pos.len() && i != j ==> #[trigger] nearer(q, pos, j, i)
}

/// A query for one neighbour over a non-empty set of points answers with the
/// nearest point: its squared distance to the query is the least over the set.
pub proof fn lemma_nearest_is_minimum(r: Seq<Neighbor>, q: Position, pos: Seq<Position>)
    requires
        is_k_nearest(r, 1, q, pos),
        pos.len() > 0,
    ensures
        r.len() == 1,
        (r[0].index as int) < pos.len(),
        r[0].distance == squared_distance_spec(q, pos[r[0].index as int]),
        forall|i: int| 0 <= i < pos.len() ==> r[0].distance <= #[trigger] squared_distance_spec(q, pos[i]),
        is_nearest_index(pos, q, r[0].index as int),
{
    let all = Set::new(|i: int| 0 <= i < pos.len());
    assert(all.contains(0));
    assert(r.len() == 1);
    assert forall|i: int| 0 <= i < pos.len() implies r[0].distance <= #[trigger] squared_distance_spec(q, pos[i]) by {
        assert(all.contains(i));
        if holds_index(r, i) {
            let j = choose|j: int| 0 <= j < r.len() && r[j].index == i;
            assert(j == 0);
        }
    }
    assert forall|i: int| 0 <= i < pos.len() && i != r[0].index as int implies #[trigger] nearer(
        q,
        pos,
        r[0].index as int,
        i,
    ) by {
        assert(all.contains(i));
        if holds_index(r, i) {
            let j = choose|j: int| 0 <= j < r.len() && r[j].index == i;
            assert(j == 0);
        }
    }
}

/// The distances of the answers to a query come in non-decreasing order.
pub proof fn lemma_distances_non_decreasing(r: Seq<Neighbor>, k: int, q: Position, pos: Seq<Position>)
    requires
        is_k_nearest(r, k, q, pos),
    ensures
        forall|j1: int, j2: int| 0 <= j1 <= j2 < r.len() ==> #[trigger] r[j1].distance <= #[trigger] r[j2].distance,
{
    assert forall|j1: int, j2: int| 0 <= j1 <= j2 < r.len() implies #[trigger] r[j1].distance <= #[trigger] r[j2].distance by {
        if j1 < j2 {
            assert(neighbor_lt(r[j1], r[j2]));
        }
    }
}

/// Where the query position was inserted, a query for one neighbour answers
/// with the first point inserted at that position.
pub proof fn lemma_first_inserted_wins(r: Seq<Neighbor>, q: Position, pos: Seq<Position>, i: int)
    requires
        is_k_nearest(r, 1, q, pos),
        0 <= i < pos.len(),
        pos[i] == q,
        forall|j: int| 0 <= j < i ==> pos[j] != q,
    ensures
        r.len() == 1,
        r[0].index == i,
        r[0].distance == 0,
{
    lemma_nearest_is_minimum(r, q, pos);
    let found = r[0].index as int;
    assert(squared_distance_spec(q, pos[i]) == 0);
    assert(squared_distance_spec(q, pos[i]) >= r[0].distance);
    lemma_zero_distance(q, pos[found]);
    let all = Set::new(|x: int| 0 <= x < pos.len());
    assert(all.contains(i));
    if found != i {
        assert(!holds_index(r, i));
    }
}

} // verus!

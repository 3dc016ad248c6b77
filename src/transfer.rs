//! Attribute transfer: each target point takes the transferred attributes of
//! its nearest source point, in target order.
use vstd::prelude::*;
use crate::point::{Point, Position};
use crate::spatial_index::{KdTree, is_nearest_index, lemma_nearest_is_minimum, nearer};

verus! {

/// Errors of attribute transfer.
#[derive(Clone, Copy, Debug, PartialEq, Eq, Structural)]
pub enum TransferError {
    /// The source cloud holds no point to take attributes from.
    EmptyDonor,
}

/// `target` with the transferred attributes of `donor`: its intensity.
pub open spec fn with_attributes_spec(target: Point, donor: Point) -> Point {
    Point { intensity: donor.intensity, ..target }
}

/// The positions of a point sequence.
pub open spec fn positions_of(points: Seq<Point>) -> Seq<Position> {
    points.map_values(|p: Point| p.position)
}

/// `o` is `t` with the attributes of its nearest point in `source` (ties
/// going to the earlier source point).
pub open spec fn transferred_from(source: Seq<Point>, t: Point, o: Point) -> bool {
    exists|j: int| is_nearest_index(positions_of(source), t.position, j) && o == with_attributes_spec(t, source[j])
}

/// `out` is `target`, in order, with each point given the attributes of its
/// nearest point in `source` (ties going to the earlier source point).
pub open spec fn is_transfer(source: Seq<Point>, target: Seq<Point>, out: Seq<Point>) -> bool {
    &&& out.len() == target.len()
    &&& forall|i: int| 0 <= i < target.len() ==> transferred_from(source, target[i], #[trigger] out[i])
}

/// Copies the transferred attributes of `donor` onto `target`.
pub fn transfer_attributes(target: &Point, donor: &Point) -> (r: Point)
    ensures
        r == with_attributes_spec(*target, *donor),
{
    Point { intensity: donor.intensity, ..*target }
}

/// An index over the points of a source cloud, built one point at a time.
pub struct DonorIndex {
    tree: KdTree<Point>,
}

impl DonorIndex {
    /// The source points added so far, in order.
    pub closed spec fn donors(&self) -> Seq<Point> {
        self.tree.payloads_spec()
    }

    pub closed spec fn wf(&self) -> bool {
        &&& self.tree.wf()
        &&& self.tree.positions_spec() == positions_of(self.tree.payloads_spec())
    }

    /// An index with no point.
    pub fn new() -> (r: Self)
        ensures
            r.wf(),
            r.donors() == Seq::<Point>::empty(),
    {
        let r = DonorIndex { tree: KdTree::new() };
        assert(r.tree.positions_spec() =~= positions_of(r.tree.payloads_spec()));
        r
    }

    /// The number of source points added.
    pub fn len(&self) -> (r: usize)
        requires
            self.wf(),
        ensures
            r == self.donors().len(),
    {
        self.tree.len()
    }

    /// Adds one source point.
    pub fn add(&mut self, p: Point)
        requires
            old(self).wf(),
            old(self).donors().len() < usize::MAX,
        ensures
            final(self).wf(),
            final(self).donors() == old(self).donors().push(p),
    {
        self.tree.insert(p.position, p);
        assert(self.tree.positions_spec() =~= positions_of(self.tree.payloads_spec()));
    }

    /// `target` with the attributes of its nearest source point.
    pub fn transfer(&self, target: &Point) -> (r: Result<Point, TransferError>)
        requires
            self.wf(),
        ensures
            r is Err <==> self.donors().len() == 0,
            r is Err ==> r->Err_0 == TransferError::EmptyDonor,
            r is Ok ==> transferred_from(self.donors(), *target, r->Ok_0),
    {
        match self.tree.nearest(&target.position, 1) {
            Err(_) => Err(TransferError::EmptyDonor),
            Ok(found) => {
                proof {
                    lemma_nearest_is_minimum(found@, target.position, self.tree.positions_spec());
                }
                let donor = self.tree.payload(found[0].index);
                Ok(transfer_attributes(target, donor))
            },
        }
    }
}

/// Every target point, in order, with the attributes of its nearest source
/// point. Fails when the source is empty.
pub fn transfer_intensity(source: &Vec<Point>, target: &Vec<Point>) -> (r: Result<Vec<Point>, TransferError>)
    ensures
        r is Err <==> source@.len() == 0,
        r is Err ==> r->Err_0 == TransferError::EmptyDonor,
        r is Ok ==> is_transfer(source@, target@, r->Ok_0@),
{
    let mut index = DonorIndex::new();
    let mut i: usize = 0;
    while i < source.len()
        invariant
            i <= source.len(),
            index.wf(),
            index.donors() == source@.take(i as int),
        decreases source.len() - i,
    {
        index.add(source[i]);
        assert(source@.take(i as int + 1) =~= source@.take(i as int).push(source@[i as int]));
        i = i + 1;
    }
    assert(source@.take(source.len() as int) =~= source@);
    if index.len() == 0 {
        return Err(TransferError::EmptyDonor);
    }
    let mut out: Vec<Point> = Vec::with_capacity(target.len());
    let mut t: usize = 0;
    while t < target.len()
        invariant
            t <= target.len(),
            index.wf(),
            index.donors() == source@,
            source@.len() > 0,
            out@.len() == t,
            forall|u: int| 0 <= u < t ==> transferred_from(source@, target@[u], #[trigger] out@[u]),
        decreases target.len() - t,
    {
        let p = match index.transfer(&target[t]) {
            Ok(p) => p,
            Err(e) => return Err(e),
        };
        out.push(p);
        assert(out@[t as int] == p);
        t = t + 1;
    }
    Ok(out)
}

/// Where a target point stands at the position of a source point, it takes
/// the attributes of the first source point at that position.
pub proof fn lemma_transfer_identity(source: Seq<Point>, target: Seq<Point>, out: Seq<Point>, i: int, j: int)
    requires
        is_transfer(source, target, out),
        0 <= i < target.len(),
        0 <= j < source.len(),
        source[j].position == target[i].position,
        forall|m: int| 0 <= m < j ==> source[m].position != target[i].position,
    ensures
        out[i].intensity == source[j].intensity,
        out[i] == with_attributes_spec(target[i], source[j]),
{
    let pos = positions_of(source);
    let q = target[i].position;
    let found = choose|f: int| is_nearest_index(pos, q, f) && out[i] == with_attributes_spec(target[i], source[f]);
    assert(pos[j] == q);
    if found != j {
        assert(nearer(q, pos, found, j));
        crate::spatial_index::lemma_zero_distance(q, pos[found]);
        assert(pos[found] == source[found].position);
    }
}

/// The output of a transfer keeps the target's order: the point at each place
/// is the target point at that place, its transferred attributes aside.
pub proof fn lemma_transfer_keeps_order(source: Seq<Point>, target: Seq<Point>, out: Seq<Point>)
    requires
        is_transfer(source, target, out),
    ensures
        out.len() == target.len(),
        forall|i: int|
            0 <= i < target.len() ==> #[trigger] out[i] == with_attributes_spec(target[i], out[i]),
{
    assert forall|i: int| 0 <= i < target.len() implies #[trigger] out[i] == with_attributes_spec(
        target[i],
        out[i],
    ) by {
        let f = choose|f: int| is_nearest_index(positions_of(source), target[i].position, f) && out[i]
            == with_attributes_spec(target[i], source[f]);
    }
}

} // verus!

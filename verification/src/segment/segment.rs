//! A segment: an ordered store of points with their vectors and payload,
//! which remembers the last operation that it absorbed.

use vstd::prelude::*;
use crate::segment::entry_point::OperationError;
use crate::segment::types::{
    copy_payload, payload_view, same_components, same_payload, Distance, Payload, PointIdType,
    PointView, SeqNumberType, VectorElementType,
};

verus! {

/// One point as a segment stores it.
#[derive(Debug, Clone, PartialEq, Eq)]
pub struct StoredPoint {
    pub id: PointIdType,
    pub vector: Vec<VectorElementType>,
    pub payload: Option<Payload>,
}

impl View for StoredPoint {
    type V = PointView;

    open spec fn view(&self) -> PointView {
        PointView { vector: self.vector@, payload: payload_view(self.payload) }
    }
}

impl StoredPoint {
    /// Whether the two points have the same vector and the same payload.
    pub fn same_data(&self, other: &StoredPoint) -> (same: bool)
        ensures
            same == (self@ == other@),
    {
        same_components(&self.vector, &other.vector) && same_payload(&self.payload, &other.payload)
    }
}

/// The ids of `s` increase strictly.
spec fn ascending(s: Seq<StoredPoint>) -> bool {
    forall|i: int, j: int| 0 <= i < j < s.len() ==> s[i].id < s[j].id
}

/// Some point of `s` has the id `id`.
spec fn holds(s: Seq<StoredPoint>, id: PointIdType) -> bool {
    exists|i: int| 0 <= i < s.len() && #[trigger] s[i].id == id
}

/// The place of the point with id `id` in `s`.
spec fn place_of(s: Seq<StoredPoint>, id: PointIdType) -> int {
    choose|i: int| 0 <= i < s.len() && #[trigger] s[i].id == id
}

/// The points of `s`, by id.
spec fn map_of(s: Seq<StoredPoint>) -> Map<PointIdType, PointView> {
    Map::new(|id: PointIdType| holds(s, id), |id: PointIdType| s[place_of(s, id)]@)
}

/// The ids of `s`, in order.
spec fn ids_of(s: Seq<StoredPoint>) -> Seq<PointIdType> {
    Seq::new(s.len(), |i: int| s[i].id)
}

/// In an ascending sequence, the point at a place is the point of its id.
proof fn lemma_map_at(s: Seq<StoredPoint>, i: int)
    requires
        ascending(s),
        0 <= i < s.len(),
    ensures
        holds(s, s[i].id),
        place_of(s, s[i].id) == i,
        map_of(s).dom().contains(s[i].id),
        map_of(s)[s[i].id] == s[i]@,
{
    assert(holds(s, s[i].id));
    let k = place_of(s, s[i].id);
    if k < i {
        assert(s[k].id < s[i].id);
    } else if i < k {
        assert(s[i].id < s[k].id);
    }
}

/// Inserting a point at its place in the order adds it to the map.
proof fn lemma_map_insert(s: Seq<StoredPoint>, p: int, point: StoredPoint)
    requires
        ascending(s),
        0 <= p <= s.len(),
        forall|i: int| 0 <= i < p ==> s[i].id < point.id,
        forall|i: int| p <= i < s.len() ==> point.id < s[i].id,
    ensures
        ascending(s.insert(p, point)),
        map_of(s.insert(p, point)) == map_of(s).insert(point.id, point@),
{
    let t = s.insert(p, point);
    assert(ascending(t)) by {
        assert forall|i: int, j: int| 0 <= i < j < t.len() implies t[i].id < t[j].id by {
            let a = if i < p { i } else { i - 1 };
            let b = if j < p { j } else { j - 1 };
            if i != p && j != p {
                assert(t[i] == s[a] && t[j] == s[b]);
            } else if i == p {
                assert(t[j] == s[b]);
            } else {
                assert(t[i] == s[a]);
            }
        }
    }
    assert forall|id: PointIdType| #[trigger]
        map_of(t).dom().contains(id) == map_of(s).insert(point.id, point@).dom().contains(
            id,
        ) by {
        if holds(t, id) {
            let k = place_of(t, id);
            if k < p {
                assert(t[k] == s[k]);
                assert(holds(s, id));
            } else if k > p {
                assert(t[k] == s[k - 1]);
                assert(holds(s, id));
            }
        }
        if holds(s, id) {
            let k = place_of(s, id);
            if k < p {
                assert(t[k] == s[k]);
            } else {
                assert(t[k + 1] == s[k]);
            }
            assert(holds(t, id));
        }
        if id == point.id {
            assert(t[p] == point);
            assert(holds(t, id));
        }
    }
    assert forall|id: PointIdType| #[trigger] map_of(t).dom().contains(id) implies map_of(t)[id]
        == map_of(s).insert(point.id, point@)[id] by {
        let k = place_of(t, id);
        lemma_map_at(t, k);
        if k < p {
            assert(t[k] == s[k]);
            lemma_map_at(s, k);
        } else if k > p {
            assert(t[k] == s[k - 1]);
            lemma_map_at(s, k - 1);
        } else {
            assert(t[p] == point);
        }
    }
    assert(map_of(t) =~= map_of(s).insert(point.id, point@));
}

/// Replacing a point by one of the same id replaces it in the map.
proof fn lemma_map_update(s: Seq<StoredPoint>, p: int, point: StoredPoint)
    requires
        ascending(s),
        0 <= p < s.len(),
        s[p].id == point.id,
    ensures
        ascending(s.update(p, point)),
        map_of(s.update(p, point)) == map_of(s).insert(point.id, point@),
{
    let t = s.update(p, point);
    assert(ascending(t)) by {
        assert forall|i: int, j: int| 0 <= i < j < t.len() implies t[i].id < t[j].id by {
            assert(t[i].id == s[i].id && t[j].id == s[j].id);
        }
    }
    assert forall|id: PointIdType| #[trigger]
        map_of(t).dom().contains(id) == map_of(s).insert(point.id, point@).dom().contains(
            id,
        ) by {
        if holds(t, id) {
            let k = place_of(t, id);
            assert(s[k].id == id);
            assert(holds(s, id));
        }
        if holds(s, id) {
            let k = place_of(s, id);
            assert(t[k].id == id);
            assert(holds(t, id));
        }
        if id == point.id {
            assert(t[p].id == id);
            assert(holds(t, id));
        }
    }
    assert forall|id: PointIdType| #[trigger] map_of(t).dom().contains(id) implies map_of(t)[id]
        == map_of(s).insert(point.id, point@)[id] by {
        let k = place_of(t, id);
        lemma_map_at(t, k);
        if k != p {
            assert(t[k] == s[k]);
            lemma_map_at(s, k);
        }
    }
    assert(map_of(t) =~= map_of(s).insert(point.id, point@));
}

/// Removing the point at a place removes its id from the map.
proof fn lemma_map_remove(s: Seq<StoredPoint>, p: int)
    requires
        ascending(s),
        0 <= p < s.len(),
    ensures
        ascending(s.remove(p)),
        map_of(s.remove(p)) == map_of(s).remove(s[p].id),
{
    let t = s.remove(p);
    assert(ascending(t)) by {
        assert forall|i: int, j: int| 0 <= i < j < t.len() implies t[i].id < t[j].id by {
            let a = if i < p { i } else { i + 1 };
            let b = if j < p { j } else { j + 1 };
            assert(t[i] == s[a] && t[j] == s[b]);
        }
    }
    assert forall|id: PointIdType| #[trigger]
        map_of(t).dom().contains(id) == map_of(s).remove(s[p].id).dom().contains(id) by {
        if holds(t, id) {
            let k = place_of(t, id);
            let a = if k < p { k } else { k + 1 };
            assert(t[k] == s[a]);
            assert(holds(s, id));
            if id == s[p].id {
                if a < p {
                    assert(s[a].id < s[p].id);
                } else {
                    assert(s[p].id < s[a].id);
                }
            }
        }
        if holds(s, id) && id != s[p].id {
            let k = place_of(s, id);
            let b = if k < p { k } else { k - 1 };
            assert(t[b] == s[k]);
            assert(holds(t, id));
        }
    }
    assert forall|id: PointIdType| #[trigger] map_of(t).dom().contains(id) implies map_of(t)[id]
        == map_of(s).remove(s[p].id)[id] by {
        let k = place_of(t, id);
        lemma_map_at(t, k);
        let a = if k < p { k } else { k + 1 };
        assert(t[k] == s[a]);
        lemma_map_at(s, a);
    }
    assert(map_of(t) =~= map_of(s).remove(s[p].id));
}

/// The ids of an ascending sequence are its map's domain, each once.
proof fn lemma_ids_of(s: Seq<StoredPoint>)
    requires
        ascending(s),
    ensures
        ids_of(s).no_duplicates(),
        ids_of(s).to_set() == map_of(s).dom(),
        map_of(s).dom().finite(),
        map_of(s).dom().len() == s.len(),
{
    let ids = ids_of(s);
    assert forall|i: int, j: int| 0 <= i < ids.len() && 0 <= j < ids.len() && i != j implies ids[i]
        != ids[j] by {
        if i < j {
            assert(s[i].id < s[j].id);
        } else {
            assert(s[j].id < s[i].id);
        }
    }
    assert forall|id: PointIdType| ids.to_set().contains(id) == map_of(s).dom().contains(id) by {
        if ids.to_set().contains(id) {
            let i = choose|i: int| 0 <= i < ids.len() && ids[i] == id;
            assert(s[i].id == id);
            assert(holds(s, id));
        }
        if holds(s, id) {
            let k = place_of(s, id);
            assert(ids[k] == id);
        }
    }
    assert(ids.to_set() =~= map_of(s).dom());
    ids.unique_seq_to_set();
}


/// The order of a segment's ids is determined by its points: two ascending
/// listings of the same points are the same sequence, so iterating twice
/// without a change in between yields the same ids in the same order.
pub proof fn lemma_iteration_is_determined(first: &Segment, second: &Segment)
    requires
        first.wf(),
        second.wf(),
        first@.dom() == second@.dom(),
    ensures
        first.ids() == second.ids(),
{
    first.lemma_wf();
    second.lemma_wf();
    let a = first.ids();
    let b = second.ids();
    assert(a.len() == b.len());
    assert forall|i: int| 0 <= i < a.len() implies a[i] == b[i] by {
        lemma_ascending_agree(a, b, i);
    }
    assert(a =~= b);
}

/// Two ascending sequences over the same set agree at every place.
proof fn lemma_ascending_agree(a: Seq<PointIdType>, b: Seq<PointIdType>, i: int)
    requires
        forall|k: int, l: int| 0 <= k < l < a.len() ==> a[k] < a[l],
        forall|k: int, l: int| 0 <= k < l < b.len() ==> b[k] < b[l],
        a.to_set() == b.to_set(),
        a.len() == b.len(),
        0 <= i < a.len(),
    ensures
        a[i] == b[i],
    decreases i,
{
    assert forall|j: int| 0 <= j < i implies a[j] == b[j] by {
        lemma_ascending_agree(a, b, j);
    }
    if a[i] < b[i] {
        assert(a.to_set().contains(a[i]));
        assert(b.contains(a[i]));
        let k = choose|k: int| 0 <= k < b.len() && b[k] == a[i];
        if k < i {
            assert(a[k] < a[i]);
        } else if k > i {
            assert(b[i] < b[k]);
        }
    } else if b[i] < a[i] {
        assert(b.to_set().contains(b[i]));
        assert(a.contains(b[i]));
        let k = choose|k: int| 0 <= k < a.len() && a[k] == b[i];
        if k < i {
            assert(b[k] < b[i]);
        } else if k > i {
            assert(a[i] < a[k]);
        }
    }
}

/// What an upsert leaves under the point's id: the new vector, and the new
/// payload if one was offered, else the payload that the point had.
pub open spec fn upserted(
    before: Map<PointIdType, PointView>,
    id: PointIdType,
    vector: Seq<VectorElementType>,
    payload: Option<Seq<u8>>,
) -> PointView {
    PointView {
        vector,
        payload: if payload is Some {
            payload
        } else if before.contains_key(id) {
            before[id].payload
        } else {
            None
        },
    }
}

/// An ordered store of points. All vectors have the segment's dimension.
pub struct Segment {
    dim: usize,
    distance: Distance,
    version: SeqNumberType,
    indexed: bool,
    points: Vec<StoredPoint>,
}

impl View for Segment {
    type V = Map<PointIdType, PointView>;

    /// The points of the segment, by id.
    closed spec fn view(&self) -> Map<PointIdType, PointView> {
        map_of(self.points@)
    }
}

impl Segment {
    /// The invariant of a segment: ids ascend strictly and every vector has the
    /// segment's dimension.
    pub closed spec fn wf(&self) -> bool {
        &&& ascending(self.points@)
        &&& forall|i: int|
            0 <= i < self.points@.len() ==> (#[trigger] self.points@[i]).vector@.len() == self.dim
    }

    /// The ids of the segment's points, ascending.
    pub closed spec fn ids(&self) -> Seq<PointIdType> {
        ids_of(self.points@)
    }

    /// The dimension of the segment's vectors.
    pub closed spec fn spec_dim(&self) -> usize {
        self.dim
    }

    /// How the segment measures similarity.
    pub closed spec fn spec_distance(&self) -> Distance {
        self.distance
    }

    /// The number of the last operation that changed the segment; 0 before any.
    pub closed spec fn spec_version(&self) -> SeqNumberType {
        self.version
    }

    /// Whether the search index covers the segment's current vectors.
    pub closed spec fn spec_is_indexed(&self) -> bool {
        self.indexed
    }

    /// An operation numbered below the segment's version is already part of it.
    pub open spec fn absorbed(&self, op_num: SeqNumberType) -> bool {
        self.spec_version() > op_num
    }

    /// What the invariant says of the views.
    pub proof fn lemma_wf(&self)
        requires
            self.wf(),
        ensures
            self@.dom().finite(),
            self.ids().len() == self@.dom().len(),
            self.ids().no_duplicates(),
            self.ids().to_set() == self@.dom(),
            forall|i: int, j: int| 0 <= i < j < self.ids().len() ==> self.ids()[i] < self.ids()[j],
            forall|i: int| 0 <= i < self.ids().len() ==> self@.contains_key(#[trigger] self.ids()[i]),
            forall|id: PointIdType| #[trigger]
                self@.contains_key(id) ==> self@[id].vector.len() == self.spec_dim(),
    {
        lemma_ids_of(self.points@);
        assert forall|id: PointIdType| #[trigger] self@.contains_key(id) implies self@[id].vector.len()
            == self.spec_dim() by {
            let k = place_of(self.points@, id);
            lemma_map_at(self.points@, k);
        }
        assert forall|i: int| 0 <= i < self.ids().len() implies self@.contains_key(
            #[trigger] self.ids()[i],
        ) by {
            lemma_map_at(self.points@, i);
        }
    }

    /// An empty segment for vectors of dimension `dim`.
    pub fn new(dim: usize, distance: Distance) -> (s: Segment)
        ensures
            s.wf(),
            s@ == Map::<PointIdType, PointView>::empty(),
            s.ids() == Seq::<PointIdType>::empty(),
            s.spec_dim() == dim,
            s.spec_distance() == distance,
            s.spec_version() == 0,
            !s.spec_is_indexed(),
    {
        let s = Segment { dim, distance, version: 0, indexed: false, points: Vec::new() };
        assert(s@ =~= Map::<PointIdType, PointView>::empty());
        assert(s.ids() =~= Seq::<PointIdType>::empty());
        s
    }

    /// The dimension of the segment's vectors.
    #[verifier::when_used_as_spec(spec_dim)]
    pub fn dim(&self) -> (d: usize)
        ensures
            d == self.spec_dim(),
    {
        self.dim
    }

    /// How the segment measures similarity.
    #[verifier::when_used_as_spec(spec_distance)]
    pub fn distance(&self) -> (d: Distance)
        ensures
            d == self.spec_distance(),
    {
        self.distance
    }

    /// The number of the last operation that changed the segment; 0 before any.
    #[verifier::when_used_as_spec(spec_version)]
    pub fn version(&self) -> (v: SeqNumberType)
        ensures
            v == self.spec_version(),
    {
        self.version
    }

    /// Whether the search index covers the segment's current vectors.
    #[verifier::when_used_as_spec(spec_is_indexed)]
    pub fn is_indexed(&self) -> (b: bool)
        ensures
            b == self.spec_is_indexed(),
    {
        self.indexed
    }

    /// The number of points in the segment.
    pub fn points_count(&self) -> (n: usize)
        requires
            self.wf(),
        ensures
            n == self@.dom().len(),
            n == self.ids().len(),
    {
        proof {
            self.lemma_wf();
        }
        self.points.len()
    }

    /// The first place whose id is not below `id`.
    fn position(&self, id: PointIdType) -> (p: usize)
        requires
            self.wf(),
        ensures
            p <= self.points@.len(),
            forall|i: int| 0 <= i < p ==> self.points@[i].id < id,
            forall|i: int| p <= i < self.points@.len() ==> self.points@[i].id >= id,
    {
        let mut lo: usize = 0;
        let mut hi: usize = self.points.len();
        while lo < hi
            invariant
                lo <= hi <= self.points@.len(),
                ascending(self.points@),
                forall|i: int| 0 <= i < lo ==> self.points@[i].id < id,
                forall|i: int| hi <= i < self.points@.len() ==> self.points@[i].id >= id,
            decreases hi - lo,
        {
            let mid: usize = lo + (hi - lo) / 2;
            if self.points[mid].id < id {
                lo = mid + 1;
            } else {
                hi = mid;
            }
        }
        lo
    }

    /// Whether the segment holds a point with this id.
    pub fn has_point(&self, id: PointIdType) -> (b: bool)
        requires
            self.wf(),
        ensures
            b == self@.contains_key(id),
    {
        let p = self.position(id);
        let found = p < self.points.len() && self.points[p].id == id;
        proof {
            if found {
                lemma_map_at(self.points@, p as int);
            } else if holds(self.points@, id) {
                let k = place_of(self.points@, id);
                assert(self.points@[k].id == id);
            }
        }
        found
    }

    /// The point with this id, if the segment holds one.
    pub fn get(&self, id: PointIdType) -> (r: Option<&StoredPoint>)
        requires
            self.wf(),
        ensures
            match r {
                Some(point) => self@.contains_key(id) && point.id == id && point@ == self@[id],
                None => !self@.contains_key(id),
            },
    {
        let p = self.position(id);
        if p < self.points.len() && self.points[p].id == id {
            proof {
                lemma_map_at(self.points@, p as int);
            }
            Some(&self.points[p])
        } else {
            proof {
                if holds(self.points@, id) {
                    let k = place_of(self.points@, id);
                    assert(self.points@[k].id == id);
                }
            }
            None
        }
    }

    /// The id at place `i` of the ascending order.
    pub fn point_id_at(&self, i: usize) -> (id: PointIdType)
        requires
            self.wf(),
            i < self.ids().len(),
        ensures
            id == self.ids()[i as int],
    {
        self.points[i].id
    }

    /// The point at place `i` of the ascending order.
    pub fn point_at(&self, i: usize) -> (point: &StoredPoint)
        requires
            self.wf(),
            i < self.ids().len(),
        ensures
            point.id == self.ids()[i as int],
            self@.contains_key(point.id),
            point@ == self@[point.id],
    {
        proof {
            lemma_map_at(self.points@, i as int);
        }
        &self.points[i]
    }

    /// The ids of all points, ascending.
    pub fn iter_points(&self) -> (ids: Vec<PointIdType>)
        requires
            self.wf(),
        ensures
            ids@ == self.ids(),
    {
        let mut ids: Vec<PointIdType> = Vec::new();
        let mut i: usize = 0;
        while i < self.points.len()
            invariant
                i <= self.points@.len(),
                ids@ == ids_of(self.points@).take(i as int),
            decreases self.points@.len() - i,
        {
            ids.push(self.points[i].id);
            i += 1;
            assert(ids@ =~= ids_of(self.points@).take(i as int));
        }
        assert(ids_of(self.points@).take(i as int) =~= ids_of(self.points@));
        ids
    }

    /// The least id of the segment that is not below `from`.
    pub fn first_id_from(&self, from: PointIdType) -> (r: Option<PointIdType>)
        requires
            self.wf(),
        ensures
            match r {
                Some(id) => self@.contains_key(id) && from <= id && forall|other: PointIdType|
                    self@.contains_key(other) && from <= other ==> id <= other,
                None => forall|other: PointIdType| self@.contains_key(other) ==> other < from,
            },
    {
        let p = self.position(from);
        if p < self.points.len() {
            let id = self.points[p].id;
            proof {
                lemma_map_at(self.points@, p as int);
                assert forall|other: PointIdType|
                    self@.contains_key(other) && from <= other implies id <= other by {
                    let k = place_of(self.points@, other);
                    assert(self.points@[k].id == other);
                    if k > p {
                        assert(self.points@[p as int].id < self.points@[k].id);
                    }
                }
            }
            Some(id)
        } else {
            proof {
                assert forall|other: PointIdType| self@.contains_key(other) implies other
                    < from by {
                    let k = place_of(self.points@, other);
                    assert(self.points@[k].id == other);
                }
            }
            None
        }
    }

    /// Stores `point` under its id, in place of the point that had the id, if
    /// any. The version stays.
    fn put(&mut self, point: StoredPoint)
        requires
            old(self).wf(),
            point.vector@.len() == old(self).dim,
        ensures
            final(self).wf(),
            final(self)@ == old(self)@.insert(point.id, point@),
            final(self).dim == old(self).dim,
            final(self).distance == old(self).distance,
            final(self).version == old(self).version,
            final(self).indexed == old(self).indexed,
    {
        let p = self.position(point.id);
        let ghost before = self.points@;
        if p < self.points.len() && self.points[p].id == point.id {
            proof {
                lemma_map_update(before, p as int, point);
            }
            self.points.set(p, point);
        } else {
            proof {
                lemma_map_insert(before, p as int, point);
            }
            self.points.insert(p, point);
        }
    }

    /// Inserts the point, or replaces its vector and, where one is offered, its
    /// payload. An operation that the segment has absorbed changes nothing.
    pub fn upsert_point(
        &mut self,
        op_num: SeqNumberType,
        id: PointIdType,
        vector: Vec<VectorElementType>,
        payload: Option<Payload>,
    ) -> (r: Result<bool, OperationError>)
        requires
            old(self).wf(),
        ensures
            final(self).wf(),
            final(self).spec_dim() == old(self).spec_dim(),
            final(self).spec_distance() == old(self).spec_distance(),
            final(self).spec_version() >= old(self).spec_version(),
            match r {
                Ok(applied) => {
                    &&& applied == !old(self).absorbed(op_num)
                    &&& applied ==> {
                        &&& vector@.len() == old(self).spec_dim()
                        &&& final(self)@ == old(self)@.insert(
                            id,
                            upserted(old(self)@, id, vector@, payload_view(payload)),
                        )
                        &&& final(self).spec_version() == op_num
                        &&& !final(self).spec_is_indexed()
                    }
                    &&& !applied ==> *final(self) == *old(self)
                },
                Err(e) => {
                    &&& !old(self).absorbed(op_num)
                    &&& vector@.len() != old(self).spec_dim()
                    &&& e == (OperationError::WrongVector {
                        expected_dim: old(self).spec_dim(),
                        received_dim: vector.len(),
                    })
                    &&& *final(self) == *old(self)
                },
            },
    {
        if self.version > op_num {
            return Ok(false);
        }
        if vector.len() != self.dim {
            return Err(
                OperationError::WrongVector { expected_dim: self.dim, received_dim: vector.len() },
            );
        }
        let payload = match payload {
            Some(bytes) => Some(bytes),
            None => match self.get(id) {
                Some(point) => copy_payload(&point.payload),
                None => None,
            },
        };
        self.put(StoredPoint { id, vector, payload });
        self.version = op_num;
        self.indexed = false;
        Ok(true)
    }

    /// Removes the point with this id and says whether there was one. An
    /// operation that the segment has absorbed changes nothing.
    pub fn delete_point(&mut self, op_num: SeqNumberType, id: PointIdType) -> (removed: bool)
        requires
            old(self).wf(),
        ensures
            final(self).wf(),
            final(self).spec_dim() == old(self).spec_dim(),
            final(self).spec_distance() == old(self).spec_distance(),
            final(self).spec_version() >= old(self).spec_version(),
            old(self).absorbed(op_num) ==> !removed && *final(self) == *old(self),
            !old(self).absorbed(op_num) ==> {
                &&& removed == old(self)@.contains_key(id)
                &&& final(self)@ == old(self)@.remove(id)
                &&& final(self).spec_version() == op_num
                &&& final(self).spec_is_indexed() == (old(self).spec_is_indexed() && !removed)
            },
    {
        if self.version > op_num {
            return false;
        }
        let p = self.position(id);
        let ghost before = self.points@;
        self.version = op_num;
        if p < self.points.len() && self.points[p].id == id {
            proof {
                lemma_map_at(before, p as int);
                lemma_map_remove(before, p as int);
            }
            let _ = self.points.remove(p);
            self.indexed = false;
            true
        } else {
            proof {
                if holds(before, id) {
                    let k = place_of(before, id);
                    assert(before[k].id == id);
                }
                assert(self@ =~= map_of(before).remove(id));
            }
            false
        }
    }

    /// Gives the point with this id the payload `payload` (`None` clears it).
    /// An operation that the segment has absorbed changes nothing; a point that
    /// the segment does not hold is an error and changes nothing.
    pub fn set_payload(
        &mut self,
        op_num: SeqNumberType,
        id: PointIdType,
        payload: Option<Payload>,
    ) -> (r: Result<bool, OperationError>)
        requires
            old(self).wf(),
        ensures
            final(self).wf(),
            final(self).spec_dim() == old(self).spec_dim(),
            final(self).spec_distance() == old(self).spec_distance(),
            final(self).spec_version() >= old(self).spec_version(),
            match r {
                Ok(applied) => {
                    &&& applied == !old(self).absorbed(op_num)
                    &&& applied ==> {
                        &&& old(self)@.contains_key(id)
                        &&& final(self)@ == old(self)@.insert(
                            id,
                            PointView {
                                vector: old(self)@[id].vector,
                                payload: payload_view(payload),
                            },
                        )
                        &&& final(self).spec_version() == op_num
                        &&& final(self).spec_is_indexed() == old(self).spec_is_indexed()
                    }
                    &&& !applied ==> *final(self) == *old(self)
                },
                Err(e) => {
                    &&& !old(self).absorbed(op_num)
                    &&& !old(self)@.contains_key(id)
                    &&& e == (OperationError::PointIdError { missed_point_id: id })
                    &&& *final(self) == *old(self)
                },
            },
    {
        if self.version > op_num {
            return Ok(false);
        }
        let p = self.position(id);
        if p < self.points.len() && self.points[p].id == id {
            let ghost before = self.points@;
            self.points[p].payload = payload;
            self.version = op_num;
            proof {
                lemma_map_at(before, p as int);
                lemma_map_update(before, p as int, self.points@[p as int]);
                assert(self.points@ =~= before.update(p as int, self.points@[p as int]));
            }
        } else {
            proof {
                if holds(self.points@, id) {
                    let k = place_of(self.points@, id);
                    assert(self.points@[k].id == id);
                }
            }
            return Err(OperationError::PointIdError { missed_point_id: id });
        }
        Ok(true)
    }

    /// Records that the segment holds everything up to the operation `op_num`.
    /// The version never goes down.
    pub fn bump_version(&mut self, op_num: SeqNumberType)
        requires
            old(self).wf(),
        ensures
            final(self).wf(),
            final(self)@ == old(self)@,
            final(self).ids() == old(self).ids(),
            final(self).spec_dim() == old(self).spec_dim(),
            final(self).spec_distance() == old(self).spec_distance(),
            final(self).spec_is_indexed() == old(self).spec_is_indexed(),
            final(self).spec_version() == if old(self).spec_version() < op_num {
                op_num
            } else {
                old(self).spec_version()
            },
    {
        if self.version < op_num {
            self.version = op_num;
        }
    }

    /// Records that the search index has been built over the current vectors.
    pub fn build_index(&mut self)
        requires
            old(self).wf(),
        ensures
            final(self).wf(),
            final(self)@ == old(self)@,
            final(self).ids() == old(self).ids(),
            final(self).spec_dim() == old(self).spec_dim(),
            final(self).spec_distance() == old(self).spec_distance(),
            final(self).spec_version() == old(self).spec_version(),
            final(self).spec_is_indexed(),
    {
        self.indexed = true;
    }
}

} // verus!

//! Identifiers and plain values shared by segments and the collection core.

use vstd::prelude::*;

verus! {

/// Identifier of a point, unique within a collection.
pub type PointIdType = u64;

/// Position of an operation in the global order that the operation log assigns.
pub type SeqNumberType = u64;

/// One component of a stored vector, kept as the bit pattern of its
/// single-precision value. Segments store and return components; they never
/// compute with them.
pub type VectorElementType = u32;

/// Name of a payload field.
pub type PayloadKeyType = String;

/// The payload of a point: one serialized document. The core stores it and
/// hands it back; it never looks inside.
pub type Payload = Vec<u8>;

/// How the similarity of two vectors is measured.
#[derive(Debug, Clone, Copy, PartialEq, Eq, Structural)]
pub enum Distance {
    Cosine,
    Euclid,
    Dot,
}

/// The similarity of a point to a query, as an integer that orders as the
/// similarity does: a higher score is a closer point.
pub type ScoreType = i64;

/// A point with its similarity to a query.
#[derive(Debug, Clone, Copy, PartialEq, Eq, Structural)]
pub struct ScoredPoint {
    /// Id of the point.
    pub id: PointIdType,
    /// Version of the point's segment when the point was scored.
    pub version: SeqNumberType,
    /// Similarity to the query.
    pub score: ScoreType,
}

/// Tuning of a single search.
#[derive(Debug, Clone, Copy, PartialEq, Eq, Structural)]
pub enum SearchParams {
    /// Size of the candidate list of the graph search.
    Hnsw { ef: usize },
}

/// Whether a query hands back the payload of the points it finds.
#[derive(Debug, Clone, Copy, PartialEq, Eq, Structural)]
pub enum WithPayloadInterface {
    /// All of the payload, or none of it.
    Bool(bool),
}

/// What is known of one payload field.
#[derive(Debug, Clone, PartialEq, Eq)]
pub struct PayloadSchemaInfo {
    /// Name of the field.
    pub key: PayloadKeyType,
    /// Whether an index is kept over the field.
    pub indexed: bool,
}

/// A condition that holds of the points with one of the listed ids.
#[derive(Debug, Clone, PartialEq, Eq)]
pub struct HasIdCondition {
    pub has_id: Vec<PointIdType>,
}

/// A condition on a point.
#[derive(Debug, Clone, PartialEq, Eq)]
pub enum Condition {
    HasId(HasIdCondition),
}

/// A filter on points: every condition of `must` holds, at least one of
/// `should`, and none of `must_not`. A list that is `None` asks nothing.
#[derive(Debug, Clone, PartialEq, Eq)]
pub struct Filter {
    pub should: Option<Vec<Condition>>,
    pub must: Option<Vec<Condition>>,
    pub must_not: Option<Vec<Condition>>,
}

/// Some condition of `cs` holds of the point `id`.
pub open spec fn any_holds(cs: Seq<Condition>, id: PointIdType) -> bool {
    exists|i: int| 0 <= i < cs.len() && (#[trigger] cs[i]).holds(id)
}

/// Every condition of `cs` holds of the point `id`.
pub open spec fn all_hold(cs: Seq<Condition>, id: PointIdType) -> bool {
    forall|i: int| 0 <= i < cs.len() ==> (#[trigger] cs[i]).holds(id)
}

/// Whether the point `id` passes the filter, if there is one.
pub open spec fn passes(filter: Option<Filter>, id: PointIdType) -> bool {
    match filter {
        Some(f) => f.accepts(id),
        None => true,
    }
}

/// Whether `id` occurs in `ids`.
pub fn contains_id(ids: &Vec<PointIdType>, id: PointIdType) -> (b: bool)
    ensures
        b == ids@.contains(id),
{
    let mut i: usize = 0;
    while i < ids.len()
        invariant
            i <= ids@.len(),
            forall|k: int| 0 <= k < i ==> ids@[k] != id,
        decreases ids@.len() - i,
    {
        if ids[i] == id {
            return true;
        }
        i += 1;
    }
    false
}

impl Condition {
    /// Whether the condition holds of the point `id`.
    pub open spec fn holds(self, id: PointIdType) -> bool {
        match self {
            Condition::HasId(c) => c.has_id@.contains(id),
        }
    }

    /// Whether the condition holds of the point `id`.
    pub fn check(&self, id: PointIdType) -> (b: bool)
        ensures
            b == self.holds(id),
    {
        match self {
            Condition::HasId(c) => contains_id(&c.has_id, id),
        }
    }
}

fn check_any(cs: &Vec<Condition>, id: PointIdType) -> (b: bool)
    ensures
        b == any_holds(cs@, id),
{
    let mut i: usize = 0;
    while i < cs.len()
        invariant
            i <= cs@.len(),
            forall|k: int| 0 <= k < i ==> !(#[trigger] cs@[k]).holds(id),
        decreases cs@.len() - i,
    {
        if cs[i].check(id) {
            return true;
        }
        i += 1;
    }
    false
}

fn check_all(cs: &Vec<Condition>, id: PointIdType) -> (b: bool)
    ensures
        b == all_hold(cs@, id),
{
    let mut i: usize = 0;
    while i < cs.len()
        invariant
            i <= cs@.len(),
            forall|k: int| 0 <= k < i ==> (#[trigger] cs@[k]).holds(id),
        decreases cs@.len() - i,
    {
        if !cs[i].check(id) {
            return false;
        }
        i += 1;
    }
    true
}

impl Filter {
    /// Whether the point `id` passes the filter.
    pub open spec fn accepts(self, id: PointIdType) -> bool {
        &&& self.must matches Some(cs) ==> all_hold(cs@, id)
        &&& self.should matches Some(cs) ==> any_holds(cs@, id)
        &&& self.must_not matches Some(cs) ==> !any_holds(cs@, id)
    }

    /// Whether the point `id` passes the filter.
    pub fn check(&self, id: PointIdType) -> (b: bool)
        ensures
            b == self.accepts(id),
    {
        let must = match &self.must {
            Some(cs) => check_all(cs, id),
            None => true,
        };
        let should = match &self.should {
            Some(cs) => check_any(cs, id),
            None => true,
        };
        let must_not = match &self.must_not {
            Some(cs) => !check_any(cs, id),
            None => true,
        };
        must && should && must_not
    }
}

/// Whether the point `id` passes the filter, if there is one.
pub fn check_filter(filter: &Option<Filter>, id: PointIdType) -> (b: bool)
    ensures
        b == passes(*filter, id),
{
    match filter {
        Some(f) => f.check(id),
        None => true,
    }
}

/// What a segment keeps of one point, as mathematical values.
pub struct PointView {
    pub vector: Seq<VectorElementType>,
    pub payload: Option<Seq<u8>>,
}

/// The payload as a mathematical value.
pub open spec fn payload_view(payload: Option<Payload>) -> Option<Seq<u8>> {
    match payload {
        Some(bytes) => Some(bytes@),
        None => None,
    }
}

/// A copy of `v`.
pub fn copy_vec<T: Copy>(v: &Vec<T>) -> (r: Vec<T>)
    ensures
        r@ == v@,
{
    let mut r: Vec<T> = Vec::new();
    let mut i: usize = 0;
    while i < v.len()
        invariant
            i <= v.len(),
            r@ == v@.take(i as int),
        decreases v.len() - i,
    {
        r.push(v[i]);
        i += 1;
        assert(r@ =~= v@.take(i as int));
    }
    assert(v@.take(v.len() as int) =~= v@);
    r
}

/// Whether `a` and `b` hold the same items in the same order.
pub fn same_components(a: &Vec<VectorElementType>, b: &Vec<VectorElementType>) -> (same: bool)
    ensures
        same == (a@ == b@),
{
    if a.len() != b.len() {
        return false;
    }
    let mut i: usize = 0;
    while i < a.len()
        invariant
            i <= a@.len(),
            a@.len() == b@.len(),
            forall|k: int| 0 <= k < i ==> a@[k] == b@[k],
        decreases a@.len() - i,
    {
        if a[i] != b[i] {
            return false;
        }
        i += 1;
    }
    assert(a@ =~= b@);
    true
}

fn same_bytes(a: &Payload, b: &Payload) -> (same: bool)
    ensures
        same == (a@ == b@),
{
    if a.len() != b.len() {
        return false;
    }
    let mut i: usize = 0;
    while i < a.len()
        invariant
            i <= a@.len(),
            a@.len() == b@.len(),
            forall|k: int| 0 <= k < i ==> a@[k] == b@[k],
        decreases a@.len() - i,
    {
        if a[i] != b[i] {
            return false;
        }
        i += 1;
    }
    assert(a@ =~= b@);
    true
}

/// Whether `a` and `b` are the same payload.
pub fn same_payload(a: &Option<Payload>, b: &Option<Payload>) -> (same: bool)
    ensures
        same == (payload_view(*a) == payload_view(*b)),
{
    match a {
        None => b.is_none(),
        Some(x) => match b {
            None => false,
            Some(y) => same_bytes(x, y),
        },
    }
}

/// A copy of `payload`.
pub fn copy_payload(payload: &Option<Payload>) -> (r: Option<Payload>)
    ensures
        payload_view(r) == payload_view(*payload),
{
    match payload {
        Some(bytes) => Some(copy_vec(bytes)),
        None => None,
    }
}

} // verus!

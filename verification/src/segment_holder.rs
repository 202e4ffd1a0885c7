//! The segment holder: the registry that owns every segment of a collection.
//! No point lives in two segments, so the points of the collection are the
//! union of the points of its segments.

use vstd::prelude::*;
use vstd::string::*;
use crate::segment::entry_point::OperationError;
use crate::segment::segment::{upserted, Segment, StoredPoint};
use crate::operations::point_ops::{with_field, without_field};
use crate::segment::types::{
    payload_view, Distance, Payload, PayloadKeyType, PointIdType, PointView, SeqNumberType,
    VectorElementType,
};

verus! {

/// Identifier of a segment within its holder. An id is given out once.
pub type SegmentId = usize;

/// A segment under its id.
struct HeldSegment {
    id: SegmentId,
    segment: Segment,
}

/// The ids of `s` increase strictly.
spec fn ids_ascend(s: Seq<HeldSegment>) -> bool {
    forall|i: int, j: int| 0 <= i < j < s.len() ==> s[i].id < s[j].id
}

/// Some segment of `s` has the id `sid`.
spec fn has_id(s: Seq<HeldSegment>, sid: SegmentId) -> bool {
    exists|i: int| 0 <= i < s.len() && #[trigger] s[i].id == sid
}

/// The place of the segment with the id `sid` in `s`.
spec fn place_of_id(s: Seq<HeldSegment>, sid: SegmentId) -> int {
    choose|i: int| 0 <= i < s.len() && #[trigger] s[i].id == sid
}

/// The segments of `s`, by id.
spec fn slot_map(s: Seq<HeldSegment>) -> Map<SegmentId, Segment> {
    Map::new(|sid: SegmentId| has_id(s, sid), |sid: SegmentId| s[place_of_id(s, sid)].segment)
}

/// Where ids ascend, the segment at a place is the segment of its id.
proof fn lemma_slot_at(s: Seq<HeldSegment>, i: int)
    requires
        ids_ascend(s),
        0 <= i < s.len(),
    ensures
        has_id(s, s[i].id),
        place_of_id(s, s[i].id) == i,
        slot_map(s).contains_key(s[i].id),
        slot_map(s)[s[i].id] == s[i].segment,
{
    assert(has_id(s, s[i].id));
    let k = place_of_id(s, s[i].id);
    if k < i {
        assert(s[k].id < s[i].id);
    } else if i < k {
        assert(s[i].id < s[k].id);
    }
}

proof fn lemma_slot_push(s: Seq<HeldSegment>, slot: HeldSegment)
    requires
        ids_ascend(s),
        forall|i: int| 0 <= i < s.len() ==> s[i].id < slot.id,
    ensures
        ids_ascend(s.push(slot)),
        slot_map(s.push(slot)) == slot_map(s).insert(slot.id, slot.segment),
{
    let t = s.push(slot);
    let n = s.len() as int;
    assert(t[n] == slot);
    assert forall|sid: SegmentId| #[trigger]
        slot_map(t).contains_key(sid) == slot_map(s).insert(slot.id, slot.segment).contains_key(
            sid,
        ) by {
        if has_id(t, sid) {
            let k = place_of_id(t, sid);
            if k < n {
                assert(s[k].id == sid);
            }
        }
        if has_id(s, sid) {
            let k = place_of_id(s, sid);
            assert(t[k].id == sid);
        }
        if sid == slot.id {
            assert(t[n].id == sid);
        }
    }
    assert forall|sid: SegmentId| #[trigger] slot_map(t).contains_key(sid) implies slot_map(t)[sid]
        == slot_map(s).insert(slot.id, slot.segment)[sid] by {
        let k = place_of_id(t, sid);
        lemma_slot_at(t, k);
        if k < n {
            assert(t[k] == s[k]);
            lemma_slot_at(s, k);
        }
    }
    assert(slot_map(t) =~= slot_map(s).insert(slot.id, slot.segment));
}

proof fn lemma_slot_remove(s: Seq<HeldSegment>, k: int)
    requires
        ids_ascend(s),
        0 <= k < s.len(),
    ensures
        ids_ascend(s.remove(k)),
        slot_map(s.remove(k)) == slot_map(s).remove(s[k].id),
{
    let t = s.remove(k);
    assert(ids_ascend(t)) by {
        assert forall|i: int, j: int| 0 <= i < j < t.len() implies t[i].id < t[j].id by {
            let a = if i < k { i } else { i + 1 };
            let b = if j < k { j } else { j + 1 };
            assert(t[i] == s[a] && t[j] == s[b]);
        }
    }
    assert forall|sid: SegmentId| #[trigger]
        slot_map(t).contains_key(sid) == slot_map(s).remove(s[k].id).contains_key(sid) by {
        if has_id(t, sid) {
            let i = place_of_id(t, sid);
            let a = if i < k { i } else { i + 1 };
            assert(t[i] == s[a]);
            assert(s[a].id == sid);
            if a < k {
                assert(s[a].id < s[k].id);
            } else {
                assert(s[k].id < s[a].id);
            }
        }
        if has_id(s, sid) && sid != s[k].id {
            let a = place_of_id(s, sid);
            let i = if a < k { a } else { a - 1 };
            assert(t[i] == s[a]);
            assert(t[i].id == sid);
        }
    }
    assert forall|sid: SegmentId| #[trigger] slot_map(t).contains_key(sid) implies slot_map(t)[sid]
        == slot_map(s).remove(s[k].id)[sid] by {
        let i = place_of_id(t, sid);
        lemma_slot_at(t, i);
        let a = if i < k { i } else { i + 1 };
        assert(t[i] == s[a]);
        lemma_slot_at(s, a);
    }
    assert(slot_map(t) =~= slot_map(s).remove(s[k].id));
}

proof fn lemma_slot_update(s: Seq<HeldSegment>, t: Seq<HeldSegment>, k: int)
    requires
        ids_ascend(s),
        0 <= k < s.len(),
        t.len() == s.len(),
        forall|j: int| 0 <= j < s.len() && j != k ==> t[j] == s[j],
        t[k].id == s[k].id,
    ensures
        ids_ascend(t),
        slot_map(t) == slot_map(s).insert(s[k].id, t[k].segment),
{
    assert(ids_ascend(t)) by {
        assert forall|i: int, j: int| 0 <= i < j < t.len() implies t[i].id < t[j].id by {
            assert(t[i].id == s[i].id && t[j].id == s[j].id);
        }
    }
    assert forall|sid: SegmentId| #[trigger]
        slot_map(t).contains_key(sid) == slot_map(s).insert(s[k].id, t[k].segment).contains_key(
            sid,
        ) by {
        if has_id(t, sid) {
            let i = place_of_id(t, sid);
            assert(s[i].id == sid);
        }
        if has_id(s, sid) {
            let i = place_of_id(s, sid);
            assert(t[i].id == sid);
        }
        if sid == s[k].id {
            assert(t[k].id == sid);
        }
    }
    assert forall|sid: SegmentId| #[trigger] slot_map(t).contains_key(sid) implies slot_map(t)[sid]
        == slot_map(s).insert(s[k].id, t[k].segment)[sid] by {
        let i = place_of_id(t, sid);
        lemma_slot_at(t, i);
        if i != k {
            assert(t[i] == s[i]);
            lemma_slot_at(s, i);
        }
    }
    assert(slot_map(t) =~= slot_map(s).insert(s[k].id, t[k].segment));
}

/// The segment `sid` of `m` holds the point `id`.
pub open spec fn seg_holds(m: Map<SegmentId, Segment>, sid: SegmentId, id: PointIdType) -> bool {
    m.contains_key(sid) && m[sid]@.contains_key(id)
}

/// Some segment of `m` holds the point `id`.
pub open spec fn held(m: Map<SegmentId, Segment>, id: PointIdType) -> bool {
    exists|sid: SegmentId| seg_holds(m, sid, id)
}

/// The id of the segment of `m` that holds the point `id`.
pub open spec fn owner(m: Map<SegmentId, Segment>, id: PointIdType) -> SegmentId {
    choose|sid: SegmentId| seg_holds(m, sid, id)
}

/// No point is in two segments of `m`.
pub open spec fn disjoint(m: Map<SegmentId, Segment>) -> bool {
    forall|a: SegmentId, b: SegmentId, id: PointIdType|
        seg_holds(m, a, id) && seg_holds(m, b, id) ==> a == b
}

/// The points of all segments of `m`, by id.
pub open spec fn union_of(m: Map<SegmentId, Segment>) -> Map<PointIdType, PointView> {
    Map::new(|id: PointIdType| held(m, id), |id: PointIdType| m[owner(m, id)]@[id])
}

/// Where no point is in two segments, a point that a segment holds is a point
/// of the union, with the data that the segment has for it.
pub proof fn lemma_owner(m: Map<SegmentId, Segment>, sid: SegmentId, id: PointIdType)
    requires
        disjoint(m),
        seg_holds(m, sid, id),
    ensures
        held(m, id),
        owner(m, id) == sid,
        union_of(m).contains_key(id),
        union_of(m)[id] == m[sid]@[id],
{
    assert(seg_holds(m, owner(m, id), id));
}

/// A point of the union is held by the segment that owns it.
pub proof fn lemma_held(m: Map<SegmentId, Segment>, id: PointIdType)
    requires
        union_of(m).contains_key(id),
    ensures
        seg_holds(m, owner(m, id), id),
        union_of(m)[id] == m[owner(m, id)]@[id],
{
}

/// A point put into one segment, and held by no other, is put into the union.
proof fn lemma_union_changed_insert(
    m: Map<SegmentId, Segment>,
    sid: SegmentId,
    changed: Segment,
    id: PointIdType,
    data: PointView,
)
    requires
        disjoint(m),
        m.contains_key(sid),
        changed@ == m[sid]@.insert(id, data),
        forall|other: SegmentId| other != sid ==> !seg_holds(m, other, id),
    ensures
        disjoint(m.insert(sid, changed)),
        union_of(m.insert(sid, changed)) == union_of(m).insert(id, data),
{
    let t = m.insert(sid, changed);
    assert forall|a: SegmentId, b: SegmentId, p: PointIdType|
        seg_holds(t, a, p) && seg_holds(t, b, p) implies a == b by {
        if p != id {
            assert(seg_holds(m, a, p) && seg_holds(m, b, p));
        } else {
            if a != sid {
                assert(seg_holds(m, a, p));
            }
            if b != sid {
                assert(seg_holds(m, b, p));
            }
        }
    }
    assert(seg_holds(t, sid, id));
    assert forall|p: PointIdType| #[trigger]
        union_of(t).contains_key(p) == union_of(m).insert(id, data).contains_key(p) by {
        if held(t, p) && p != id {
            assert(seg_holds(m, owner(t, p), p));
        }
        if held(m, p) && p != id {
            assert(seg_holds(t, owner(m, p), p));
        }
    }
    assert forall|p: PointIdType| #[trigger] union_of(t).contains_key(p) implies union_of(t)[p]
        == union_of(m).insert(id, data)[p] by {
        let a = owner(t, p);
        assert(seg_holds(t, a, p));
        if p != id {
            assert(seg_holds(m, a, p));
            lemma_owner(m, a, p);
        } else {
            lemma_owner(t, sid, p);
        }
    }
    assert(union_of(t) =~= union_of(m).insert(id, data));
}

/// A point taken out of the one segment that can hold it is taken out of the
/// union.
proof fn lemma_union_changed_remove(
    m: Map<SegmentId, Segment>,
    sid: SegmentId,
    changed: Segment,
    id: PointIdType,
)
    requires
        disjoint(m),
        m.contains_key(sid),
        changed@ == m[sid]@.remove(id),
        forall|other: SegmentId| other != sid ==> !seg_holds(m, other, id),
    ensures
        disjoint(m.insert(sid, changed)),
        union_of(m.insert(sid, changed)) == union_of(m).remove(id),
{
    let t = m.insert(sid, changed);
    assert forall|a: SegmentId, b: SegmentId, p: PointIdType|
        seg_holds(t, a, p) && seg_holds(t, b, p) implies a == b by {
        assert(seg_holds(m, a, p) && seg_holds(m, b, p));
    }
    assert forall|p: PointIdType| #[trigger]
        union_of(t).contains_key(p) == union_of(m).remove(id).contains_key(p) by {
        if held(t, p) {
            let a = owner(t, p);
            assert(seg_holds(m, a, p));
            if p == id {
                assert(a == sid);
            }
        }
        if held(m, p) && p != id {
            assert(seg_holds(t, owner(m, p), p));
        }
    }
    assert forall|p: PointIdType| #[trigger] union_of(t).contains_key(p) implies union_of(t)[p]
        == union_of(m).remove(id)[p] by {
        let a = owner(t, p);
        assert(seg_holds(t, a, p));
        assert(seg_holds(m, a, p));
        lemma_owner(m, a, p);
    }
    assert(union_of(t) =~= union_of(m).remove(id));
}

/// Changing a segment without changing its points changes no point of the
/// union.
proof fn lemma_union_same(m: Map<SegmentId, Segment>, sid: SegmentId, changed: Segment)
    requires
        disjoint(m),
        m.contains_key(sid),
        changed@ == m[sid]@,
    ensures
        disjoint(m.insert(sid, changed)),
        union_of(m.insert(sid, changed)) == union_of(m),
{
    let t = m.insert(sid, changed);
    assert forall|a: SegmentId, b: SegmentId, p: PointIdType|
        seg_holds(t, a, p) && seg_holds(t, b, p) implies a == b by {
        assert(seg_holds(m, a, p) && seg_holds(m, b, p));
    }
    assert forall|p: PointIdType| #[trigger]
        union_of(t).contains_key(p) == union_of(m).contains_key(p) by {
        if held(t, p) {
            assert(seg_holds(m, owner(t, p), p));
        }
        if held(m, p) {
            assert(seg_holds(t, owner(m, p), p));
        }
    }
    assert forall|p: PointIdType| #[trigger] union_of(t).contains_key(p) implies union_of(t)[p]
        == union_of(m)[p] by {
        let a = owner(t, p);
        assert(seg_holds(t, a, p));
        assert(seg_holds(m, a, p));
        lemma_owner(m, a, p);
    }
    assert(union_of(t) =~= union_of(m));
}

/// A new segment that shares no point with the others adds its points to the
/// union.
pub proof fn lemma_union_added(m: Map<SegmentId, Segment>, sid: SegmentId, segment: Segment)
    requires
        disjoint(m),
        !m.contains_key(sid),
        forall|p: PointIdType| !(held(m, p) && segment@.contains_key(p)),
    ensures
        disjoint(m.insert(sid, segment)),
        union_of(m.insert(sid, segment)) == union_of(m).union_prefer_right(segment@),
{
    let t = m.insert(sid, segment);
    assert forall|a: SegmentId, b: SegmentId, p: PointIdType|
        seg_holds(t, a, p) && seg_holds(t, b, p) implies a == b by {
        if a != sid {
            assert(seg_holds(m, a, p));
            assert(held(m, p));
        }
        if b != sid {
            assert(seg_holds(m, b, p));
            assert(held(m, p));
        }
    }
    assert forall|p: PointIdType| #[trigger]
        union_of(t).contains_key(p) == union_of(m).union_prefer_right(segment@).contains_key(
            p,
        ) by {
        if held(t, p) {
            let a = owner(t, p);
            if a != sid {
                assert(seg_holds(m, a, p));
            }
        }
        if held(m, p) {
            assert(seg_holds(t, owner(m, p), p));
        }
        if segment@.contains_key(p) {
            assert(seg_holds(t, sid, p));
        }
    }
    assert forall|p: PointIdType| #[trigger] union_of(t).contains_key(p) implies union_of(t)[p]
        == union_of(m).union_prefer_right(segment@)[p] by {
        let a = owner(t, p);
        assert(seg_holds(t, a, p));
        if a != sid {
            assert(seg_holds(m, a, p));
            assert(held(m, p));
            lemma_owner(m, a, p);
        }
    }
    assert(union_of(t) =~= union_of(m).union_prefer_right(segment@));
}

/// A segment that is taken away takes its points out of the union.
proof fn lemma_union_removed(m: Map<SegmentId, Segment>, sid: SegmentId)
    requires
        disjoint(m),
        m.contains_key(sid),
    ensures
        disjoint(m.remove(sid)),
        union_of(m.remove(sid)) == union_of(m).remove_keys(m[sid]@.dom()),
{
    let t = m.remove(sid);
    assert forall|a: SegmentId, b: SegmentId, p: PointIdType|
        seg_holds(t, a, p) && seg_holds(t, b, p) implies a == b by {
        assert(seg_holds(m, a, p) && seg_holds(m, b, p));
    }
    assert forall|p: PointIdType| #[trigger]
        union_of(t).contains_key(p) == union_of(m).remove_keys(m[sid]@.dom()).contains_key(
            p,
        ) by {
        if held(t, p) {
            let a = owner(t, p);
            assert(seg_holds(m, a, p));
            if m[sid]@.contains_key(p) {
                assert(seg_holds(m, sid, p));
            }
        }
        if held(m, p) && !m[sid]@.contains_key(p) {
            assert(seg_holds(t, owner(m, p), p));
        }
    }
    assert forall|p: PointIdType| #[trigger] union_of(t).contains_key(p) implies union_of(t)[p]
        == union_of(m).remove_keys(m[sid]@.dom())[p] by {
        let a = owner(t, p);
        assert(seg_holds(t, a, p));
        assert(seg_holds(m, a, p));
        lemma_owner(m, a, p);
    }
    assert(union_of(t) =~= union_of(m).remove_keys(m[sid]@.dom()));
}

/// Putting one segment that holds the points of some segments in their place
/// changes no point of the union.
pub proof fn lemma_union_swapped(
    m: Map<SegmentId, Segment>,
    ids: Set<SegmentId>,
    sid: SegmentId,
    segment: Segment,
)
    requires
        disjoint(m),
        !m.contains_key(sid),
        segment@ == union_of(m.restrict(ids)),
    ensures
        disjoint(m.remove_keys(ids).insert(sid, segment)),
        union_of(m.remove_keys(ids).insert(sid, segment)) == union_of(m),
{
    let r = m.restrict(ids);
    let t = m.remove_keys(ids).insert(sid, segment);
    assert forall|a: SegmentId, b: SegmentId, p: PointIdType|
        seg_holds(t, a, p) && seg_holds(t, b, p) implies a == b by {
        if a == sid && b != sid {
            assert(held(r, p));
            assert(seg_holds(r, owner(r, p), p));
            assert(seg_holds(m, owner(r, p), p) && seg_holds(m, b, p));
        } else if b == sid && a != sid {
            assert(held(r, p));
            assert(seg_holds(r, owner(r, p), p));
            assert(seg_holds(m, owner(r, p), p) && seg_holds(m, a, p));
        } else if a != sid && b != sid {
            assert(seg_holds(m, a, p) && seg_holds(m, b, p));
        }
    }
    assert forall|p: PointIdType| #[trigger]
        union_of(t).contains_key(p) == union_of(m).contains_key(p) by {
        if held(t, p) {
            let a = owner(t, p);
            assert(seg_holds(t, a, p));
            if a == sid {
                assert(held(r, p));
                assert(seg_holds(r, owner(r, p), p));
                assert(seg_holds(m, owner(r, p), p));
            } else {
                assert(seg_holds(m, a, p));
            }
        }
        if held(m, p) {
            let a = owner(m, p);
            assert(seg_holds(m, a, p));
            if ids.contains(a) {
                assert(seg_holds(r, a, p));
                assert(held(r, p));
                assert(seg_holds(t, sid, p));
            } else {
                assert(seg_holds(t, a, p));
            }
        }
    }
    assert forall|p: PointIdType| #[trigger] union_of(t).contains_key(p) implies union_of(t)[p]
        == union_of(m)[p] by {
        let a = owner(t, p);
        assert(seg_holds(t, a, p));
        if a == sid {
            assert(held(r, p));
            let b = owner(r, p);
            assert(seg_holds(r, b, p));
            assert(seg_holds(m, b, p));
            lemma_owner(m, b, p);
        } else {
            assert(seg_holds(m, a, p));
            lemma_owner(m, a, p);
        }
    }
    assert(union_of(t) =~= union_of(m));
}

/// The number of points in the segments of `s`, each segment counted for
/// itself.
spec fn count_points(s: Seq<HeldSegment>) -> nat
    decreases s.len(),
{
    if s.len() == 0 {
        0
    } else {
        count_points(s.drop_last()) + s.last().segment@.dom().len()
    }
}

/// Where no point is in two segments, the segments together hold as many
/// points as their union.
proof fn lemma_count_points(s: Seq<HeldSegment>)
    requires
        ids_ascend(s),
        disjoint(slot_map(s)),
        forall|i: int| 0 <= i < s.len() ==> (#[trigger] s[i]).segment.wf(),
    ensures
        union_of(slot_map(s)).dom().finite(),
        union_of(slot_map(s)).dom().len() == count_points(s),
    decreases s.len(),
{
    if s.len() == 0 {
        assert(union_of(slot_map(s)).dom() =~= Set::<PointIdType>::empty()) by {
            assert forall|p: PointIdType| !held(slot_map(s), p) by {
                if held(slot_map(s), p) {
                    let a = owner(slot_map(s), p);
                    assert(seg_holds(slot_map(s), a, p));
                    let k = place_of_id(s, a);
                }
            }
        }
    } else {
        let t = s.drop_last();
        let last = s.last();
        let mt = slot_map(t);
        let ms = slot_map(s);
        assert(s =~= t.push(last));
        assert(ids_ascend(t));
        lemma_slot_push(t, last);
        lemma_slot_at(s, s.len() - 1);
        assert(!mt.contains_key(last.id)) by {
            if has_id(t, last.id) {
                let k = place_of_id(t, last.id);
                assert(s[k].id < s[s.len() - 1].id);
            }
        }
        assert(disjoint(mt)) by {
            assert forall|a: SegmentId, b: SegmentId, p: PointIdType|
                seg_holds(mt, a, p) && seg_holds(mt, b, p) implies a == b by {
                assert(seg_holds(ms, a, p) && seg_holds(ms, b, p));
            }
        }
        assert forall|p: PointIdType| !(held(mt, p) && last.segment@.contains_key(p)) by {
            if held(mt, p) && last.segment@.contains_key(p) {
                let a = owner(mt, p);
                assert(seg_holds(mt, a, p));
                assert(seg_holds(ms, a, p) && seg_holds(ms, last.id, p));
            }
        }
        lemma_union_added(mt, last.id, last.segment);
        lemma_count_points(t);
        last.segment.lemma_wf();
        let a = union_of(mt).dom();
        let b = last.segment@.dom();
        assert(union_of(ms).dom() =~= a + b);
        assert(a.disjoint(b)) by {
            assert forall|p: PointIdType| a.contains(p) implies !b.contains(p) by {
                assert(held(mt, p));
            }
        }
        vstd::set_lib::lemma_set_union_finite_iff(a, b);
        vstd::set_lib::lemma_set_disjoint_lens(a, b);
    }
}

/// The first `i + 1` items of `s` are its first `i` items and `s[i]`.
pub proof fn lemma_take_to_set<T>(s: Seq<T>, i: int)
    requires
        0 <= i < s.len(),
    ensures
        s.take(i + 1).to_set() == s.take(i).to_set().insert(s[i]),
{
    let a = s.take(i + 1);
    let b = s.take(i);
    assert forall|x: T| a.to_set().contains(x) == b.to_set().insert(s[i]).contains(x) by {
        if a.contains(x) {
            let j = choose|j: int| 0 <= j < a.len() && a[j] == x;
            if j < i {
                assert(b[j] == x);
            }
        }
        if b.contains(x) {
            let j = choose|j: int| 0 <= j < b.len() && b[j] == x;
            assert(a[j] == x);
        }
        if x == s[i] {
            assert(a[i] == x);
        }
    }
    assert(a.to_set() =~= b.to_set().insert(s[i]));
}

/// Whether `sid` occurs in `ids`.
pub fn contains_segment_id(ids: &Vec<SegmentId>, sid: SegmentId) -> (b: bool)
    ensures
        b == ids@.contains(sid),
{
    let mut i: usize = 0;
    while i < ids.len()
        invariant
            i <= ids@.len(),
            forall|k: int| 0 <= k < i ==> ids@[k] != sid,
        decreases ids@.len() - i,
    {
        if ids[i] == sid {
            return true;
        }
        i += 1;
    }
    false
}

/// The registry of segments. Every segment stores vectors of the holder's
/// dimension under the holder's distance.
pub struct SegmentHolder {
    dim: usize,
    distance: Distance,
    next_id: SegmentId,
    slots: Vec<HeldSegment>,
    indexed_fields: Vec<PayloadKeyType>,
}

/// The names as mathematical values.
pub open spec fn field_names(fields: Seq<PayloadKeyType>) -> Seq<Seq<char>> {
    fields.map_values(|name: PayloadKeyType| name@)
}

impl View for SegmentHolder {
    type V = Map<SegmentId, Segment>;

    /// The segments of the holder, by id.
    closed spec fn view(&self) -> Map<SegmentId, Segment> {
        slot_map(self.slots@)
    }
}

impl SegmentHolder {
    /// The invariant of the holder: segment ids ascend and were all given out
    /// by this holder, every segment is well formed and of the holder's
    /// dimension and distance, and no point is in two segments.
    pub closed spec fn wf(&self) -> bool {
        &&& ids_ascend(self.slots@)
        &&& forall|i: int| 0 <= i < self.slots@.len() ==> self.slots@[i].id < self.next_id
        &&& forall|i: int|
            0 <= i < self.slots@.len() ==> {
                &&& (#[trigger] self.slots@[i]).segment.wf()
                &&& self.slots@[i].segment.spec_dim() == self.dim
                &&& self.slots@[i].segment.spec_distance() == self.distance
            }
        &&& disjoint(self@)
    }

    /// The points of the collection, by id.
    pub open spec fn points(&self) -> Map<PointIdType, PointView> {
        union_of(self@)
    }

    /// The points of the segments whose id is in `ids`.
    pub open spec fn points_within(&self, ids: Set<SegmentId>) -> Map<PointIdType, PointView> {
        union_of(self@.restrict(ids))
    }

    /// The ids of the segments, ascending.
    pub closed spec fn segment_ids(&self) -> Seq<SegmentId> {
        Seq::new(self.slots@.len(), |i: int| self.slots@[i].id)
    }

    /// The payload fields over which an index is kept, in the order in which
    /// their indexes were asked for.
    pub closed spec fn field_indexes(&self) -> Seq<Seq<char>> {
        field_names(self.indexed_fields@)
    }

    /// The dimension of the vectors that the holder's segments store.
    pub closed spec fn spec_dim(&self) -> usize {
        self.dim
    }

    /// How the holder's segments measure similarity.
    pub closed spec fn spec_distance(&self) -> Distance {
        self.distance
    }

    /// The id that the next added segment gets.
    pub closed spec fn spec_next_id(&self) -> SegmentId {
        self.next_id
    }

    /// No segment has absorbed an operation numbered above `op_num`.
    pub open spec fn applied_through(&self, op_num: SeqNumberType) -> bool {
        forall|sid: SegmentId| #[trigger]
            self@.contains_key(sid) ==> self@[sid].spec_version() <= op_num
    }

    /// Holders with the same segments hold the same points and have absorbed
    /// the same operations.
    pub proof fn lemma_same_points(&self, other: &SegmentHolder)
        requires
            self@ == other@,
        ensures
            self.points() == other.points(),
            forall|op_num: SeqNumberType|
                other.applied_through(op_num) ==> self.applied_through(op_num),
    {
    }

    /// What the invariant says of the views.
    pub proof fn lemma_wf(&self)
        requires
            self.wf(),
        ensures
            disjoint(self@),
            forall|sid: SegmentId| #[trigger]
                self@.contains_key(sid) ==> {
                    &&& sid < self.spec_next_id()
                    &&& self@[sid].wf()
                    &&& self@[sid].spec_dim() == self.spec_dim()
                    &&& self@[sid].spec_distance() == self.spec_distance()
                },
            forall|i: int, j: int|
                0 <= i < j < self.segment_ids().len() ==> self.segment_ids()[i]
                    < self.segment_ids()[j],
            forall|i: int|
                0 <= i < self.segment_ids().len() ==> self@.contains_key(
                    #[trigger] self.segment_ids()[i],
                ),
            forall|sid: SegmentId| #[trigger]
                self@.contains_key(sid) ==> self.segment_ids().contains(sid),
            forall|id: PointIdType| #[trigger]
                self.points().contains_key(id) ==> self.points()[id].vector.len()
                    == self.spec_dim(),
    {
        let s = self.slots@;
        assert forall|sid: SegmentId| #[trigger] self@.contains_key(sid) implies {
            &&& sid < self.spec_next_id()
            &&& self@[sid].wf()
            &&& self@[sid].spec_dim() == self.spec_dim()
            &&& self@[sid].spec_distance() == self.spec_distance()
            &&& self.segment_ids().contains(sid)
        } by {
            let k = place_of_id(s, sid);
            lemma_slot_at(s, k);
            assert(s[k].segment.wf());
            assert(self.segment_ids()[k] == sid);
        }
        assert forall|i: int| 0 <= i < self.segment_ids().len() implies self@.contains_key(
            #[trigger] self.segment_ids()[i],
        ) by {
            lemma_slot_at(s, i);
        }
        assert forall|id: PointIdType| #[trigger]
            self.points().contains_key(id) implies self.points()[id].vector.len()
            == self.spec_dim() by {
            lemma_held(self@, id);
            let sid = owner(self@, id);
            self@[sid].lemma_wf();
        }
    }

    /// A holder without segments, for vectors of dimension `dim`.
    pub fn new(dim: usize, distance: Distance) -> (holder: SegmentHolder)
        ensures
            holder.wf(),
            holder@ == Map::<SegmentId, Segment>::empty(),
            holder.segment_ids() == Seq::<SegmentId>::empty(),
            holder.points() == Map::<PointIdType, PointView>::empty(),
            holder.spec_dim() == dim,
            holder.spec_distance() == distance,
            holder.spec_next_id() == 0,
            holder.field_indexes() == Seq::<Seq<char>>::empty(),
    {
        let holder = SegmentHolder {
            dim,
            distance,
            next_id: 0,
            slots: Vec::new(),
            indexed_fields: Vec::new(),
        };
        assert(holder.field_indexes() =~= Seq::<Seq<char>>::empty());
        assert(holder@ =~= Map::<SegmentId, Segment>::empty());
        assert(holder.segment_ids() =~= Seq::<SegmentId>::empty());
        assert(holder.points() =~= Map::<PointIdType, PointView>::empty()) by {
            assert forall|id: PointIdType| !held(holder@, id) by {
                if held(holder@, id) {
                    assert(seg_holds(holder@, owner(holder@, id), id));
                }
            }
        }
        holder
    }

    /// The dimension of the vectors that the holder's segments store.
    #[verifier::when_used_as_spec(spec_dim)]
    pub fn dim(&self) -> (d: usize)
        ensures
            d == self.spec_dim(),
    {
        self.dim
    }

    /// How the holder's segments measure similarity.
    #[verifier::when_used_as_spec(spec_distance)]
    pub fn distance(&self) -> (d: Distance)
        ensures
            d == self.spec_distance(),
    {
        self.distance
    }

    /// The number of segments.
    pub fn len(&self) -> (n: usize)
        ensures
            n == self.segment_ids().len(),
    {
        self.slots.len()
    }

    /// Whether an id is left for another segment.
    pub fn has_spare_id(&self) -> (b: bool)
        ensures
            b == (self.spec_next_id() < usize::MAX),
    {
        self.next_id < usize::MAX
    }

    /// The ids of the segments, ascending.
    pub fn ids(&self) -> (ids: Vec<SegmentId>)
        ensures
            ids@ == self.segment_ids(),
    {
        let mut ids: Vec<SegmentId> = Vec::new();
        let mut i: usize = 0;
        while i < self.slots.len()
            invariant
                i <= self.slots@.len(),
                ids@ == self.segment_ids().take(i as int),
            decreases self.slots@.len() - i,
        {
            ids.push(self.slots[i].id);
            i += 1;
            assert(ids@ =~= self.segment_ids().take(i as int));
        }
        assert(self.segment_ids().take(i as int) =~= self.segment_ids());
        ids
    }

    /// The segment at place `i` of the ascending order of ids, with its id.
    pub fn at(&self, i: usize) -> (r: (SegmentId, &Segment))
        requires
            self.wf(),
            i < self.segment_ids().len(),
        ensures
            r.0 == self.segment_ids()[i as int],
            self@.contains_key(r.0),
            *r.1 == self@[r.0],
    {
        proof {
            lemma_slot_at(self.slots@, i as int);
        }
        (self.slots[i].id, &self.slots[i].segment)
    }

    /// The place of the segment with the id `sid`.
    fn place(&self, sid: SegmentId) -> (r: Option<usize>)
        requires
            self.wf(),
        ensures
            match r {
                Some(k) => k < self.slots@.len() && self.slots@[k as int].id == sid
                    && self@.contains_key(sid) && self@[sid] == self.slots@[k as int].segment,
                None => !self@.contains_key(sid),
            },
    {
        let mut i: usize = 0;
        while i < self.slots.len()
            invariant
                self.wf(),
                i <= self.slots@.len(),
                forall|j: int| 0 <= j < i ==> self.slots@[j].id != sid,
            decreases self.slots@.len() - i,
        {
            if self.slots[i].id == sid {
                proof {
                    lemma_slot_at(self.slots@, i as int);
                }
                return Some(i);
            }
            i += 1;
        }
        proof {
            if has_id(self.slots@, sid) {
                let k = place_of_id(self.slots@, sid);
                assert(self.slots@[k].id == sid);
            }
        }
        None
    }

    /// The segment with the id `sid`, if the holder has it.
    pub fn get(&self, sid: SegmentId) -> (r: Option<&Segment>)
        requires
            self.wf(),
        ensures
            match r {
                Some(segment) => self@.contains_key(sid) && *segment == self@[sid],
                None => !self@.contains_key(sid),
            },
    {
        match self.place(sid) {
            Some(k) => Some(&self.slots[k].segment),
            None => None,
        }
    }

    /// The place of the segment that holds the point `id`.
    fn owner_of(&self, id: PointIdType) -> (r: Option<usize>)
        requires
            self.wf(),
        ensures
            match r {
                Some(k) => k < self.slots@.len() && seg_holds(
                    self@,
                    self.slots@[k as int].id,
                    id,
                ) && self@[self.slots@[k as int].id] == self.slots@[k as int].segment,
                None => !held(self@, id),
            },
    {
        let mut i: usize = 0;
        while i < self.slots.len()
            invariant
                self.wf(),
                i <= self.slots@.len(),
                forall|j: int| 0 <= j < i ==> !self.slots@[j].segment@.contains_key(id),
            decreases self.slots@.len() - i,
        {
            if self.slots[i].segment.has_point(id) {
                proof {
                    lemma_slot_at(self.slots@, i as int);
                }
                return Some(i);
            }
            i += 1;
        }
        proof {
            if held(self@, id) {
                let sid = owner(self@, id);
                assert(seg_holds(self@, sid, id));
                let k = place_of_id(self.slots@, sid);
                lemma_slot_at(self.slots@, k);
            }
        }
        None
    }

    /// Whether some segment holds the point `id`.
    pub fn has_point(&self, id: PointIdType) -> (b: bool)
        requires
            self.wf(),
        ensures
            b == self.points().contains_key(id),
    {
        self.owner_of(id).is_some()
    }

    /// The point `id`, if some segment holds it.
    pub fn get_point(&self, id: PointIdType) -> (r: Option<&StoredPoint>)
        requires
            self.wf(),
        ensures
            match r {
                Some(point) => self.points().contains_key(id) && point.id == id && point@
                    == self.points()[id],
                None => !self.points().contains_key(id),
            },
    {
        match self.owner_of(id) {
            Some(k) => {
                proof {
                    lemma_owner(self@, self.slots@[k as int].id, id);
                }
                self.slots[k].segment.get(id)
            },
            None => None,
        }
    }

    /// Adds `segment` under a new id, above every id given out before.
    pub fn add(&mut self, segment: Segment) -> (sid: SegmentId)
        requires
            old(self).wf(),
            segment.wf(),
            segment.spec_dim() == old(self).spec_dim(),
            segment.spec_distance() == old(self).spec_distance(),
            old(self).spec_next_id() < usize::MAX,
            forall|p: PointIdType|
                !(old(self).points().contains_key(p) && segment@.contains_key(p)),
        ensures
            final(self).wf(),
            sid == old(self).spec_next_id(),
            final(self).spec_next_id() == sid + 1,
            final(self).spec_dim() == old(self).spec_dim(),
            final(self).spec_distance() == old(self).spec_distance(),
            final(self).field_indexes() == old(self).field_indexes(),
            final(self)@ == old(self)@.insert(sid, segment),
            final(self).segment_ids() == old(self).segment_ids().push(sid),
            final(self).points() == old(self).points().union_prefer_right(segment@),
    {
        let sid = self.next_id;
        let slot = HeldSegment { id: sid, segment };
        proof {
            lemma_slot_push(self.slots@, slot);
            assert(!self@.contains_key(sid)) by {
                if has_id(self.slots@, sid) {
                    let k = place_of_id(self.slots@, sid);
                    assert(self.slots@[k].id < self.next_id);
                }
            }
            lemma_union_added(self@, sid, segment);
        }
        self.slots.push(slot);
        self.next_id = sid + 1;
        assert(self.segment_ids() =~= old(self).segment_ids().push(sid));
        sid
    }

    /// Takes the segment with the id `sid` out of the holder and hands it
    /// back. The id is not given out again.
    pub fn remove(&mut self, sid: SegmentId) -> (r: Option<Segment>)
        requires
            old(self).wf(),
        ensures
            final(self).wf(),
            final(self).spec_next_id() == old(self).spec_next_id(),
            final(self).spec_dim() == old(self).spec_dim(),
            final(self).spec_distance() == old(self).spec_distance(),
            final(self).field_indexes() == old(self).field_indexes(),
            final(self)@ == old(self)@.remove(sid),
            match r {
                Some(segment) => {
                    &&& old(self)@.contains_key(sid)
                    &&& segment == old(self)@[sid]
                    &&& final(self).points() == old(self).points().remove_keys(segment@.dom())
                },
                None => !old(self)@.contains_key(sid) && *final(self) == *old(self),
            },
    {
        match self.place(sid) {
            Some(k) => {
                proof {
                    lemma_slot_remove(self.slots@, k as int);
                    lemma_union_removed(self@, sid);
                }
                let slot = self.slots.remove(k);
                assert forall|i: int| 0 <= i < self.slots@.len() implies {
                    &&& (#[trigger] self.slots@[i]).segment.wf()
                    &&& self.slots@[i].id < self.next_id
                    &&& self.slots@[i].segment.spec_dim() == self.dim
                    &&& self.slots@[i].segment.spec_distance() == self.distance
                } by {
                    let a = if i < k { i } else { i + 1 };
                    assert(self.slots@[i] == old(self).slots@[a]);
                }
                Some(slot.segment)
            },
            None => {
                assert(self@ =~= old(self)@.remove(sid));
                None
            },
        }
    }
    /// The place of the segment that takes the points which no segment holds
    /// yet: the one with the fewest points, the oldest among equals.
    fn write_target(&self) -> (r: Option<usize>)
        requires
            self.wf(),
        ensures
            match r {
                Some(k) => k < self.slots@.len(),
                None => self.slots@.len() == 0,
            },
    {
        if self.slots.len() == 0 {
            return None;
        }
        let mut best: usize = 0;
        let mut least: usize = self.slots[0].segment.points_count();
        let mut i: usize = 1;
        while i < self.slots.len()
            invariant
                self.wf(),
                1 <= i <= self.slots@.len(),
                best < self.slots@.len(),
            decreases self.slots@.len() - i,
        {
            let count = self.slots[i].segment.points_count();
            if count < least {
                best = i;
                least = count;
            }
            i += 1;
        }
        Some(best)
    }

    /// Inserts the point into the segment that holds it or, if none does, into
    /// the least loaded segment; replaces its vector and, where one is
    /// offered, its payload. Refuses a vector of the wrong dimension, and any
    /// point while the holder has no segment.
    pub fn upsert_point(
        &mut self,
        op_num: SeqNumberType,
        id: PointIdType,
        vector: Vec<VectorElementType>,
        payload: Option<Payload>,
    ) -> (r: Result<bool, OperationError>)
        requires
            old(self).wf(),
        ensures
            final(self).wf(),
            final(self).spec_next_id() == old(self).spec_next_id(),
            final(self).spec_dim() == old(self).spec_dim(),
            final(self).spec_distance() == old(self).spec_distance(),
            final(self).field_indexes() == old(self).field_indexes(),
            final(self).segment_ids() == old(self).segment_ids(),
            final(self)@.dom() == old(self)@.dom(),
            old(self).applied_through(op_num) ==> final(self).applied_through(op_num),
            match r {
                Ok(applied) => {
                    &&& vector@.len() == old(self).spec_dim()
                    &&& old(self).segment_ids().len() > 0
                    &&& old(self).applied_through(op_num) ==> applied
                    &&& final(self).points() == if applied {
                        old(self).points().insert(
                            id,
                            upserted(old(self).points(), id, vector@, payload_view(payload)),
                        )
                    } else {
                        old(self).points()
                    }
                },
                Err(e) => {
                    &&& *final(self) == *old(self)
                    &&& vector@.len() != old(self).spec_dim() ==> e
                        == (OperationError::WrongVector {
                        expected_dim: old(self).spec_dim(),
                        received_dim: vector.len(),
                    })
                    &&& vector@.len() == old(self).spec_dim() ==> {
                        &&& old(self).segment_ids().len() == 0
                        &&& e matches OperationError::ServiceError { description }
                        &&& description@ == "No segment to write into"@
                    }
                },
            },
    {
        if vector.len() != self.dim {
            return Err(
                OperationError::WrongVector { expected_dim: self.dim, received_dim: vector.len() },
            );
        }
        let owned = self.owner_of(id);
        let place = match owned {
            Some(k) => k,
            None => match self.write_target() {
                Some(k) => k,
                None => {
                    return Err(
                        OperationError::ServiceError {
                            description: String::from_str("No segment to write into"),
                        },
                    );
                },
            },
        };
        let ghost before = self.slots@;
        let ghost m = self@;
        let ghost sid = before[place as int].id;
        proof {
            lemma_slot_at(before, place as int);
            assert forall|other: SegmentId| other != sid implies !seg_holds(m, other, id) by {
                if seg_holds(m, other, id) {
                    if owned is Some {
                        assert(seg_holds(m, sid, id));
                    } else {
                        assert(held(m, id));
                    }
                }
            }
            if owned is Some {
                lemma_owner(m, sid, id);
            } else {
                assert(!m[sid]@.contains_key(id)) by {
                    if m[sid]@.contains_key(id) {
                        assert(seg_holds(m, sid, id));
                    }
                }
            }
        }
        let r = self.slots[place].segment.upsert_point(op_num, id, vector, payload);
        proof {
            lemma_slot_update(before, self.slots@, place as int);
            let changed = self.slots@[place as int].segment;
            match r {
                Ok(applied) => {
                    if applied {
                        lemma_union_changed_insert(
                            m,
                            sid,
                            changed,
                            id,
                            upserted(m[sid]@, id, vector@, payload_view(payload)),
                        );
                    } else {
                        lemma_union_same(m, sid, changed);
                    }
                },
                Err(_) => {},
            }
            assert(self.segment_ids() =~= old(self).segment_ids());
            assert(self@.dom() =~= m.dom());
        }
        r
    }

    /// Removes the point from the segment that holds it and says whether one
    /// was removed.
    pub fn delete_point(&mut self, op_num: SeqNumberType, id: PointIdType) -> (removed: bool)
        requires
            old(self).wf(),
        ensures
            final(self).wf(),
            final(self).spec_next_id() == old(self).spec_next_id(),
            final(self).spec_dim() == old(self).spec_dim(),
            final(self).spec_distance() == old(self).spec_distance(),
            final(self).field_indexes() == old(self).field_indexes(),
            final(self).segment_ids() == old(self).segment_ids(),
            final(self)@.dom() == old(self)@.dom(),
            old(self).applied_through(op_num) ==> final(self).applied_through(op_num),
            old(self).applied_through(op_num) ==> removed == old(self).points().contains_key(id),
            final(self).points() == if removed {
                old(self).points().remove(id)
            } else {
                old(self).points()
            },
    {
        let owned = self.owner_of(id);
        match owned {
            None => false,
            Some(place) => {
                let ghost before = self.slots@;
                let ghost m = self@;
                let ghost sid = before[place as int].id;
                proof {
                    lemma_slot_at(before, place as int);
                    lemma_owner(m, sid, id);
                    assert forall|other: SegmentId| other != sid implies !seg_holds(
                        m,
                        other,
                        id,
                    ) by {
                        if seg_holds(m, other, id) {
                            assert(seg_holds(m, sid, id));
                        }
                    }
                }
                let removed = self.slots[place].segment.delete_point(op_num, id);
                proof {
                    lemma_slot_update(before, self.slots@, place as int);
                    let changed = self.slots@[place as int].segment;
                    if removed {
                        lemma_union_changed_remove(m, sid, changed, id);
                    } else {
                        lemma_union_same(m, sid, changed);
                    }
                    assert(self.segment_ids() =~= old(self).segment_ids());
                    assert(self@.dom() =~= m.dom());
                }
                removed
            },
        }
    }

    /// Gives the point the payload `payload` (`None` clears it) in the segment
    /// that holds it. A point that no segment holds is an error.
    pub fn set_payload(
        &mut self,
        op_num: SeqNumberType,
        id: PointIdType,
        payload: Option<Payload>,
    ) -> (r: Result<bool, OperationError>)
        requires
            old(self).wf(),
        ensures
            final(self).wf(),
            final(self).spec_next_id() == old(self).spec_next_id(),
            final(self).spec_dim() == old(self).spec_dim(),
            final(self).spec_distance() == old(self).spec_distance(),
            final(self).field_indexes() == old(self).field_indexes(),
            final(self).segment_ids() == old(self).segment_ids(),
            final(self)@.dom() == old(self)@.dom(),
            old(self).applied_through(op_num) ==> final(self).applied_through(op_num),
            match r {
                Ok(applied) => {
                    &&& old(self).points().contains_key(id)
                    &&& old(self).applied_through(op_num) ==> applied
                    &&& final(self).points() == if applied {
                        old(self).points().insert(
                            id,
                            PointView {
                                vector: old(self).points()[id].vector,
                                payload: payload_view(payload),
                            },
                        )
                    } else {
                        old(self).points()
                    }
                },
                Err(e) => {
                    &&& !old(self).points().contains_key(id)
                    &&& e == (OperationError::PointIdError { missed_point_id: id })
                    &&& *final(self) == *old(self)
                },
            },
    {
        let owned = self.owner_of(id);
        let place = match owned {
            Some(k) => k,
            None => {
                return Err(OperationError::PointIdError { missed_point_id: id });
            },
        };
        let ghost before = self.slots@;
        let ghost m = self@;
        let ghost sid = before[place as int].id;
        proof {
            lemma_slot_at(before, place as int);
            lemma_owner(m, sid, id);
            assert forall|other: SegmentId| other != sid implies !seg_holds(m, other, id) by {
                if seg_holds(m, other, id) {
                    assert(seg_holds(m, sid, id));
                }
            }
        }
        let r = self.slots[place].segment.set_payload(op_num, id, payload);
        proof {
            lemma_slot_update(before, self.slots@, place as int);
            let changed = self.slots@[place as int].segment;
            match r {
                Ok(applied) => {
                    if applied {
                        lemma_union_changed_insert(
                            m,
                            sid,
                            changed,
                            id,
                            PointView { vector: m[sid]@[id].vector, payload: payload_view(payload) },
                        );
                    } else {
                        lemma_union_same(m, sid, changed);
                    }
                },
                Err(_) => {},
            }
            assert(self.segment_ids() =~= old(self).segment_ids());
            assert(self@.dom() =~= m.dom());
        }
        r
    }

    /// Puts `segment` in the place of the segments named by `remove_ids`, in
    /// one step. `segment` holds exactly the points of those segments, so the
    /// points of the holder do not change.
    pub fn swap(&mut self, segment: Segment, remove_ids: &Vec<SegmentId>) -> (sid: SegmentId)
        requires
            old(self).wf(),
            segment.wf(),
            segment.spec_dim() == old(self).spec_dim(),
            segment.spec_distance() == old(self).spec_distance(),
            old(self).spec_next_id() < usize::MAX,
            segment@ == old(self).points_within(remove_ids@.to_set()),
        ensures
            final(self).wf(),
            sid == old(self).spec_next_id(),
            final(self).spec_next_id() == sid + 1,
            final(self).spec_dim() == old(self).spec_dim(),
            final(self).spec_distance() == old(self).spec_distance(),
            final(self).field_indexes() == old(self).field_indexes(),
            final(self)@ == old(self)@.remove_keys(remove_ids@.to_set()).insert(sid, segment),
            final(self).points() == old(self).points(),
    {
        let ghost m = self@;
        let ghost gone = remove_ids@.to_set();
        let sid = self.next_id;
        proof {
            self.lemma_wf();
            lemma_union_swapped(m, gone, sid, segment);
        }
        let mut i: usize = 0;
        while i < remove_ids.len()
            invariant
                i <= remove_ids@.len(),
                self.wf(),
                self.next_id == sid,
                self.dim == old(self).dim,
                self.distance == old(self).distance,
                self.field_indexes() == old(self).field_indexes(),
                self@ == m.remove_keys(remove_ids@.take(i as int).to_set()),
            decreases remove_ids@.len() - i,
        {
            proof {
                lemma_take_to_set(remove_ids@, i as int);
            }
            let _ = self.remove(remove_ids[i]);
            i += 1;
            assert(self@ =~= m.remove_keys(remove_ids@.take(i as int).to_set()));
        }
        assert(remove_ids@.take(i as int) =~= remove_ids@);
        let slot = HeldSegment { id: sid, segment };
        proof {
            self.lemma_wf();
            assert forall|k: int| 0 <= k < self.slots@.len() implies self.slots@[k].id < sid by {}
            lemma_slot_push(self.slots@, slot);
        }
        self.slots.push(slot);
        self.next_id = sid + 1;
        sid
    }
    /// The holder has as many segments as it has segment ids.
    pub proof fn lemma_segment_count(&self)
        requires
            self.wf(),
        ensures
            self@.dom().finite(),
            self@.dom().len() == self.segment_ids().len(),
    {
        self.lemma_wf();
        let ids = self.segment_ids();
        assert(ids.no_duplicates()) by {
            assert forall|a: int, b: int|
                0 <= a < ids.len() && 0 <= b < ids.len() && a != b implies ids[a] != ids[b] by {
                if a < b {
                    assert(ids[a] < ids[b]);
                } else {
                    assert(ids[b] < ids[a]);
                }
            }
        }
        assert(ids.to_set() =~= self@.dom()) by {
            assert forall|sid: SegmentId| ids.to_set().contains(sid) == self@.dom().contains(
                sid,
            ) by {
                if ids.contains(sid) {
                    let k = choose|k: int| 0 <= k < ids.len() && ids[k] == sid;
                    assert(self@.contains_key(ids[k]));
                }
            }
        }
        ids.unique_seq_to_set();
    }

    /// The number of points of the collection; the greatest number that the
    /// machine can hold if there are more.
    pub fn points_count(&self) -> (n: usize)
        requires
            self.wf(),
        ensures
            self.points().dom().finite(),
            n == if self.points().dom().len() <= usize::MAX {
                self.points().dom().len()
            } else {
                usize::MAX as nat
            },
    {
        let mut total: usize = 0;
        let mut i: usize = 0;
        proof {
            lemma_count_points(self.slots@);
        }
        while i < self.slots.len()
            invariant
                self.wf(),
                i <= self.slots@.len(),
                total == if count_points(self.slots@.take(i as int)) <= usize::MAX {
                    count_points(self.slots@.take(i as int))
                } else {
                    usize::MAX as nat
                },
            decreases self.slots@.len() - i,
        {
            let count = self.slots[i].segment.points_count();
            proof {
                assert(self.slots@.take(i + 1).drop_last() =~= self.slots@.take(i as int));
                assert(self.slots@.take(i + 1).last() == self.slots@[i as int]);
            }
            total = if count <= usize::MAX - total {
                total + count
            } else {
                usize::MAX
            };
            i += 1;
        }
        assert(self.slots@.take(i as int) =~= self.slots@);
        total
    }

    /// Whether no segment has absorbed an operation numbered above `op_num`.
    pub fn is_applied_through(&self, op_num: SeqNumberType) -> (b: bool)
        requires
            self.wf(),
        ensures
            b == self.applied_through(op_num),
    {
        let mut i: usize = 0;
        while i < self.slots.len()
            invariant
                self.wf(),
                i <= self.slots@.len(),
                forall|k: int| 0 <= k < i ==> self.slots@[k].segment.spec_version() <= op_num,
            decreases self.slots@.len() - i,
        {
            if self.slots[i].segment.version() > op_num {
                proof {
                    lemma_slot_at(self.slots@, i as int);
                    assert(self@.contains_key(self.slots@[i as int].id));
                }
                return false;
            }
            i += 1;
        }
        proof {
            assert forall|sid: SegmentId| #[trigger] self@.contains_key(sid) implies self@[sid].spec_version()
                <= op_num by {
                let k = place_of_id(self.slots@, sid);
                lemma_slot_at(self.slots@, k);
            }
        }
        true
    }

    /// The least id, among the points of all segments, that is not below
    /// `from`.
    pub fn first_id_from(&self, from: PointIdType) -> (r: Option<PointIdType>)
        requires
            self.wf(),
        ensures
            match r {
                Some(id) => self.points().contains_key(id) && from <= id && forall|
                    other: PointIdType,
                |
                    self.points().contains_key(other) && from <= other ==> id <= other,
                None => forall|other: PointIdType|
                    self.points().contains_key(other) ==> other < from,
            },
    {
        let mut best: Option<PointIdType> = None;
        let mut i: usize = 0;
        while i < self.slots.len()
            invariant
                self.wf(),
                i <= self.slots@.len(),
                match best {
                    Some(id) => from <= id && (exists|j: int|
                        0 <= j < i && (#[trigger] self.slots@[j]).segment@.contains_key(id))
                        && forall|j: int, other: PointIdType|
                        0 <= j < i && (#[trigger] self.slots@[j].segment@.contains_key(other))
                            && from <= other ==> id <= other,
                    None => forall|j: int, other: PointIdType|
                        0 <= j < i && (#[trigger] self.slots@[j].segment@.contains_key(other))
                            ==> other < from,
                },
            decreases self.slots@.len() - i,
        {
            match self.slots[i].segment.first_id_from(from) {
                Some(id) => {
                    let better = match best {
                        Some(b) => id < b,
                        None => true,
                    };
                    if better {
                        best = Some(id);
                    }
                },
                None => {},
            }
            i += 1;
        }
        proof {
            match best {
                Some(id) => {
                    let j = choose|j: int|
                        0 <= j < i && (#[trigger] self.slots@[j]).segment@.contains_key(id);
                    lemma_slot_at(self.slots@, j);
                    lemma_owner(self@, self.slots@[j].id, id);
                    assert forall|other: PointIdType|
                        self.points().contains_key(other) && from <= other implies id <= other by {
                        lemma_held(self@, other);
                        let k = place_of_id(self.slots@, owner(self@, other));
                        lemma_slot_at(self.slots@, k);
                        assert(self.slots@[k].segment@.contains_key(other));
                    }
                },
                None => {
                    assert forall|other: PointIdType|
                        self.points().contains_key(other) implies other < from by {
                        lemma_held(self@, other);
                        let k = place_of_id(self.slots@, owner(self@, other));
                        lemma_slot_at(self.slots@, k);
                        assert(self.slots@[k].segment@.contains_key(other));
                    }
                },
            }
        }
        best
    }
    /// Whether every point of the segment at place `place` is a point of
    /// `segment`, with the same data.
    fn covered_by(&self, place: usize, segment: &Segment) -> (b: bool)
        requires
            self.wf(),
            segment.wf(),
            place < self.slots@.len(),
        ensures
            b == forall|p: PointIdType| #[trigger]
                self.slots@[place as int].segment@.contains_key(p) ==> segment@.contains_key(p)
                    && segment@[p] == self.slots@[place as int].segment@[p],
    {
        let inner = &self.slots[place].segment;
        let n = inner.points_count();
        let mut j: usize = 0;
        while j < n
            invariant
                inner.wf(),
                segment.wf(),
                *inner == self.slots@[place as int].segment,
                n == inner.ids().len(),
                j <= n,
                forall|k: int|
                    0 <= k < j ==> segment@.contains_key(#[trigger] inner.ids()[k]) && segment@[inner.ids()[k]]
                        == inner@[inner.ids()[k]],
            decreases n - j,
        {
            let point = inner.point_at(j);
            let same = match segment.get(point.id) {
                Some(other) => other.same_data(point),
                None => false,
            };
            if !same {
                return false;
            }
            j += 1;
        }
        proof {
            inner.lemma_wf();
            assert forall|p: PointIdType| #[trigger] inner@.contains_key(p) implies segment@.contains_key(
                p,
            ) && segment@[p] == inner@[p] by {
                assert(inner.ids().contains(p));
                let k = choose|k: int| 0 <= k < inner.ids().len() && inner.ids()[k] == p;
                assert(segment@.contains_key(inner.ids()[k]));
            }
        }
        true
    }

    /// Whether `segment` may be put in the place of the segments named by
    /// `remove_ids`: it fits the holder, an id is left for it, and it holds
    /// exactly the points of those segments.
    pub fn can_swap(&self, segment: &Segment, remove_ids: &Vec<SegmentId>) -> (b: bool)
        requires
            self.wf(),
            segment.wf(),
        ensures
            b == {
                &&& segment.spec_dim() == self.spec_dim()
                &&& segment.spec_distance() == self.spec_distance()
                &&& self.spec_next_id() < usize::MAX
                &&& segment@ == self.points_within(remove_ids@.to_set())
            },
    {
        if segment.dim() != self.dim || segment.distance() != self.distance || self.next_id
            == usize::MAX {
            return false;
        }
        let ghost gone = remove_ids@.to_set();
        let ghost part = self@.restrict(gone);
        proof {
            assert(disjoint(part)) by {
                assert forall|a: SegmentId, b: SegmentId, p: PointIdType|
                    seg_holds(part, a, p) && seg_holds(part, b, p) implies a == b by {
                    assert(seg_holds(self@, a, p) && seg_holds(self@, b, p));
                }
            }
        }
        let mut i: usize = 0;
        while i < self.slots.len()
            invariant
                self.wf(),
                segment.wf(),
                gone == remove_ids@.to_set(),
                part == self@.restrict(gone),
                disjoint(part),
                i <= self.slots@.len(),
                forall|k: int, p: PointIdType|
                    0 <= k < i && gone.contains(self.slots@[k].id) && #[trigger] self.slots@[k].segment@.contains_key(
                        p,
                    ) ==> segment@.contains_key(p) && segment@[p] == self.slots@[k].segment@[p],
            decreases self.slots@.len() - i,
        {
            if contains_segment_id(remove_ids, self.slots[i].id) {
                if !self.covered_by(i, segment) {
                    proof {
                        let inner = self.slots@[i as int].segment;
                        let p = choose|p: PointIdType| #[trigger]
                            inner@.contains_key(p) && !(segment@.contains_key(p) && segment@[p]
                                == inner@[p]);
                        lemma_slot_at(self.slots@, i as int);
                        assert(seg_holds(part, self.slots@[i as int].id, p));
                        lemma_owner(part, self.slots@[i as int].id, p);
                    }
                    return false;
                }
            }
            i += 1;
        }
        let n = segment.points_count();
        let mut j: usize = 0;
        while j < n
            invariant
                self.wf(),
                segment.wf(),
                gone == remove_ids@.to_set(),
                part == self@.restrict(gone),
                disjoint(part),
                n == segment.ids().len(),
                j <= n,
                forall|k: int| 0 <= k < j ==> union_of(part).contains_key(#[trigger] segment.ids()[k]),
            decreases n - j,
        {
            let id = segment.point_id_at(j);
            proof {
                segment.lemma_wf();
            }
            let within = match self.owner_of(id) {
                Some(place) => contains_segment_id(remove_ids, self.slots[place].id),
                None => false,
            };
            if !within {
                proof {
                    assert(segment@.contains_key(id));
                    if held(part, id) {
                        let a = owner(part, id);
                        assert(seg_holds(part, a, id));
                        assert(seg_holds(self@, a, id));
                        assert(held(self@, id));
                        let place = self.owner_of_witness(id);
                        assert(seg_holds(self@, self.slots@[place].id, id));
                    }
                }
                return false;
            } else {
                proof {
                    let place = self.owner_of_witness(id);
                    assert(seg_holds(part, self.slots@[place].id, id));
                }
            }
            j += 1;
        }
        proof {
            segment.lemma_wf();
            let within = union_of(part);
            assert forall|p: PointIdType| segment@.contains_key(p) implies within.contains_key(
                p,
            ) by {
                assert(segment.ids().contains(p));
                let k = choose|k: int| 0 <= k < segment.ids().len() && segment.ids()[k] == p;
                assert(within.contains_key(segment.ids()[k]));
            }
            assert forall|p: PointIdType| within.contains_key(p) implies segment@.contains_key(
                p,
            ) && segment@[p] == within[p] by {
                lemma_held(part, p);
                let sid = owner(part, p);
                assert(seg_holds(part, sid, p));
                let k = place_of_id(self.slots@, sid);
                lemma_slot_at(self.slots@, k);
                assert(self.slots@[k].segment@.contains_key(p));
            }
            assert(segment@ =~= within);
        }
        true
    }

    /// The place of the segment that holds the point `id`.
    pub closed spec fn owner_of_witness(&self, id: PointIdType) -> int {
        place_of_id(self.slots@, owner(self@, id))
    }
    /// Whether an index is kept over the payload field `field_name`.
    pub fn has_field_index(&self, field_name: &PayloadKeyType) -> (b: bool)
        ensures
            b == self.field_indexes().contains(field_name@),
    {
        let mut i: usize = 0;
        while i < self.indexed_fields.len()
            invariant
                i <= self.indexed_fields@.len(),
                forall|k: int| 0 <= k < i ==> self.field_indexes()[k] != field_name@,
            decreases self.indexed_fields@.len() - i,
        {
            if self.indexed_fields[i] == *field_name {
                assert(self.field_indexes()[i as int] == field_name@);
                return true;
            }
            i += 1;
        }
        false
    }

    /// Keeps an index over the payload field `field_name` from now on.
    pub fn create_field_index(&mut self, field_name: &PayloadKeyType)
        requires
            old(self).wf(),
        ensures
            final(self).wf(),
            final(self)@ == old(self)@,
            final(self).segment_ids() == old(self).segment_ids(),
            final(self).spec_next_id() == old(self).spec_next_id(),
            final(self).spec_dim() == old(self).spec_dim(),
            final(self).spec_distance() == old(self).spec_distance(),
            final(self).field_indexes() == with_field(old(self).field_indexes(), field_name@),
    {
        if !self.has_field_index(field_name) {
            self.indexed_fields.push(field_name.clone());
            assert(self.field_indexes() =~= old(self).field_indexes().push(field_name@));
        }
    }

    /// Keeps no index over the payload field `field_name` any more.
    pub fn drop_field_index(&mut self, field_name: &PayloadKeyType)
        requires
            old(self).wf(),
        ensures
            final(self).wf(),
            final(self)@ == old(self)@,
            final(self).segment_ids() == old(self).segment_ids(),
            final(self).spec_next_id() == old(self).spec_next_id(),
            final(self).spec_dim() == old(self).spec_dim(),
            final(self).spec_distance() == old(self).spec_distance(),
            final(self).field_indexes() == without_field(old(self).field_indexes(), field_name@),
    {
        let ghost before = self.field_indexes();
        let mut kept: Vec<PayloadKeyType> = Vec::new();
        let mut i: usize = 0;
        while i < self.indexed_fields.len()
            invariant
                i <= self.indexed_fields@.len(),
                before == field_names(self.indexed_fields@),
                field_names(kept@) == without_field(before.take(i as int), field_name@),
            decreases self.indexed_fields@.len() - i,
        {
            proof {
                assert(before.take(i + 1).drop_last() =~= before.take(i as int));
                assert(before.take(i + 1).last() == before[i as int]);
            }
            if self.indexed_fields[i] != *field_name {
                let ghost had = field_names(kept@);
                kept.push(self.indexed_fields[i].clone());
                assert(field_names(kept@) =~= had.push(before[i as int]));
            }
            i += 1;
        }
        assert(before.take(i as int) =~= before);
        self.indexed_fields = kept;
    }

    /// The payload fields over which an index is kept, in the order in which
    /// their indexes were asked for.
    pub fn indexed_fields(&self) -> (fields: Vec<PayloadKeyType>)
        ensures
            field_names(fields@) == self.field_indexes(),
    {
        let mut fields: Vec<PayloadKeyType> = Vec::new();
        let mut i: usize = 0;
        while i < self.indexed_fields.len()
            invariant
                i <= self.indexed_fields@.len(),
                field_names(fields@) == self.field_indexes().take(i as int),
            decreases self.indexed_fields@.len() - i,
        {
            let ghost had = field_names(fields@);
            fields.push(self.indexed_fields[i].clone());
            proof {
                let all = self.field_indexes();
                assert(field_names(fields@) =~= had.push(all[i as int]));
                assert(all.take(i + 1) =~= all.take(i as int).push(all[i as int]));
            }
            i += 1;
        }
        assert(self.field_indexes().take(i as int) =~= self.field_indexes());
        fields
    }
}

} // verus!

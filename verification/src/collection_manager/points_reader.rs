//! Reads points from a segment holder: single points by id, and pages of
//! points by ascending id.

use vstd::prelude::*;
use vstd::string::*;
use crate::operations::types::{
    record_ids, CollectionError, CollectionResult, Record, ScrollRequest, ScrollResult,
};
use crate::segment::segment::StoredPoint;
use crate::segment::types::{
    check_filter, copy_payload, copy_vec, passes, Filter, PointIdType, PointView,
    WithPayloadInterface,
};
use crate::segment_holder::SegmentHolder;

verus! {

/// Whether a page that starts from `from` may show the point `id`: the point
/// exists, its id is not below `from`, and it passes the filter.
pub open spec fn is_visible(
    m: Map<PointIdType, PointView>,
    filter: Option<Filter>,
    from: PointIdType,
    id: PointIdType,
) -> bool {
    m.contains_key(id) && from <= id && passes(filter, id)
}

/// Whether `ids` is the page of at most `limit` points from `from` on, and
/// `next` the id that the page after it starts from: the page holds visible
/// points by ascending id, it leaves out a visible point only when it is
/// full, and then only points above its last; `next` is the least visible
/// point that the page leaves out.
pub open spec fn is_page(
    m: Map<PointIdType, PointView>,
    filter: Option<Filter>,
    from: PointIdType,
    limit: nat,
    ids: Seq<PointIdType>,
    next: Option<PointIdType>,
) -> bool {
    &&& ids.len() <= limit
    &&& forall|i: int| 0 <= i < ids.len() ==> is_visible(m, filter, from, #[trigger] ids[i])
    &&& forall|i: int, j: int| 0 <= i < j < ids.len() ==> ids[i] < ids[j]
    &&& forall|id: PointIdType| #[trigger]
        is_visible(m, filter, from, id) && !ids.contains(id) ==> ids.len() == limit && ids.last()
            < id
    &&& match next {
        Some(x) => {
            &&& is_visible(m, filter, from, x)
            &&& !ids.contains(x)
            &&& forall|id: PointIdType| #[trigger]
                is_visible(m, filter, from, id) && !ids.contains(id) ==> x <= id
        },
        None => forall|id: PointIdType| #[trigger]
            is_visible(m, filter, from, id) ==> ids.contains(id),
    }
}

/// Two pages of the same points agree at every place that both have.
proof fn lemma_pages_agree_at(
    m: Map<PointIdType, PointView>,
    filter: Option<Filter>,
    from: PointIdType,
    limit: nat,
    a: Seq<PointIdType>,
    next_a: Option<PointIdType>,
    b: Seq<PointIdType>,
    next_b: Option<PointIdType>,
    i: int,
)
    requires
        limit > 0,
        is_page(m, filter, from, limit, a, next_a),
        is_page(m, filter, from, limit, b, next_b),
        0 <= i < a.len(),
        i < b.len(),
    ensures
        a[i] == b[i],
    decreases i,
{
    assert forall|j: int| 0 <= j < i implies a[j] == b[j] by {
        lemma_pages_agree_at(m, filter, from, limit, a, next_a, b, next_b, j);
    }
    if a[i] < b[i] {
        assert(is_visible(m, filter, from, a[i]));
        assert(!b.contains(a[i])) by {
            if b.contains(a[i]) {
                let k = choose|k: int| 0 <= k < b.len() && b[k] == a[i];
                if k < i {
                    assert(a[k] < a[i]);
                } else if k > i {
                    assert(b[i] < b[k]);
                }
            }
        }
        if i < b.len() - 1 {
            assert(b[i] < b[b.len() - 1]);
        }
    } else if b[i] < a[i] {
        assert(is_visible(m, filter, from, b[i]));
        assert(!a.contains(b[i])) by {
            if a.contains(b[i]) {
                let k = choose|k: int| 0 <= k < a.len() && a[k] == b[i];
                if k < i {
                    assert(b[k] < b[i]);
                } else if k > i {
                    assert(a[i] < a[k]);
                }
            }
        }
        if i < a.len() - 1 {
            assert(a[i] < a[a.len() - 1]);
        }
    }
}

/// A page is determined by the points, the filter, the starting id and the
/// page size: reading the same page twice, with no change in between, gives
/// the same ids in the same order and the same offset for the next page.
pub proof fn lemma_page_is_unique(
    m: Map<PointIdType, PointView>,
    filter: Option<Filter>,
    from: PointIdType,
    limit: nat,
    a: Seq<PointIdType>,
    next_a: Option<PointIdType>,
    b: Seq<PointIdType>,
    next_b: Option<PointIdType>,
)
    requires
        limit > 0,
        is_page(m, filter, from, limit, a, next_a),
        is_page(m, filter, from, limit, b, next_b),
    ensures
        a == b,
        next_a == next_b,
{
    assert forall|i: int| 0 <= i < a.len() && i < b.len() implies a[i] == b[i] by {
        lemma_pages_agree_at(m, filter, from, limit, a, next_a, b, next_b, i);
    }
    if a.len() < b.len() {
        let x = b[a.len() as int];
        assert(is_visible(m, filter, from, x));
        assert(!a.contains(x)) by {
            if a.contains(x) {
                let k = choose|k: int| 0 <= k < a.len() && a[k] == x;
                assert(b[k] < b[a.len() as int]);
            }
        }
    } else if b.len() < a.len() {
        let x = a[b.len() as int];
        assert(is_visible(m, filter, from, x));
        assert(!b.contains(x)) by {
            if b.contains(x) {
                let k = choose|k: int| 0 <= k < b.len() && b[k] == x;
                assert(a[k] < a[b.len() as int]);
            }
        }
    }
    assert(a =~= b);
    match (next_a, next_b) {
        (Some(x), Some(y)) => {
            assert(is_visible(m, filter, from, x) && is_visible(m, filter, from, y));
        },
        (Some(x), None) => {
            assert(is_visible(m, filter, from, x));
        },
        (None, Some(y)) => {
            assert(is_visible(m, filter, from, y));
        },
        (None, None) => {},
    }
}

/// The least point that a page from `from` may show.
pub fn next_visible(holder: &SegmentHolder, from: PointIdType, filter: &Option<Filter>) -> (r:
    Option<PointIdType>)
    requires
        holder.wf(),
    ensures
        match r {
            Some(id) => is_visible(holder.points(), *filter, from, id) && forall|
                other: PointIdType,
            | #[trigger]
                is_visible(holder.points(), *filter, from, other) ==> id <= other,
            None => forall|other: PointIdType|
                !(#[trigger] is_visible(holder.points(), *filter, from, other)),
        },
{
    let mut cursor = from;
    let mut found: Option<PointIdType> = None;
    let mut searching = true;
    while searching
        invariant
            holder.wf(),
            from <= cursor,
            searching ==> found is None,
            searching ==> forall|other: PointIdType| #[trigger]
                is_visible(holder.points(), *filter, from, other) ==> cursor <= other,
            !searching ==> match found {
                Some(id) => is_visible(holder.points(), *filter, from, id) && forall|
                    other: PointIdType,
                | #[trigger]
                    is_visible(holder.points(), *filter, from, other) ==> id <= other,
                None => forall|other: PointIdType|
                    !(#[trigger] is_visible(holder.points(), *filter, from, other)),
            },
        decreases
                (if searching {
                    1int
                } else {
                    0int
                }) + (u64::MAX - cursor),
    {
        match holder.first_id_from(cursor) {
            None => {
                searching = false;
            },
            Some(id) => {
                if check_filter(filter, id) {
                    found = Some(id);
                    searching = false;
                } else if id == u64::MAX {
                    searching = false;
                } else {
                    cursor = id + 1;
                }
            },
        }
    }
    found
}

/// The record of a stored point.
pub fn record_for(point: &StoredPoint, with_payload: bool, with_vector: bool) -> (record: Record)
    ensures
        record.shows(point.id, point@, with_payload, with_vector),
{
    Record {
        id: point.id,
        payload: if with_payload {
            copy_payload(&point.payload)
        } else {
            None
        },
        vector: if with_vector {
            Some(copy_vec(&point.vector))
        } else {
            None
        },
    }
}

/// Whether `records` show the points `ids` of `m`, one record for each id, in
/// order.
pub open spec fn show_points(
    records: Seq<Record>,
    m: Map<PointIdType, PointView>,
    ids: Seq<PointIdType>,
    with_payload: bool,
    with_vector: bool,
) -> bool {
    &&& records.len() == ids.len()
    &&& forall|i: int|
        0 <= i < ids.len() ==> m.contains_key(ids[i]) && (#[trigger] records[i]).shows(
            ids[i],
            m[ids[i]],
            with_payload,
            with_vector,
        )
}

/// `i` is the first place of `ids` whose point is not in `m`.
pub open spec fn first_absent(m: Map<PointIdType, PointView>, ids: Seq<PointIdType>, i: int) -> bool {
    &&& 0 <= i < ids.len()
    &&& !m.contains_key(ids[i])
    &&& forall|j: int| 0 <= j < i ==> m.contains_key(#[trigger] ids[j])
}

/// The records of the points `ids`, in that order. A point that does not
/// exist is an error: the first such point is named.
pub fn retrieve(
    holder: &SegmentHolder,
    ids: &Vec<PointIdType>,
    with_payload: bool,
    with_vector: bool,
) -> (r: CollectionResult<Vec<Record>>)
    requires
        holder.wf(),
    ensures
        match r {
            Ok(records) => show_points(records@, holder.points(), ids@, with_payload, with_vector),
            Err(e) => exists|i: int|
                #[trigger] first_absent(holder.points(), ids@, i) && e
                    == (CollectionError::NotFound { missed_point_id: ids@[i] }),
        },
{
    let ghost m = holder.points();
    let mut records: Vec<Record> = Vec::new();
    let mut i: usize = 0;
    while i < ids.len()
        invariant
            holder.wf(),
            m == holder.points(),
            i <= ids@.len(),
            records@.len() == i,
            forall|k: int| 0 <= k < i ==> m.contains_key(#[trigger] ids@[k]),
            forall|k: int|
                0 <= k < i ==> (#[trigger] records@[k]).shows(
                    ids@[k],
                    m[ids@[k]],
                    with_payload,
                    with_vector,
                ),
        decreases ids@.len() - i,
    {
        match holder.get_point(ids[i]) {
            Some(point) => {
                records.push(record_for(point, with_payload, with_vector));
            },
            None => {
                assert(first_absent(m, ids@, i as int));
                return Err(CollectionError::NotFound { missed_point_id: ids[i] });
            },
        }
        i += 1;
    }
    Ok(records)
}

/// One page of the points that pass the request's filter, by ascending id,
/// from the request's offset on. A page size of 0 is refused.
pub fn scroll(holder: &SegmentHolder, request: &ScrollRequest) -> (r: CollectionResult<
    ScrollResult,
>)
    requires
        holder.wf(),
    ensures
        match r {
            Ok(page) => {
                &&& request.page_size() > 0
                &&& is_page(
                    holder.points(),
                    request.filter,
                    request.from_id(),
                    request.page_size() as nat,
                    record_ids(page.points@),
                    page.next_page_offset,
                )
                &&& show_points(
                    page.points@,
                    holder.points(),
                    record_ids(page.points@),
                    request.wants_payload(),
                    request.wants_vector(),
                )
            },
            Err(e) => {
                &&& request.page_size() == 0
                &&& e matches CollectionError::BadRequest { description }
                &&& description@ == "Limit cannot be 0"@
            },
        },
{
    let from = match request.offset {
        Some(id) => id,
        None => 0,
    };
    let limit = match request.limit {
        Some(n) => n,
        None => 10,
    };
    let with_payload = match request.with_payload {
        Some(WithPayloadInterface::Bool(b)) => b,
        None => true,
    };
    let with_vector = match request.with_vector {
        Some(b) => b,
        None => false,
    };
    if limit == 0 {
        return Err(
            CollectionError::BadRequest { description: String::from_str("Limit cannot be 0") },
        );
    }
    let ghost m = holder.points();
    let ghost f = request.filter;
    let mut ids: Vec<PointIdType> = Vec::new();
    let mut cursor = from;
    let mut done = false;
    while !done && ids.len() < limit
        invariant
            holder.wf(),
            m == holder.points(),
            f == request.filter,
            from <= cursor,
            ids@.len() <= limit,
            forall|i: int| 0 <= i < ids@.len() ==> is_visible(m, f, from, #[trigger] ids@[i]),
            forall|i: int, j: int| 0 <= i < j < ids@.len() ==> ids@[i] < ids@[j],
            !done ==> forall|i: int| 0 <= i < ids@.len() ==> ids@[i] < cursor,
            !done ==> forall|id: PointIdType| #[trigger]
                is_visible(m, f, from, id) && id < cursor ==> ids@.contains(id),
            done ==> forall|id: PointIdType| #[trigger]
                is_visible(m, f, from, id) ==> ids@.contains(id),
        decreases
                (if done {
                    0int
                } else {
                    1int
                }) + (limit - ids@.len()),
    {
        let ghost before = ids@;
        match next_visible(holder, cursor, &request.filter) {
            None => {
                done = true;
                proof {
                    assert forall|id: PointIdType| #[trigger]
                        is_visible(m, f, from, id) implies ids@.contains(id) by {
                        if cursor <= id {
                            assert(is_visible(m, f, cursor, id));
                        }
                    }
                }
            },
            Some(id) => {
                ids.push(id);
                proof {
                    assert(ids@[before.len() as int] == id);
                    assert forall|other: PointIdType| before.contains(other) implies ids@.contains(
                        other,
                    ) by {
                        let k = choose|k: int| 0 <= k < before.len() && before[k] == other;
                        assert(ids@[k] == other);
                    }
                    assert forall|other: PointIdType| #[trigger]
                        is_visible(m, f, from, other) && other <= id implies ids@.contains(
                        other,
                    ) by {
                        if cursor <= other {
                            assert(is_visible(m, f, cursor, other));
                        }
                    }
                }
                if id == u64::MAX {
                    done = true;
                } else {
                    cursor = id + 1;
                }
            },
        }
    }
    let next = if done {
        None
    } else {
        let next = next_visible(holder, cursor, &request.filter);
        proof {
            assert forall|id: PointIdType| #[trigger]
                is_visible(m, f, from, id) && !ids@.contains(id) implies is_visible(
                m,
                f,
                cursor,
                id,
            ) by {}
            match next {
                Some(x) => {
                    assert(!ids@.contains(x)) by {
                        if ids@.contains(x) {
                            let k = choose|k: int| 0 <= k < ids@.len() && ids@[k] == x;
                            assert(ids@[k] < cursor);
                        }
                    }
                },
                None => {
                    assert forall|id: PointIdType| #[trigger]
                        is_visible(m, f, from, id) implies ids@.contains(id) by {
                        if !ids@.contains(id) {
                            assert(is_visible(m, f, cursor, id));
                        }
                    }
                },
            }
        }
        next
    };
    assert(is_page(m, f, from, limit as nat, ids@, next));
    let mut points: Vec<Record> = Vec::new();
    let mut i: usize = 0;
    while i < ids.len()
        invariant
            holder.wf(),
            m == holder.points(),
            i <= ids@.len(),
            forall|k: int| 0 <= k < ids@.len() ==> m.contains_key(#[trigger] ids@[k]),
            points@.len() == i,
            forall|k: int|
                0 <= k < i ==> (#[trigger] points@[k]).shows(
                    ids@[k],
                    m[ids@[k]],
                    with_payload,
                    with_vector,
                ),
        decreases ids@.len() - i,
    {
        match holder.get_point(ids[i]) {
            Some(point) => {
                points.push(record_for(point, with_payload, with_vector));
            },
            None => {
                assert(false);
            },
        }
        i += 1;
    }
    assert(record_ids(points@) =~= ids@);
    Ok(ScrollResult { points, next_page_offset: next })
}

} // verus!

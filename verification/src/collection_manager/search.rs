//! Picks the best of the scored points. How similar a point is to a query is
//! measured elsewhere; what is decided here is which of the scored points
//! count and which of them come first.

use vstd::prelude::*;
use vstd::string::*;
use crate::operations::types::{
    CollectionError, CollectionResult, RecommendRequest, SearchRequest,
};
use crate::segment::entry_point::OperationError;
use crate::collection_manager::points_reader::first_absent;
use crate::segment::types::{
    all_hold, any_holds, check_filter, copy_vec, passes, Condition, Filter, HasIdCondition,
    PointIdType, PointView, ScoredPoint, VectorElementType,
};
use crate::segment_holder::SegmentHolder;

verus! {

/// Whether `a` comes before `b` or ties with it: the higher score first,
/// among equal scores the lower id.
pub open spec fn outranks(a: ScoredPoint, b: ScoredPoint) -> bool {
    a.score > b.score || (a.score == b.score && a.id <= b.id)
}

/// Whether a scored point counts: its point exists and passes the filter.
pub open spec fn eligible(
    m: Map<PointIdType, PointView>,
    filter: Option<Filter>,
    p: ScoredPoint,
) -> bool {
    m.contains_key(p.id) && passes(filter, p.id)
}

/// Whether `found` is drawn from `scored` through `origin`: entry `i` of
/// `found` is the entry of `scored` at place `origin[i]`, and no place is
/// drawn twice.
pub open spec fn selects(
    scored: Seq<ScoredPoint>,
    found: Seq<ScoredPoint>,
    origin: Seq<int>,
) -> bool {
    &&& origin.len() == found.len()
    &&& forall|i: int|
        0 <= i < found.len() ==> 0 <= #[trigger] origin[i] < scored.len() && scored[origin[i]]
            == found[i]
    &&& forall|i: int, j: int| 0 <= i < j < found.len() ==> origin[i] != origin[j]
}

/// Whether `found` is drawn from `scored`, each entry from a place of its own.
pub open spec fn drawn_from(scored: Seq<ScoredPoint>, found: Seq<ScoredPoint>) -> bool {
    exists|origin: Seq<int>| selects(scored, found, origin)
}

/// Whether `found` are the best `top` of the scored points that count: each
/// of them counts and was scored, none is taken more often than it was
/// scored, they stand in ranking order, and a point that counts is left out
/// only if `found` is full of points that outrank it.
pub open spec fn is_top(
    m: Map<PointIdType, PointView>,
    filter: Option<Filter>,
    scored: Seq<ScoredPoint>,
    top: nat,
    found: Seq<ScoredPoint>,
) -> bool {
    &&& found.len() <= top
    &&& forall|i: int|
        0 <= i < found.len() ==> eligible(m, filter, #[trigger] found[i]) && scored.contains(
            found[i],
        )
    &&& drawn_from(scored, found)
    &&& forall|i: int, j: int| 0 <= i < j < found.len() ==> outranks(found[i], found[j])
    &&& forall|k: int|
        0 <= k < scored.len() && eligible(m, filter, #[trigger] scored[k]) ==> found.contains(
            scored[k],
        ) || full_of_better(found, top, scored[k])
}

/// `found` holds `top` points, and each outranks `p`.
pub open spec fn full_of_better(found: Seq<ScoredPoint>, top: nat, p: ScoredPoint) -> bool {
    found.len() == top && forall|i: int| 0 <= i < found.len() ==> outranks(#[trigger] found[i], p)
}

fn comes_before(a: &ScoredPoint, b: &ScoredPoint) -> (r: bool)
    ensures
        r == outranks(*a, *b),
{
    a.score > b.score || (a.score == b.score && a.id <= b.id)
}

proof fn lemma_insert_contains(s: Seq<ScoredPoint>, pos: int, x: ScoredPoint)
    requires
        0 <= pos <= s.len(),
    ensures
        forall|y: ScoredPoint| s.insert(pos, x).contains(y) <==> (y == x || s.contains(y)),
{
    let t = s.insert(pos, x);
    assert forall|y: ScoredPoint| t.contains(y) <==> (y == x || s.contains(y)) by {
        if t.contains(y) {
            let k = choose|k: int| 0 <= k < t.len() && t[k] == y;
            if k < pos {
                assert(s[k] == y);
            } else if k > pos {
                assert(s[k - 1] == y);
            }
        }
        if s.contains(y) {
            let k = choose|k: int| 0 <= k < s.len() && s[k] == y;
            if k < pos {
                assert(t[k] == y);
            } else {
                assert(t[k + 1] == y);
            }
        }
        if y == x {
            assert(t[pos] == y);
        }
    }
}

proof fn lemma_drop_last_contains(s: Seq<ScoredPoint>)
    requires
        s.len() > 0,
    ensures
        forall|y: ScoredPoint| s.contains(y) <==> (s.drop_last().contains(y) || y == s.last()),
{
    let t = s.drop_last();
    assert forall|y: ScoredPoint| s.contains(y) <==> (t.contains(y) || y == s.last()) by {
        if s.contains(y) {
            let k = choose|k: int| 0 <= k < s.len() && s[k] == y;
            if k < s.len() - 1 {
                assert(t[k] == y);
            }
        }
        if t.contains(y) {
            let k = choose|k: int| 0 <= k < t.len() && t[k] == y;
            assert(s[k] == y);
        }
        if y == s.last() {
            assert(s[s.len() - 1] == y);
        }
    }
}

/// The best `top` of the scored points that exist and pass the request's
/// filter, best first. A query vector of the wrong dimension is refused.
pub fn search(holder: &SegmentHolder, request: &SearchRequest, scored: &Vec<ScoredPoint>) -> (r:
    CollectionResult<Vec<ScoredPoint>>)
    requires
        holder.wf(),
    ensures
        match r {
            Ok(found) => {
                &&& request.vector@.len() == holder.spec_dim()
                &&& is_top(holder.points(), request.filter, scored@, request.top as nat, found@)
            },
            Err(e) => {
                &&& request.vector@.len() != holder.spec_dim()
                &&& CollectionError::converts(
                    OperationError::WrongVector {
                        expected_dim: holder.spec_dim(),
                        received_dim: request.vector.len(),
                    },
                    e,
                )
            },
        },
{
    if request.vector.len() != holder.dim() {
        return Err(
            CollectionError::from(
                OperationError::WrongVector {
                    expected_dim: holder.dim(),
                    received_dim: request.vector.len(),
                },
            ),
        );
    }
    let ghost m = holder.points();
    let ghost f = request.filter;
    let top = request.top;
    let mut found: Vec<ScoredPoint> = Vec::new();
    let ghost mut origin: Seq<int> = Seq::empty();
    let mut k: usize = 0;
    assert(selects(scored@.take(0), found@, origin));
    while k < scored.len()
        invariant
            holder.wf(),
            m == holder.points(),
            f == request.filter,
            top == request.top,
            k <= scored@.len(),
            selects(scored@.take(k as int), found@, origin),
            is_top(m, f, scored@.take(k as int), top as nat, found@),
        decreases scored@.len() - k,
    {
        let p = scored[k];
        let ghost seen = scored@.take(k as int);
        let ghost now = scored@.take(k + 1);
        let ghost o = found@;
        let ghost drawn = origin;
        proof {
            assert forall|i: int| 0 <= i < o.len() implies 0 <= #[trigger] drawn[i] < now.len()
                && now[drawn[i]] == o[i] by {
                assert(seen[drawn[i]] == o[i]);
            }
            assert(now[k as int] == p);
            assert forall|j: int| 0 <= j < k implies now[j] == seen[j] by {}
            assert forall|y: ScoredPoint| seen.contains(y) implies now.contains(y) by {
                let j = choose|j: int| 0 <= j < seen.len() && seen[j] == y;
                assert(now[j] == y);
            }
        }
        if holder.has_point(p.id) && check_filter(&request.filter, p.id) {
            let mut pos: usize = 0;
            while pos < found.len() && comes_before(&found[pos], &p)
                invariant
                    pos <= found@.len(),
                    forall|i: int| 0 <= i < pos ==> outranks(#[trigger] found@[i], p),
                decreases found@.len() - pos,
            {
                pos += 1;
            }
            if pos < top {
                let ghost base = if found@.len() == top {
                    o.drop_last()
                } else {
                    o
                };
                if found.len() == top {
                    proof {
                        lemma_drop_last_contains(o);
                    }
                    let _ = found.pop();
                }
                assert(found@ == base);
                found.insert(pos, p);
                let ghost n = found@;
                proof {
                    let kept = if o.len() == top {
                        drawn.drop_last()
                    } else {
                        drawn
                    };
                    origin = kept.insert(pos as int, k as int);
                    assert forall|i: int| 0 <= i < n.len() implies 0 <= #[trigger] origin[i]
                        < now.len() && now[origin[i]] == n[i] by {
                        if i < pos {
                            assert(origin[i] == drawn[i] && n[i] == o[i]);
                        } else if i > pos {
                            assert(origin[i] == drawn[i - 1] && n[i] == o[i - 1]);
                        }
                    }
                    assert forall|i: int, j: int| 0 <= i < j < n.len() implies origin[i]
                        != origin[j] by {
                        let a = if i < pos { i } else { i - 1 };
                        let b = if j < pos { j } else { j - 1 };
                        if i != pos && j != pos {
                            assert(origin[i] == drawn[a] && origin[j] == drawn[b]);
                        } else if i == pos {
                            assert(origin[j] == drawn[b]);
                            assert(drawn[b] < k);
                        } else {
                            assert(origin[i] == drawn[a]);
                            assert(drawn[a] < k);
                        }
                    }
                    assert(selects(now, n, origin));
                    lemma_insert_contains(base, pos as int, p);
                    assert(n[pos as int] == p);
                    assert forall|i: int| pos <= i < base.len() implies outranks(
                        p,
                        #[trigger] base[i],
                    ) by {
                        assert(base[pos as int] == o[pos as int]);
                        assert(base[i] == o[i]);
                        if i > pos {
                            assert(outranks(o[pos as int], o[i]));
                        }
                    }
                    assert forall|i: int, j: int| 0 <= i < j < n.len() implies outranks(
                        n[i],
                        n[j],
                    ) by {
                        let a = if i < pos { i } else { i - 1 };
                        let b = if j < pos { j } else { j - 1 };
                        if i != pos && j != pos {
                            assert(n[i] == base[a] && n[j] == base[b]);
                            assert(base[a] == o[a] && base[b] == o[b]);
                        } else if i == pos {
                            assert(n[j] == base[b]);
                        } else {
                            assert(n[i] == base[a]);
                            assert(base[a] == o[a]);
                        }
                    }
                    assert forall|i: int| 0 <= i < n.len() implies eligible(
                        m,
                        f,
                        #[trigger] n[i],
                    ) by {
                        if i != pos {
                            let a = if i < pos { i } else { i - 1 };
                            assert(n[i] == base[a]);
                            assert(base[a] == o[a]);
                        }
                    }
                    assert forall|j: int|
                        0 <= j < now.len() && eligible(
                            m,
                            f,
                            #[trigger] now[j],
                        ) implies n.contains(now[j]) || full_of_better(n, top as nat, now[j]) by {
                        let y = now[j];
                        if j < k {
                            assert(seen[j] == y);
                            if !n.contains(y) {
                                assert forall|i: int| 0 <= i < n.len() implies outranks(
                                    #[trigger] n[i],
                                    y,
                                ) by {
                                    let a = if i < pos { i } else { i - 1 };
                                    if o.contains(y) {
                                        assert(y == o.last());
                                        if i == pos {
                                            assert(outranks(p, base[pos as int]) || pos
                                                == base.len());
                                            if pos < base.len() {
                                                assert(base[pos as int] == o[pos as int]);
                                                assert(outranks(o[pos as int], o.last()));
                                            } else {
                                                assert(!outranks(o[pos as int], p));
                                            }
                                        } else {
                                            assert(n[i] == base[a]);
                                            assert(base[a] == o[a]);
                                            assert(outranks(o[a], o.last()));
                                        }
                                    } else {
                                        assert(full_of_better(o, top as nat, y));
                                        if i == pos {
                                            assert(outranks(o[pos as int], y));
                                            assert(!outranks(o[pos as int], p));
                                        } else {
                                            assert(n[i] == base[a]);
                                            assert(base[a] == o[a]);
                                        }
                                    }
                                }
                            }
                        }
                    }
                }
            } else {
                proof {
                    assert forall|j: int|
                        0 <= j < now.len() && eligible(
                            m,
                            f,
                            #[trigger] now[j],
                        ) implies o.contains(now[j]) || full_of_better(o, top as nat, now[j]) by {
                        if j < k {
                            assert(seen[j] == now[j]);
                        }
                    }
                    assert(selects(now, o, origin));
                }
            }
        } else {
            proof {
                assert forall|j: int|
                    0 <= j < now.len() && eligible(m, f, #[trigger] now[j]) implies o.contains(
                    now[j],
                ) || full_of_better(o, top as nat, now[j]) by {
                    if j < k {
                        assert(seen[j] == now[j]);
                    }
                }
                assert(selects(now, o, origin));
            }
        }
        k += 1;
    }
    assert(scored@.take(k as int) =~= scored@);
    Ok(found)
}

/// A point that does not pass the filter is never found.
pub proof fn lemma_filtered_out_never_found(
    m: Map<PointIdType, PointView>,
    filter: Option<Filter>,
    scored: Seq<ScoredPoint>,
    top: nat,
    found: Seq<ScoredPoint>,
    id: PointIdType,
)
    requires
        is_top(m, filter, scored, top, found),
        !passes(filter, id),
    ensures
        forall|i: int| 0 <= i < found.len() ==> (#[trigger] found[i]).id != id,
{
    assert forall|i: int| 0 <= i < found.len() implies (#[trigger] found[i]).id != id by {
        assert(eligible(m, filter, found[i]));
    }
}

/// No point is scored twice.
pub open spec fn scored_once(scored: Seq<ScoredPoint>) -> bool {
    forall|k: int, l: int| 0 <= k < l < scored.len() ==> scored[k].id != scored[l].id
}

/// Two results of the same search agree at every place that both have.
proof fn lemma_tops_agree_at(
    m: Map<PointIdType, PointView>,
    filter: Option<Filter>,
    scored: Seq<ScoredPoint>,
    top: nat,
    a: Seq<ScoredPoint>,
    b: Seq<ScoredPoint>,
    i: int,
)
    requires
        scored_once(scored),
        is_top(m, filter, scored, top, a),
        is_top(m, filter, scored, top, b),
        0 <= i < a.len(),
        i < b.len(),
    ensures
        a[i] == b[i],
    decreases i,
{
    assert forall|j: int| 0 <= j < i implies a[j] == b[j] by {
        lemma_tops_agree_at(m, filter, scored, top, a, b, j);
    }
    let from_a = choose|origin: Seq<int>| selects(scored, a, origin);
    let from_b = choose|origin: Seq<int>| selects(scored, b, origin);
    let x = a[i];
    let y = b[i];
    assert(scored[from_a[i]] == x && scored[from_b[i]] == y);
    if x != y {
        assert(from_a[i] != from_b[i]);
        assert(x.id != y.id);
        if outranks(x, y) {
            assert(eligible(m, filter, x));
            assert(!b.contains(x)) by {
                if b.contains(x) {
                    let k = choose|k: int| 0 <= k < b.len() && b[k] == x;
                    if k < i {
                        assert(a[k] == x);
                        assert(scored[from_a[k]] == scored[from_a[i]]);
                        assert(from_a[k] != from_a[i]);
                    } else if k > i {
                        assert(outranks(b[i], b[k]));
                    }
                }
            }
            assert(full_of_better(b, top, scored[from_a[i]]));
            assert(outranks(b[i], x));
        } else {
            assert(eligible(m, filter, y));
            assert(!a.contains(y)) by {
                if a.contains(y) {
                    let k = choose|k: int| 0 <= k < a.len() && a[k] == y;
                    if k < i {
                        assert(b[k] == y);
                        assert(scored[from_b[k]] == scored[from_b[i]]);
                        assert(from_b[k] != from_b[i]);
                    } else if k > i {
                        assert(outranks(a[i], a[k]));
                    }
                }
            }
            assert(full_of_better(a, top, scored[from_b[i]]));
            assert(outranks(a[i], y));
        }
    }
}

/// Where no point is scored twice, the result of a search is determined by
/// the points, the filter, the scores and the number asked for: the same
/// search, run again with no change in between, finds the same.
pub proof fn lemma_top_is_unique(
    m: Map<PointIdType, PointView>,
    filter: Option<Filter>,
    scored: Seq<ScoredPoint>,
    top: nat,
    a: Seq<ScoredPoint>,
    b: Seq<ScoredPoint>,
)
    requires
        scored_once(scored),
        is_top(m, filter, scored, top, a),
        is_top(m, filter, scored, top, b),
    ensures
        a == b,
{
    assert forall|i: int| 0 <= i < a.len() && i < b.len() implies a[i] == b[i] by {
        lemma_tops_agree_at(m, filter, scored, top, a, b, i);
    }
    let from_a = choose|origin: Seq<int>| selects(scored, a, origin);
    let from_b = choose|origin: Seq<int>| selects(scored, b, origin);
    if a.len() < b.len() {
        let n = a.len() as int;
        let y = b[n];
        assert(scored[from_b[n]] == y);
        assert(eligible(m, filter, y));
        assert(!a.contains(y)) by {
            if a.contains(y) {
                let k = choose|k: int| 0 <= k < a.len() && a[k] == y;
                assert(b[k] == y);
                assert(scored[from_b[k]] == scored[from_b[n]]);
                assert(from_b[k] != from_b[n]);
            }
        }
        assert(full_of_better(a, top, scored[from_b[n]]));
    } else if b.len() < a.len() {
        let n = b.len() as int;
        let x = a[n];
        assert(scored[from_a[n]] == x);
        assert(eligible(m, filter, x));
        assert(!b.contains(x)) by {
            if b.contains(x) {
                let k = choose|k: int| 0 <= k < b.len() && b[k] == x;
                assert(a[k] == x);
                assert(scored[from_a[k]] == scored[from_a[n]]);
                assert(from_a[k] != from_a[n]);
            }
        }
        assert(full_of_better(b, top, scored[from_a[n]]));
    }
    assert(a =~= b);
}

/// The nearest match is found first: where a scored point counts and
/// outranks every scored point that counts, a search for at least one point
/// puts that point, with that score, at the head of what it finds.
pub proof fn lemma_nearest_comes_first(
    m: Map<PointIdType, PointView>,
    filter: Option<Filter>,
    scored: Seq<ScoredPoint>,
    top: nat,
    found: Seq<ScoredPoint>,
    k: int,
)
    requires
        is_top(m, filter, scored, top, found),
        top >= 1,
        0 <= k < scored.len(),
        eligible(m, filter, scored[k]),
        forall|j: int|
            0 <= j < scored.len() && eligible(m, filter, #[trigger] scored[j]) ==> outranks(
                scored[k],
                scored[j],
            ),
    ensures
        found.len() >= 1,
        found[0].id == scored[k].id,
        found[0].score == scored[k].score,
{
    let best = scored[k];
    if found.contains(best) {
        let i = choose|i: int| 0 <= i < found.len() && found[i] == best;
        if i > 0 {
            assert(outranks(found[0], found[i]));
        }
    } else {
        assert(full_of_better(found, top, best));
        assert(outranks(found[0], best));
    }
    assert(eligible(m, filter, found[0]));
    let origin = choose|origin: Seq<int>| selects(scored, found, origin);
    let j = origin[0];
    assert(scored[j] == found[0]);
    assert(outranks(best, scored[j]));
}

/// What a recommendation hands to the search: the vectors of its examples,
/// the filter that keeps the examples themselves out of the result, and the
/// number of points asked for.
#[derive(Debug, Clone, PartialEq, Eq)]
pub struct RecommendPlan {
    /// The vectors of the positive examples, in the order of the request.
    pub positive: Vec<Vec<VectorElementType>>,
    /// The vectors of the negative examples, in the order of the request.
    pub negative: Vec<Vec<VectorElementType>>,
    /// The request's filter, narrowed so that no example passes.
    pub filter: Filter,
    /// Greatest number of points to hand back.
    pub top: usize,
}

/// Whether `vectors` are the vectors of the points `ids` of `m`, in order.
pub open spec fn vectors_of_points(
    vectors: Seq<Vec<VectorElementType>>,
    m: Map<PointIdType, PointView>,
    ids: Seq<PointIdType>,
) -> bool {
    &&& vectors.len() == ids.len()
    &&& forall|i: int|
        0 <= i < ids.len() ==> m.contains_key(ids[i]) && (#[trigger] vectors[i])@
            == m[ids[i]].vector
}

/// The error `e` names the first point of `ids` that `m` does not hold.
pub open spec fn names_first_absent(
    m: Map<PointIdType, PointView>,
    ids: Seq<PointIdType>,
    e: CollectionError,
) -> bool {
    exists|i: int|
        #[trigger] first_absent(m, ids, i) && e == (CollectionError::NotFound {
            missed_point_id: ids[i],
        })
}

fn example_vectors(holder: &SegmentHolder, ids: &Vec<PointIdType>) -> (r: CollectionResult<
    Vec<Vec<VectorElementType>>,
>)
    requires
        holder.wf(),
    ensures
        match r {
            Ok(vectors) => vectors_of_points(vectors@, holder.points(), ids@),
            Err(e) => names_first_absent(holder.points(), ids@, e),
        },
{
    let ghost m = holder.points();
    let mut vectors: Vec<Vec<VectorElementType>> = Vec::new();
    let mut i: usize = 0;
    while i < ids.len()
        invariant
            holder.wf(),
            m == holder.points(),
            i <= ids@.len(),
            vectors@.len() == i,
            forall|k: int| 0 <= k < i ==> m.contains_key(#[trigger] ids@[k]),
            forall|k: int| 0 <= k < i ==> (#[trigger] vectors@[k])@ == m[ids@[k]].vector,
        decreases ids@.len() - i,
    {
        match holder.get_point(ids[i]) {
            Some(point) => {
                vectors.push(copy_vec(&point.vector));
            },
            None => {
                assert(first_absent(m, ids@, i as int));
                return Err(CollectionError::NotFound { missed_point_id: ids[i] });
            },
        }
        i += 1;
    }
    Ok(vectors)
}

fn copy_condition(c: &Condition) -> (r: Condition)
    ensures
        forall|id: PointIdType| r.holds(id) == c.holds(id),
{
    match c {
        Condition::HasId(has) => Condition::HasId(HasIdCondition { has_id: copy_vec(&has.has_id) }),
    }
}

fn copy_conditions(cs: &Vec<Condition>) -> (r: Vec<Condition>)
    ensures
        forall|id: PointIdType| any_holds(r@, id) == any_holds(cs@, id),
        forall|id: PointIdType| all_hold(r@, id) == all_hold(cs@, id),
{
    let mut r: Vec<Condition> = Vec::new();
    let mut i: usize = 0;
    while i < cs.len()
        invariant
            i <= cs@.len(),
            r@.len() == i,
            forall|k: int, id: PointIdType|
                0 <= k < i ==> (#[trigger] r@[k].holds(id)) == cs@[k].holds(id),
        decreases cs@.len() - i,
    {
        r.push(copy_condition(&cs[i]));
        i += 1;
    }
    proof {
        assert forall|id: PointIdType| any_holds(r@, id) == any_holds(cs@, id) by {
            if any_holds(r@, id) {
                let k = choose|k: int| 0 <= k < r@.len() && (#[trigger] r@[k]).holds(id);
                assert(r@[k].holds(id) == cs@[k].holds(id));
                assert(cs@[k].holds(id));
            }
            if any_holds(cs@, id) {
                let k = choose|k: int| 0 <= k < cs@.len() && (#[trigger] cs@[k]).holds(id);
                assert(r@[k].holds(id) == cs@[k].holds(id));
                assert(r@[k].holds(id));
            }
        }
        assert forall|id: PointIdType| all_hold(r@, id) == all_hold(cs@, id) by {
            if all_hold(r@, id) {
                assert forall|k: int| 0 <= k < cs@.len() implies (#[trigger] cs@[k]).holds(id) by {
                    assert(r@[k].holds(id) == cs@[k].holds(id));
                    assert(r@[k].holds(id));
                }
            }
            if all_hold(cs@, id) {
                assert forall|k: int| 0 <= k < r@.len() implies (#[trigger] r@[k]).holds(id) by {
                    assert(r@[k].holds(id) == cs@[k].holds(id));
                    assert(cs@[k].holds(id));
                }
            }
        }
    }
    r
}

/// The request's filter, narrowed so that none of the points `examples`
/// passes.
pub fn without_examples(filter: &Option<Filter>, examples: Vec<PointIdType>) -> (f: Filter)
    ensures
        forall|id: PointIdType|
            f.accepts(id) == (passes(*filter, id) && !examples@.contains(id)),
{
    let mut must: Option<Vec<Condition>> = None;
    let mut should: Option<Vec<Condition>> = None;
    let mut must_not: Vec<Condition> = Vec::new();
    match filter {
        Some(given) => {
            match &given.must {
                Some(cs) => {
                    must = Some(copy_conditions(cs));
                },
                None => {},
            }
            match &given.should {
                Some(cs) => {
                    should = Some(copy_conditions(cs));
                },
                None => {},
            }
            match &given.must_not {
                Some(cs) => {
                    must_not = copy_conditions(cs);
                },
                None => {},
            }
        },
        None => {},
    }
    let ghost kept = must_not@;
    let last = Condition::HasId(HasIdCondition { has_id: examples });
    must_not.push(last);
    let f = Filter { should, must, must_not: Some(must_not) };
    proof {
        assert forall|id: PointIdType|
            f.accepts(id) == (passes(*filter, id) && !examples@.contains(id)) by {
            let all = must_not@;
            assert(all[kept.len() as int] == last);
            assert(last.holds(id) == examples@.contains(id));
            assert(any_holds(all, id) == (any_holds(kept, id) || examples@.contains(id))) by {
                if any_holds(all, id) {
                    let k = choose|k: int| 0 <= k < all.len() && (#[trigger] all[k]).holds(id);
                    if k < kept.len() {
                        assert(kept[k] == all[k]);
                        assert(kept[k].holds(id));
                    }
                }
                if any_holds(kept, id) {
                    let k = choose|k: int| 0 <= k < kept.len() && (#[trigger] kept[k]).holds(id);
                    assert(all[k] == kept[k]);
                    assert(all[k].holds(id));
                }
                if examples@.contains(id) {
                    assert(all[kept.len() as int].holds(id));
                }
            }
            if filter is Some && filter->Some_0.must_not is None {
                assert(!any_holds(kept, id)) by {
                    if any_holds(kept, id) {
                        let k = choose|k: int|
                            0 <= k < kept.len() && (#[trigger] kept[k]).holds(id);
                    }
                }
            }
            if filter is None {
                assert(!any_holds(kept, id)) by {
                    if any_holds(kept, id) {
                        let k = choose|k: int|
                            0 <= k < kept.len() && (#[trigger] kept[k]).holds(id);
                    }
                }
            }
        }
    }
    f
}

/// Prepares a recommendation: fetches the vectors of the examples and narrows
/// the filter so that no example is recommended. A request without a
/// positive example is refused; an example that does not exist is an error,
/// and the first such example is named, the positive ones coming first.
pub fn recommend_plan(holder: &SegmentHolder, request: &RecommendRequest) -> (r: CollectionResult<
    RecommendPlan,
>)
    requires
        holder.wf(),
    ensures
        match r {
            Ok(plan) => {
                &&& request.positive@.len() > 0
                &&& vectors_of_points(plan.positive@, holder.points(), request.positive@)
                &&& vectors_of_points(plan.negative@, holder.points(), request.negative@)
                &&& plan.top == request.top
                &&& forall|id: PointIdType|
                    plan.filter.accepts(id) == (passes(request.filter, id)
                        && !request.positive@.contains(id) && !request.negative@.contains(id))
            },
            Err(e) => {
                if request.positive@.len() == 0 {
                    e matches CollectionError::BadRequest { description } && description@
                        == "At least one positive vector ID required"@
                } else {
                    ||| names_first_absent(holder.points(), request.positive@, e)
                    ||| vectors_exist(holder.points(), request.positive@) && names_first_absent(
                        holder.points(),
                        request.negative@,
                        e,
                    )
                }
            },
        },
{
    if request.positive.len() == 0 {
        return Err(
            CollectionError::BadRequest {
                description: String::from_str("At least one positive vector ID required"),
            },
        );
    }
    let positive = match example_vectors(holder, &request.positive) {
        Ok(vectors) => vectors,
        Err(e) => {
            return Err(e);
        },
    };
    proof {
        assert forall|i: int| 0 <= i < request.positive@.len() implies holder.points().contains_key(
            #[trigger] request.positive@[i],
        ) by {
            assert(positive@[i]@ == holder.points()[request.positive@[i]].vector);
        }
    }
    let negative = match example_vectors(holder, &request.negative) {
        Ok(vectors) => vectors,
        Err(e) => {
            return Err(e);
        },
    };
    let mut examples: Vec<PointIdType> = copy_vec(&request.positive);
    let mut i: usize = 0;
    while i < request.negative.len()
        invariant
            i <= request.negative@.len(),
            examples@ == request.positive@ + request.negative@.take(i as int),
        decreases request.negative@.len() - i,
    {
        examples.push(request.negative[i]);
        i += 1;
        assert(examples@ =~= request.positive@ + request.negative@.take(i as int));
    }
    proof {
        assert(request.negative@.take(i as int) =~= request.negative@);
        let a = request.positive@;
        let b = request.negative@;
        assert forall|id: PointIdType| (a + b).contains(id) == (a.contains(id) || b.contains(
            id,
        )) by {
            if (a + b).contains(id) {
                let k = choose|k: int| 0 <= k < (a + b).len() && (a + b)[k] == id;
                if k < a.len() {
                    assert(a[k] == id);
                } else {
                    assert(b[k - a.len()] == id);
                }
            }
            if a.contains(id) {
                let k = choose|k: int| 0 <= k < a.len() && a[k] == id;
                assert((a + b)[k] == id);
            }
            if b.contains(id) {
                let k = choose|k: int| 0 <= k < b.len() && b[k] == id;
                assert((a + b)[k + a.len()] == id);
            }
        }
    }
    let filter = without_examples(&request.filter, examples);
    Ok(RecommendPlan { positive, negative, filter, top: request.top })
}

/// Every point of `ids` is a point of `m`.
pub open spec fn vectors_exist(m: Map<PointIdType, PointView>, ids: Seq<PointIdType>) -> bool {
    forall|i: int| 0 <= i < ids.len() ==> m.contains_key(#[trigger] ids[i])
}

} // verus!

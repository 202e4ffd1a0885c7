//! Optimizers: strategies that repack the segments of a holder. A round
//! picks candidate segments, builds one segment with exactly their points and
//! puts it in their place. The points of the holder never change.

use vstd::prelude::*;
use vstd::string::*;
use crate::operations::types::{CollectionError, CollectionResult};
use crate::segment::segment::Segment;
use crate::segment::types::{copy_payload, copy_vec, PointIdType, PointView, SeqNumberType};
use crate::segment_holder::{
    disjoint, held, lemma_take_to_set, lemma_union_added, owner, seg_holds, union_of,
    SegmentHolder, SegmentId,
};

verus! {

/// A strategy for repacking segments.
#[derive(Debug, Clone, Copy, PartialEq, Eq, Structural)]
pub enum Optimizer {
    /// Merges all segments that hold fewer than `threshold` points, where
    /// there are at least two of them.
    Merge { threshold: usize },
    /// Rebuilds, with a search index, the oldest segment that holds at least
    /// `threshold` points and has no index.
    Indexing { threshold: usize },
}

/// The ids of `ids` increase strictly.
pub open spec fn ascending_ids(ids: Seq<SegmentId>) -> bool {
    forall|i: int, j: int| 0 <= i < j < ids.len() ==> ids[i] < ids[j]
}

/// `version` is the highest version among the segments `ids` of the holder;
/// 0 where there are none.
pub open spec fn carried_version(
    holder: &SegmentHolder,
    ids: Seq<SegmentId>,
    version: SeqNumberType,
) -> bool {
    &&& forall|k: int| 0 <= k < ids.len() ==> holder@[#[trigger] ids[k]].spec_version() <= version
    &&& ids.len() == 0 ==> version == 0
    &&& ids.len() > 0 ==> exists|k: int|
        0 <= k < ids.len() && holder@[#[trigger] ids[k]].spec_version() == version
}

/// Every id of `ids` names a segment of the holder, and none occurs twice.
pub open spec fn names_segments(holder: &SegmentHolder, ids: Seq<SegmentId>) -> bool {
    &&& ids.no_duplicates()
    &&& forall|k: int| 0 <= k < ids.len() ==> holder@.contains_key(#[trigger] ids[k])
}

impl Optimizer {
    /// Whether the optimizer would repack this segment.
    pub open spec fn is_candidate(self, segment: Segment) -> bool {
        match self {
            Optimizer::Merge { threshold } => segment@.dom().len() < threshold,
            Optimizer::Indexing { threshold } => {
                segment@.dom().len() >= threshold && !segment.spec_is_indexed()
            },
        }
    }

    /// The ids of the segments that the optimizer would repack.
    pub open spec fn candidate_set(self, holder: &SegmentHolder) -> Set<SegmentId> {
        Set::new(|sid: SegmentId| holder@.contains_key(sid) && self.is_candidate(holder@[sid]))
    }

    /// Whether `ids` are what a round repacks: for a merge all candidates,
    /// ascending, at least two; for indexing the candidate with the least id.
    pub open spec fn chosen(self, holder: &SegmentHolder, ids: Seq<SegmentId>) -> bool {
        match self {
            Optimizer::Merge { .. } => {
                &&& ascending_ids(ids)
                &&& ids.to_set() == self.candidate_set(holder)
                &&& ids.len() >= 2
            },
            Optimizer::Indexing { .. } => {
                &&& ids.len() == 1
                &&& self.candidate_set(holder).contains(ids[0])
                &&& forall|sid: SegmentId| #[trigger]
                    self.candidate_set(holder).contains(sid) ==> ids[0] <= sid
            },
        }
    }

    /// Whether a round has nothing to repack: a merge finds fewer than two
    /// candidates, indexing finds none.
    pub open spec fn idle(self, holder: &SegmentHolder) -> bool {
        match self {
            Optimizer::Merge { .. } => {
                self.candidate_set(holder).finite() && self.candidate_set(holder).len() < 2
            },
            Optimizer::Indexing { .. } => {
                forall|sid: SegmentId| !(#[trigger] self.candidate_set(holder).contains(sid))
            },
        }
    }

    /// Whether a round has something to repack.
    pub open spec fn has_work(self, holder: &SegmentHolder) -> bool {
        exists|ids: Seq<SegmentId>| self.chosen(holder, ids)
    }

    /// Whether the holder `after` is what some round made of `before`, with
    /// the new segment `sid`.
    pub open spec fn round(self, before: &SegmentHolder, after: &SegmentHolder, sid: SegmentId) -> bool {
        exists|ids: Seq<SegmentId>|
            self.chosen(before, ids) && #[trigger] self.repacked(before, after, ids, sid)
    }

    /// Whether the optimizer would repack `segment`.
    fn wants(&self, segment: &Segment) -> (b: bool)
        requires
            segment.wf(),
        ensures
            b == self.is_candidate(*segment),
    {
        match self {
            Optimizer::Merge { threshold } => segment.points_count() < *threshold,
            Optimizer::Indexing { threshold } => {
                segment.points_count() >= *threshold && !segment.is_indexed()
            },
        }
    }

    /// Decides whether a round has work, and on which segments.
    pub fn should_run(&self, holder: &SegmentHolder) -> (r: Option<Vec<SegmentId>>)
        requires
            holder.wf(),
        ensures
            match r {
                Some(ids) => self.chosen(holder, ids@),
                None => self.idle(holder),
            },
    {
        let mut found: Vec<SegmentId> = Vec::new();
        let mut i: usize = 0;
        let n = holder.len();
        proof {
            holder.lemma_wf();
        }
        while i < n
            invariant
                holder.wf(),
                n == holder.segment_ids().len(),
                i <= n,
                ascending_ids(found@),
                forall|k: int|
                    0 <= k < found@.len() ==> self.candidate_set(holder).contains(
                        #[trigger] found@[k],
                    ),
                forall|k: int|
                    0 <= k < found@.len() && i < n ==> (#[trigger] found@[k])
                        < holder.segment_ids()[i as int],
                forall|j: int|
                    0 <= j < i && self.candidate_set(holder).contains(
                        #[trigger] holder.segment_ids()[j],
                    ) ==> found@.contains(holder.segment_ids()[j]),
            decreases n - i,
        {
            proof {
                holder.lemma_wf();
            }
            let (sid, segment) = holder.at(i);
            if self.wants(segment) {
                let ghost before = found@;
                found.push(sid);
                proof {
                    assert forall|j: int|
                        0 <= j < i + 1 && self.candidate_set(holder).contains(
                            #[trigger] holder.segment_ids()[j],
                        ) implies found@.contains(holder.segment_ids()[j]) by {
                        if j < i {
                            let k = choose|k: int|
                                0 <= k < before.len() && before[k] == holder.segment_ids()[j];
                            assert(found@[k] == holder.segment_ids()[j]);
                        } else {
                            assert(found@[before.len() as int] == sid);
                        }
                    }
                }
            }
            i += 1;
        }
        proof {
            holder.lemma_wf();
            assert forall|sid: SegmentId|
                self.candidate_set(holder).contains(sid) implies found@.contains(sid) by {
                assert(holder.segment_ids().contains(sid));
                let j = choose|j: int|
                    0 <= j < holder.segment_ids().len() && holder.segment_ids()[j] == sid;
                assert(self.candidate_set(holder).contains(holder.segment_ids()[j]));
            }
            assert(found@.to_set() =~= self.candidate_set(holder));
            assert(found@.no_duplicates()) by {
                assert forall|a: int, b: int|
                    0 <= a < found@.len() && 0 <= b < found@.len() && a != b implies found@[a]
                    != found@[b] by {
                    if a < b {
                        assert(found@[a] < found@[b]);
                    } else {
                        assert(found@[b] < found@[a]);
                    }
                }
            }
            found@.unique_seq_to_set();
        }
        match self {
            Optimizer::Merge { .. } => {
                if found.len() >= 2 {
                    Some(found)
                } else {
                    None
                }
            },
            Optimizer::Indexing { .. } => {
                if found.len() >= 1 {
                    let first = found[0];
                    let mut one: Vec<SegmentId> = Vec::new();
                    one.push(first);
                    proof {
                        assert forall|sid: SegmentId| #[trigger]
                            self.candidate_set(holder).contains(sid) implies first <= sid by {
                            let k = choose|k: int| 0 <= k < found@.len() && found@[k] == sid;
                            if k > 0 {
                                assert(found@[0] < found@[k]);
                            }
                        }
                    }
                    Some(one)
                } else {
                    proof {
                        assert forall|sid: SegmentId|
                            !(#[trigger] self.candidate_set(holder).contains(sid)) by {
                            if self.candidate_set(holder).contains(sid) {
                                assert(found@.contains(sid));
                            }
                        }
                    }
                    None
                }
            },
        }
    }
    /// What a round that repacked the segments `ids` into the segment `sid`
    /// made of the holder: the segments `ids` are gone, and in their place
    /// stands one new segment with exactly their points, the highest of their
    /// versions, and an index where the optimizer builds one.
    pub open spec fn repacked(
        self,
        before: &SegmentHolder,
        after: &SegmentHolder,
        ids: Seq<SegmentId>,
        sid: SegmentId,
    ) -> bool {
        &&& sid == before.spec_next_id()
        &&& after.spec_next_id() == sid + 1
        &&& after@.contains_key(sid)
        &&& after@ == before@.remove_keys(ids.to_set()).insert(sid, after@[sid])
        &&& after@[sid]@ == before.points_within(ids.to_set())
        &&& carried_version(before, ids, after@[sid].spec_version())
        &&& after@[sid].spec_is_indexed() == (self is Indexing)
    }

    /// Builds one segment out of the segments `candidates`: it holds exactly
    /// their points and carries the highest of their versions. The holder is
    /// only read.
    pub fn build(&self, holder: &SegmentHolder, candidates: &Vec<SegmentId>) -> (segment: Segment)
        requires
            holder.wf(),
            names_segments(holder, candidates@),
        ensures
            segment.wf(),
            segment.spec_dim() == holder.spec_dim(),
            segment.spec_distance() == holder.spec_distance(),
            segment@ == holder.points_within(candidates@.to_set()),
            carried_version(holder, candidates@, segment.spec_version()),
            segment.spec_is_indexed() == (self is Indexing),
    {
        let ghost m = holder@;
        let mut highest: SeqNumberType = 0;
        let mut c: usize = 0;
        while c < candidates.len()
            invariant
                holder.wf(),
                names_segments(holder, candidates@),
                c <= candidates@.len(),
                carried_version(holder, candidates@.take(c as int), highest),
            decreases candidates@.len() - c,
        {
            let ghost before = candidates@.take(c as int);
            let ghost after = candidates@.take(c + 1);
            let ghost was = highest;
            assert(holder@.contains_key(candidates@[c as int]));
            match holder.get(candidates[c]) {
                Some(segment) => {
                    if segment.version() > highest {
                        highest = segment.version();
                    }
                },
                None => {},
            }
            proof {
                assert forall|k: int| 0 <= k < after.len() implies holder@[#[trigger] after[k]].spec_version()
                    <= highest by {
                    if k < c {
                        assert(before[k] == after[k]);
                    }
                }
                if highest == was && c > 0 {
                    let k = choose|k: int|
                        0 <= k < before.len() && holder@[#[trigger] before[k]].spec_version() == was;
                    assert(after[k] == before[k]);
                } else {
                    assert(after[c as int] == candidates@[c as int]);
                }
            }
            c += 1;
        }
        assert(candidates@.take(c as int) =~= candidates@);
        let mut rebuilt = Segment::new(holder.dim(), holder.distance());
        proof {
            holder.lemma_wf();
            assert(m.restrict(candidates@.take(0).to_set()) =~= Map::<SegmentId, Segment>::empty());
            assert(union_of(Map::<SegmentId, Segment>::empty()) =~= Map::<
                PointIdType,
                PointView,
            >::empty()) by {
                assert forall|p: PointIdType| !held(Map::<SegmentId, Segment>::empty(), p) by {
                    if held(Map::<SegmentId, Segment>::empty(), p) {
                        assert(seg_holds(
                            Map::<SegmentId, Segment>::empty(),
                            owner(Map::<SegmentId, Segment>::empty(), p),
                            p,
                        ));
                    }
                }
            }
        }
        let mut c: usize = 0;
        while c < candidates.len()
            invariant
                holder.wf(),
                m == holder@,
                names_segments(holder, candidates@),
                c <= candidates@.len(),
                rebuilt.wf(),
                rebuilt.spec_dim() == holder.spec_dim(),
                rebuilt.spec_distance() == holder.spec_distance(),
                rebuilt.spec_version() <= highest,
                !rebuilt.spec_is_indexed(),
                rebuilt@ == union_of(m.restrict(candidates@.take(c as int).to_set())),
            decreases candidates@.len() - c,
        {
            let cid = candidates[c];
            let ghost done = candidates@.take(c as int).to_set();
            let ghost part = m.restrict(done);
            let ghost outer = rebuilt@;
            proof {
                holder.lemma_wf();
                lemma_take_to_set(candidates@, c as int);
                assert(m.contains_key(cid));
                assert(!done.contains(cid)) by {
                    if candidates@.take(c as int).contains(cid) {
                        let k = choose|k: int|
                            0 <= k < c && candidates@.take(c as int)[k] == cid;
                        assert(candidates@[k] == candidates@[c as int]);
                    }
                }
                assert(disjoint(part)) by {
                    assert forall|a: SegmentId, b: SegmentId, p: PointIdType|
                        seg_holds(part, a, p) && seg_holds(part, b, p) implies a == b by {
                        assert(seg_holds(m, a, p) && seg_holds(m, b, p));
                    }
                }
                assert forall|p: PointIdType| !(held(part, p) && m[cid]@.contains_key(p)) by {
                    if held(part, p) && m[cid]@.contains_key(p) {
                        let a = owner(part, p);
                        assert(seg_holds(part, a, p));
                        assert(seg_holds(m, a, p) && seg_holds(m, cid, p));
                    }
                }
                lemma_union_added(part, cid, m[cid]);
                assert(part.insert(cid, m[cid]) =~= m.restrict(
                    candidates@.take(c + 1).to_set(),
                ));
            }
            match holder.get(cid) {
                Some(segment) => {
                    let n = segment.points_count();
                    let mut j: usize = 0;
                    proof {
                        assert(segment@.restrict(segment.ids().take(0).to_set()) =~= Map::<
                            PointIdType,
                            PointView,
                        >::empty());
                        assert(outer.union_prefer_right(
                            Map::<PointIdType, PointView>::empty(),
                        ) =~= outer);
                    }
                    while j < n
                        invariant
                            segment.wf(),
                            n == segment.ids().len(),
                            j <= n,
                            rebuilt.wf(),
                            rebuilt.spec_dim() == holder.spec_dim(),
                            rebuilt.spec_distance() == holder.spec_distance(),
                            segment.spec_dim() == holder.spec_dim(),
                            rebuilt.spec_version() <= highest,
                            !rebuilt.spec_is_indexed(),
                            forall|p: PointIdType|
                                !(outer.contains_key(p) && segment@.contains_key(p)),
                            rebuilt@ == outer.union_prefer_right(
                                segment@.restrict(segment.ids().take(j as int).to_set()),
                            ),
                        decreases n - j,
                    {
                        let point = segment.point_at(j);
                        let ghost had = rebuilt@;
                        proof {
                            segment.lemma_wf();
                            lemma_take_to_set(segment.ids(), j as int);
                            assert(!segment.ids().take(j as int).to_set().contains(point.id)) by {
                                if segment.ids().take(j as int).contains(point.id) {
                                    let k = choose|k: int|
                                        0 <= k < j && segment.ids().take(j as int)[k] == point.id;
                                    assert(segment.ids()[k] < segment.ids()[j as int]);
                                }
                            }
                            assert(!had.contains_key(point.id));
                        }
                        let _ = rebuilt.upsert_point(
                            highest,
                            point.id,
                            copy_vec(&point.vector),
                            copy_payload(&point.payload),
                        );
                        proof {
                            assert(rebuilt@ =~= outer.union_prefer_right(
                                segment@.restrict(segment.ids().take(j + 1).to_set()),
                            ));
                        }
                        j += 1;
                    }
                    proof {
                        segment.lemma_wf();
                        assert(segment.ids().take(n as int) =~= segment.ids());
                        assert(segment@.restrict(segment@.dom()) =~= segment@);
                    }
                },
                None => {
                    assert(false);
                },
            }
            c += 1;
        }
        assert(candidates@.take(c as int) =~= candidates@);
        rebuilt.bump_version(highest);
        match self {
            Optimizer::Indexing { .. } => {
                rebuilt.build_index();
            },
            Optimizer::Merge { .. } => {},
        }
        rebuilt
    }

    /// Runs one round: decides, builds and swaps. The points of the holder
    /// are afterwards what they were; only the segments differ. A round that
    /// cannot finish leaves the holder as it was.
    pub fn optimize(&self, holder: &mut SegmentHolder) -> (r: CollectionResult<Option<SegmentId>>)
        requires
            old(holder).wf(),
        ensures
            final(holder).wf(),
            final(holder).points() == old(holder).points(),
            final(holder).field_indexes() == old(holder).field_indexes(),
            final(holder).spec_dim() == old(holder).spec_dim(),
            final(holder).spec_distance() == old(holder).spec_distance(),
            forall|op_num: SeqNumberType| #[trigger]
                old(holder).applied_through(op_num) ==> final(holder).applied_through(op_num),
            match r {
                Ok(Some(sid)) => self.round(old(holder), final(holder), sid),
                Ok(None) => self.idle(old(holder)) && *final(holder) == *old(holder),
                Err(e) => {
                    &&& self.has_work(old(holder))
                    &&& old(holder).spec_next_id() == usize::MAX
                    &&& *final(holder) == *old(holder)
                    &&& e matches CollectionError::ServiceError { error }
                    &&& error@ == "Segment ids exhausted"@
                },
            },
    {
        let candidates = match self.should_run(holder) {
            Some(ids) => ids,
            None => {
                return Ok(None);
            },
        };
        assert(self.chosen(old(holder), candidates@));
        if !holder.has_spare_id() {
            return Err(
                CollectionError::ServiceError { error: String::from_str("Segment ids exhausted") },
            );
        }
        proof {
            holder.lemma_wf();
            self.lemma_chosen_names(holder, candidates@);
        }
        let rebuilt = self.build(holder, &candidates);
        let sid = holder.swap(rebuilt, &candidates);
        proof {
            assert(holder@.contains_key(sid));
            assert(holder@[sid] == rebuilt);
            assert(self.repacked(old(holder), holder, candidates@, sid));
            assert(self.chosen(old(holder), candidates@));
            assert forall|op_num: SeqNumberType| #[trigger]
                old(holder).applied_through(op_num) implies holder.applied_through(op_num) by {
                assert forall|x: SegmentId| #[trigger] holder@.contains_key(x) implies holder@[x].spec_version()
                    <= op_num by {
                    if x == sid {
                        if candidates@.len() > 0 {
                            let k = choose|k: int|
                                0 <= k < candidates@.len() && old(holder)@[#[trigger] candidates@[k]].spec_version()
                                    == rebuilt.spec_version();
                            assert(old(holder)@.contains_key(candidates@[k]));
                        }
                    } else {
                        assert(old(holder)@.contains_key(x));
                    }
                }
            }
        }
        Ok(Some(sid))
    }

    /// What a round chooses names segments of the holder, each once.
    pub proof fn lemma_chosen_names(self, holder: &SegmentHolder, ids: Seq<SegmentId>)
        requires
            self.chosen(holder, ids),
        ensures
            names_segments(holder, ids),
    {
        match self {
            Optimizer::Merge { .. } => {
                assert forall|k: int| 0 <= k < ids.len() implies holder@.contains_key(
                    #[trigger] ids[k],
                ) by {
                    assert(ids.to_set().contains(ids[k]));
                }
                assert forall|a: int, b: int|
                    0 <= a < ids.len() && 0 <= b < ids.len() && a != b implies ids[a] != ids[b] by {
                    if a < b {
                        assert(ids[a] < ids[b]);
                    } else {
                        assert(ids[b] < ids[a]);
                    }
                }
            },
            Optimizer::Indexing { .. } => {},
        }
    }
}

} // verus!

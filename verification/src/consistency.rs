//! The index consistency model: the documented invariants relating a
//! group-listing/track-listing pair (GPLB/TPLB) for one sort axis, the
//! validation pass that checks them after a decode, and what an encoder must
//! uphold. Semantic inconsistency is reported apart from structural decode
//! failure: the bytes may be well formed yet cross-referenced wrongly.

use vstd::prelude::*;

use crate::model::GplbElement;
use crate::model::TplbElement;

verus! {

/// The five sort projections the catalog maintains in parallel.
#[derive(Clone, Copy, PartialEq, Eq, Structural, Debug)]
pub enum Axis {
    UploadOrder,
    Artist,
    Album,
    Genre,
    ArtistAlbum,
}

/// One way a structurally valid pair can disagree with itself. Indices are
/// 0-based positions in the sequence the variant speaks of.
#[derive(Clone, Copy, PartialEq, Eq, Structural, Debug)]
pub enum IndexViolation {
    /// The track listing names one title twice, at positions `first` and
    /// `second`.
    DuplicateTitleId { first: usize, second: usize, title_id: u16 },
    /// The in-use group entry at `index` points outside the track listing.
    TitleIdOutOfRange { index: usize, title_id: u16 },
    /// The in-use group entry at `index` breaks the first-occurrence order:
    /// it does not start the track listing although it is the first group, or
    /// it does not point past every earlier group's first track.
    GroupOrderViolation { index: usize },
    /// The group entry at `index` is in use although an earlier entry is not:
    /// the empty groups must form the suffix.
    UsedAfterUnused { index: usize },
}

/// A validation finding: which axis's pair is inconsistent, and how.
#[derive(Clone, Copy, PartialEq, Eq, Structural, Debug)]
pub struct IndexInconsistency {
    pub axis: Axis,
    pub detail: IndexViolation,
}

/// A group entry currently has tracks.
pub open spec fn in_use(e: GplbElement) -> bool {
    e.association != 0
}

/// No title appears twice in the track listing.
pub open spec fn tplb_distinct(t: Seq<TplbElement>) -> bool {
    forall|i: int, j: int|
        0 <= i < j < t.len() ==> (#[trigger] t[i]).title_id != (#[trigger] t[j]).title_id
}

/// Every in-use group entry points at a track-listing position; positions
/// are 1-based.
pub open spec fn gplb_refs_in_range(g: Seq<GplbElement>, t: Seq<TplbElement>) -> bool {
    forall|i: int|
        0 <= i < g.len() && in_use(#[trigger] g[i]) ==> 1 <= g[i].title_id <= t.len()
}

/// The in-use group entries point at strictly increasing track-listing
/// positions: the groups stand in the order of their first occurrence in the
/// track listing.
pub open spec fn gplb_starts_ordered(g: Seq<GplbElement>) -> bool {
    forall|i: int, j: int|
        0 <= i < j < g.len() && in_use(#[trigger] g[i]) && in_use(#[trigger] g[j])
            ==> g[i].title_id < g[j].title_id
}

/// The first in-use group entry, if any, points at the very first
/// track-listing position: every track belongs to some group, so the first
/// group's first track opens the listing.
pub open spec fn gplb_first_start_is_one(g: Seq<GplbElement>) -> bool {
    forall|j: int|
        0 <= j < g.len() && in_use(#[trigger] g[j]) && (forall|i: int|
            0 <= i < j ==> !in_use(#[trigger] g[i])) ==> g[j].title_id == 1
}

/// The group entries without tracks form the suffix of the group listing.
pub open spec fn gplb_unused_suffix(g: Seq<GplbElement>) -> bool {
    forall|i: int, j: int|
        0 <= i < j < g.len() && !in_use(#[trigger] g[i]) ==> !in_use(#[trigger] g[j])
}

/// The documented invariant of a group/track listing pair for one axis.
pub open spec fn consistent(g: Seq<GplbElement>, t: Seq<TplbElement>) -> bool {
    &&& tplb_distinct(t)
    &&& gplb_refs_in_range(g, t)
    &&& gplb_starts_ordered(g)
    &&& gplb_first_start_is_one(g)
    &&& gplb_unused_suffix(g)
}

/// A group listing whose entries below `i` keep the first-occurrence order
/// keeps it on the prefix of length `i`.
proof fn lemma_prefix_orderly(g: Seq<GplbElement>, i: int)
    requires
        0 <= i <= g.len(),
        forall|p: int, q: int|
            0 <= p < q < i && in_use(#[trigger] g[p]) && in_use(#[trigger] g[q]) ==> g[p].title_id
                < g[q].title_id,
        forall|j: int|
            0 <= j < i && in_use(#[trigger] g[j]) && (forall|p: int|
                0 <= p < j ==> !in_use(#[trigger] g[p])) ==> g[j].title_id == 1,
    ensures
        gplb_starts_ordered(g.take(i)),
        gplb_first_start_is_one(g.take(i)),
{
    let tk = g.take(i);
    assert forall|p: int, q: int|
        0 <= p < q < tk.len() && in_use(#[trigger] tk[p]) && in_use(
            #[trigger] tk[q],
        ) implies tk[p].title_id < tk[q].title_id by {
        assert(tk[p] == g[p]);
        assert(tk[q] == g[q]);
    }
    assert forall|j: int|
        0 <= j < tk.len() && in_use(#[trigger] tk[j]) && (forall|p: int|
            0 <= p < j ==> !in_use(#[trigger] tk[p])) implies tk[j].title_id == 1 by {
        assert(tk[j] == g[j]);
        assert(in_use(g[j]));
        assert forall|p: int| 0 <= p < j implies !in_use(#[trigger] g[p]) by {
            assert(tk[p] == g[p]);
            assert(!in_use(tk[p]));
        }
    }
}

/// Validates one decoded group/track listing pair against the axis's
/// documented invariants. Returns `Ok` exactly on consistent pairs; an
/// inconsistent pair yields a finding naming the axis, a violation that is
/// really present, and the first category of violation in checking order:
/// duplicates, then dangling references, then first-occurrence order, then
/// the unused suffix.
#[verifier::loop_isolation(false)]
#[verifier::rlimit(60)]
pub fn validate_pair(axis: Axis, gplb: &Vec<GplbElement>, tplb: &Vec<TplbElement>) -> (r: Result<
    (),
    IndexInconsistency,
>)
    ensures
        r is Ok <==> consistent(gplb@, tplb@),
        match r {
            Ok(()) => true,
            Err(f) => {
                &&& f.axis == axis
                &&& match f.detail {
                    IndexViolation::DuplicateTitleId { first, second, title_id } => {
                        &&& first < second < tplb@.len()
                        &&& tplb@[first as int].title_id == tplb@[second as int].title_id
                        &&& title_id == tplb@[first as int].title_id
                        &&& (forall|p: int, q: int|
                            0 <= p < q < tplb@.len() && p < first ==> (
                            #[trigger] tplb@[p]).title_id != (#[trigger] tplb@[q]).title_id)
                        &&& (forall|q: int|
                            first < q < second ==> tplb@[first as int].title_id != (
                            #[trigger] tplb@[q]).title_id)
                    },
                    IndexViolation::TitleIdOutOfRange { index, title_id } => {
                        &&& index < gplb@.len()
                        &&& in_use(gplb@[index as int])
                        &&& gplb@[index as int].title_id == title_id
                        &&& !(1 <= title_id <= tplb@.len())
                        &&& (forall|k: int|
                            0 <= k < index && in_use(#[trigger] gplb@[k]) ==> 1 <= gplb@[k].title_id
                                <= tplb@.len())
                    },
                    IndexViolation::GroupOrderViolation { index } => {
                        &&& index < gplb@.len()
                        &&& in_use(gplb@[index as int])
                        &&& {
                            ||| ((forall|k: int|
                                0 <= k < index ==> !in_use(#[trigger] gplb@[k])) && gplb@[
                                index as int
                            ].title_id != 1)
                            ||| (exists|k: int|
                                0 <= k < index && in_use(#[trigger] gplb@[k]) && gplb@[k].title_id
                                    >= gplb@[index as int].title_id)
                        }
                        &&& gplb_starts_ordered(gplb@.take(index as int))
                        &&& gplb_first_start_is_one(gplb@.take(index as int))
                    },
                    IndexViolation::UsedAfterUnused { index } => {
                        &&& 0 < index < gplb@.len()
                        &&& in_use(gplb@[index as int])
                        &&& (exists|k: int| 0 <= k < index && !in_use(#[trigger] gplb@[k]))
                        &&& gplb_unused_suffix(gplb@.take(index as int))
                    },
                }
            },
        },
        !tplb_distinct(tplb@) ==> (r matches Err(f) && f.detail is DuplicateTitleId),
        tplb_distinct(tplb@) && !gplb_refs_in_range(gplb@, tplb@) ==> (r matches Err(f)
            && f.detail is TitleIdOutOfRange),
        tplb_distinct(tplb@) && gplb_refs_in_range(gplb@, tplb@) && !(gplb_starts_ordered(gplb@)
            && gplb_first_start_is_one(gplb@)) ==> (r matches Err(f)
            && f.detail is GroupOrderViolation),
        tplb_distinct(tplb@) && gplb_refs_in_range(gplb@, tplb@) && gplb_starts_ordered(gplb@)
            && gplb_first_start_is_one(gplb@) && !gplb_unused_suffix(gplb@) ==> (r matches Err(f)
            && f.detail is UsedAfterUnused),
{
    let g_len = gplb.len();
    let t_len = tplb.len();

    let mut i: usize = 0;
    while i < t_len
        invariant
            i <= t_len,
            forall|p: int, q: int|
                0 <= p < q < t_len && p < i ==> (#[trigger] tplb@[p]).title_id != (
                #[trigger] tplb@[q]).title_id,
        decreases t_len - i,
    {
        let mut j: usize = i + 1;
        while j < t_len
            invariant
                i < j <= t_len,
                forall|q: int|
                    i < q < j ==> tplb@[i as int].title_id != (#[trigger] tplb@[q]).title_id,
            decreases t_len - j,
        {
            if tplb[i].title_id == tplb[j].title_id {
                return Err(
                    IndexInconsistency {
                        axis,
                        detail: IndexViolation::DuplicateTitleId {
                            first: i,
                            second: j,
                            title_id: tplb[i].title_id,
                        },
                    },
                );
            }
            j = j + 1;
        }
        i = i + 1;
    }
    assert(tplb_distinct(tplb@));

    let mut i: usize = 0;
    while i < g_len
        invariant
            i <= g_len,
            forall|k: int|
                0 <= k < i && in_use(#[trigger] gplb@[k]) ==> 1 <= gplb@[k].title_id <= t_len,
        decreases g_len - i,
    {
        if gplb[i].association != 0 {
            let tid = gplb[i].title_id;
            if tid == 0 || tid as usize > t_len {
                return Err(
                    IndexInconsistency {
                        axis,
                        detail: IndexViolation::TitleIdOutOfRange { index: i, title_id: tid },
                    },
                );
            }
        }
        i = i + 1;
    }
    assert(gplb_refs_in_range(gplb@, tplb@));

    let mut i: usize = 0;
    let mut seen_in_use = false;
    let mut last_tid: u16 = 0;
    while i < g_len
        invariant
            i <= g_len,
            forall|p: int, q: int|
                0 <= p < q < i && in_use(#[trigger] gplb@[p]) && in_use(#[trigger] gplb@[q])
                    ==> gplb@[p].title_id < gplb@[q].title_id,
            forall|j: int|
                0 <= j < i && in_use(#[trigger] gplb@[j]) && (forall|p: int|
                    0 <= p < j ==> !in_use(#[trigger] gplb@[p])) ==> gplb@[j].title_id == 1,
            !seen_in_use ==> (forall|k: int| 0 <= k < i ==> !in_use(#[trigger] gplb@[k])),
            seen_in_use ==> (exists|k: int|
                0 <= k < i && in_use(#[trigger] gplb@[k]) && gplb@[k].title_id == last_tid),
            seen_in_use ==> (forall|k: int|
                0 <= k < i && in_use(#[trigger] gplb@[k]) ==> gplb@[k].title_id <= last_tid),
        decreases g_len - i,
    {
        if gplb[i].association != 0 {
            let tid = gplb[i].title_id;
            if !seen_in_use {
                if tid != 1 {
                    proof {
                        assert(!gplb_first_start_is_one(gplb@)) by {
                            assert(in_use(gplb@[i as int]));
                            assert(forall|p: int| 0 <= p < i ==> !in_use(#[trigger] gplb@[p]));
                        }
                    }
                    return Err(
                        IndexInconsistency {
                            axis,
                            detail: IndexViolation::GroupOrderViolation { index: i },
                        },
                    );
                }
                seen_in_use = true;
                last_tid = tid;
            } else {
                if tid <= last_tid {
                    proof {
                        let k = choose|k: int|
                            0 <= k < i && in_use(#[trigger] gplb@[k]) && gplb@[k].title_id
                                == last_tid;
                        assert(!gplb_starts_ordered(gplb@)) by {
                            assert(in_use(gplb@[k]) && in_use(gplb@[i as int]) && k < i
                                && gplb@[k].title_id >= gplb@[i as int].title_id);
                        }
                        lemma_prefix_orderly(gplb@, i as int);
                    }
                    return Err(
                        IndexInconsistency {
                            axis,
                            detail: IndexViolation::GroupOrderViolation { index: i },
                        },
                    );
                }
                last_tid = tid;
            }
        }
        i = i + 1;
    }
    assert(gplb_starts_ordered(gplb@));
    assert(gplb_first_start_is_one(gplb@));

    let mut i: usize = 0;
    let mut seen_unused = false;
    while i < g_len
        invariant
            i <= g_len,
            forall|p: int, q: int|
                0 <= p < q < i && !in_use(#[trigger] gplb@[p]) ==> !in_use(#[trigger] gplb@[q]),
            seen_unused <==> (exists|k: int| 0 <= k < i && !in_use(#[trigger] gplb@[k])),
        decreases g_len - i,
    {
        if gplb[i].association == 0 {
            seen_unused = true;
        } else {
            if seen_unused {
                proof {
                    let k = choose|k: int| 0 <= k < i && !in_use(#[trigger] gplb@[k]);
                    assert(!gplb_unused_suffix(gplb@)) by {
                        assert(!in_use(gplb@[k]) && in_use(gplb@[i as int]) && k < i);
                    }
                }
                return Err(
                    IndexInconsistency {
                        axis,
                        detail: IndexViolation::UsedAfterUnused { index: i },
                    },
                );
            }
        }
        i = i + 1;
    }
    assert(gplb_unused_suffix(gplb@));
    Ok(())
}

/// Breaking one in-use group reference breaks the pair: in a consistent
/// pair, moving any single in-use entry's track reference out of range
/// leaves an inconsistent pair, so validation must report it.
pub proof fn lemma_corrupt_reference_inconsistent(
    g: Seq<GplbElement>,
    t: Seq<TplbElement>,
    i: int,
    v: u16,
)
    requires
        consistent(g, t),
        0 <= i < g.len(),
        in_use(g[i]),
        !(1 <= v <= t.len()),
    ensures
        !consistent(g.update(i, GplbElement { id: g[i].id, association: g[i].association, title_id: v }), t),
{
    let g2 = g.update(i, GplbElement { id: g[i].id, association: g[i].association, title_id: v });
    assert(in_use(g2[i]));
    assert(!(1 <= g2[i].title_id <= t.len()));
    assert(!gplb_refs_in_range(g2, t));
}

} // verus!

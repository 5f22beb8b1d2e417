//! The counting part of a finished worker trace: what a layout diagnostics
//! report says about the plan, apart from timings and geometry.
use crate::diagnostics::{LayoutTraceMode, RowRejection};
use crate::model::NodeId;
use vstd::prelude::*;

verus! {

/// Lists whose decisions a detailed report carries.
pub const LISTED_DECISIONS: usize = 12;

/// Chosen rows whose details a detailed report carries.
pub const DETAILED_CHOSEN: usize = 32;

/// Row candidates whose details a detailed report carries.
pub const DETAILED_CANDIDATES: usize = 96;

/// How many candidates were rejected for `reason`.
pub open spec fn rejections_of(rejected: Seq<Option<RowRejection>>, reason: RowRejection) -> nat
    decreases rejected.len(),
{
    if rejected.len() == 0 {
        0
    } else {
        rejections_of(rejected.drop_last(), reason) + if rejected.last() == Some(reason) {
            1nat
        } else {
            0nat
        }
    }
}

/// Rejected row candidates, by reason.
pub struct RejectionTally {
    pub too_narrow: usize,
    pub unmeasured: usize,
    pub overflow: usize,
    pub peer_too_tall: usize,
    pub edit_lock: usize,
}

impl RejectionTally {
    pub open spec fn of(self, reason: RowRejection) -> usize {
        match reason {
            RowRejection::TooNarrow => self.too_narrow,
            RowRejection::Unmeasured => self.unmeasured,
            RowRejection::Overflow => self.overflow,
            RowRejection::TooTall => self.peer_too_tall,
            RowRejection::EditLock => self.edit_lock,
        }
    }
}

proof fn lemma_rejections_bounded(rejected: Seq<Option<RowRejection>>, reason: RowRejection)
    ensures
        rejections_of(rejected, reason) <= rejected.len(),
    decreases rejected.len(),
{
    if rejected.len() > 0 {
        lemma_rejections_bounded(rejected.drop_last(), reason);
    }
}

/// Tallies the rejection reasons of the row candidates.
pub fn tally_rejections(rejected: &Vec<Option<RowRejection>>) -> (tally: RejectionTally)
    ensures
        forall|reason: RowRejection| #[trigger] tally.of(reason) == rejections_of(rejected@, reason),
{
    let mut tally = RejectionTally {
        too_narrow: 0,
        unmeasured: 0,
        overflow: 0,
        peer_too_tall: 0,
        edit_lock: 0,
    };
    let mut i: usize = 0;
    while i < rejected.len()
        invariant
            i <= rejected@.len(),
            tally.too_narrow == rejections_of(rejected@.take(i as int), RowRejection::TooNarrow),
            tally.unmeasured == rejections_of(rejected@.take(i as int), RowRejection::Unmeasured),
            tally.overflow == rejections_of(rejected@.take(i as int), RowRejection::Overflow),
            tally.peer_too_tall == rejections_of(rejected@.take(i as int), RowRejection::TooTall),
            tally.edit_lock == rejections_of(rejected@.take(i as int), RowRejection::EditLock),
        decreases rejected@.len() - i,
    {
        proof {
            assert(rejected@.take(i + 1).drop_last() =~= rejected@.take(i as int));
            lemma_rejections_bounded(rejected@.take(i as int), RowRejection::TooNarrow);
            lemma_rejections_bounded(rejected@.take(i as int), RowRejection::Unmeasured);
            lemma_rejections_bounded(rejected@.take(i as int), RowRejection::Overflow);
            lemma_rejections_bounded(rejected@.take(i as int), RowRejection::TooTall);
            lemma_rejections_bounded(rejected@.take(i as int), RowRejection::EditLock);
        }
        match rejected[i] {
            Some(RowRejection::TooNarrow) => tally.too_narrow = tally.too_narrow + 1,
            Some(RowRejection::Unmeasured) => tally.unmeasured = tally.unmeasured + 1,
            Some(RowRejection::Overflow) => tally.overflow = tally.overflow + 1,
            Some(RowRejection::TooTall) => tally.peer_too_tall = tally.peer_too_tall + 1,
            Some(RowRejection::EditLock) => tally.edit_lock = tally.edit_lock + 1,
            None => {},
        }
        i += 1;
    }
    assert(rejected@.take(rejected@.len() as int) =~= rejected@);
    tally
}

/// `out` lists the smallest keys, ascending: at most `limit` of them, and a
/// key is left out only when `limit` keys, all smaller, were listed.
pub open spec fn smallest_ascending(keys: Seq<NodeId>, out: Seq<NodeId>, limit: nat) -> bool {
    &&& out.len() <= limit
    &&& forall|i: int, j: int| 0 <= i < j < out.len() ==> out[i] < out[j]
    &&& forall|i: int| 0 <= i < out.len() ==> keys.contains(#[trigger] out[i])
    &&& forall|k: NodeId|
        keys.contains(k) && !out.contains(k) ==> out.len() == limit && forall|i: int|
            0 <= i < out.len() ==> #[trigger] out[i] < k
}

/// The lists whose decisions a report carries: the twelve smallest list ids,
/// ascending, and none unless details were asked for.
pub fn listed_decisions(mode: LayoutTraceMode, keys: &Vec<NodeId>) -> (out: Vec<NodeId>)
    ensures
        mode != LayoutTraceMode::Details ==> out@.len() == 0,
        mode == LayoutTraceMode::Details ==> smallest_ascending(keys@, out@, LISTED_DECISIONS as nat),
{
    let mut out: Vec<NodeId> = Vec::new();
    if !matches!(mode, LayoutTraceMode::Details) {
        return out;
    }
    let mut done = false;
    while !done && out.len() < LISTED_DECISIONS
        invariant
            out@.len() <= LISTED_DECISIONS,
            forall|i: int, j: int| 0 <= i < j < out@.len() ==> out@[i] < out@[j],
            forall|i: int| 0 <= i < out@.len() ==> keys@.contains(#[trigger] out@[i]),
            forall|k: NodeId|
                keys@.contains(k) && out@.len() > 0 && k <= out@.last() ==> out@.contains(k),
            done ==> forall|k: NodeId| keys@.contains(k) ==> out@.contains(k),
        decreases LISTED_DECISIONS - out@.len() + (if done { 0int } else { 1int }),
    {
        let mut best: Option<NodeId> = None;
        let mut i: usize = 0;
        while i < keys.len()
            invariant
                i <= keys@.len(),
                out@.len() <= LISTED_DECISIONS,
                best matches Some(b) ==> keys@.contains(b) && (out@.len() == 0 || b > out@.last()),
                forall|j: int|
                    0 <= j < i && (out@.len() == 0 || keys@[j] > out@.last()) ==> (best matches Some(
                        b,
                    ) && b <= keys@[j]),
            decreases keys@.len() - i,
        {
            let k = keys[i];
            let above = out.len() == 0 || k > out[out.len() - 1];
            if above {
                match best {
                    Some(b) => {
                        if k < b {
                            best = Some(k);
                        }
                    },
                    None => {
                        best = Some(k);
                    },
                }
            }
            i += 1;
        }
        match best {
            Some(b) => {
                proof {
                    assert forall|k: NodeId| keys@.contains(k) && k <= b implies out@.push(b).contains(k) by {
                        let j = choose|j: int| 0 <= j < keys@.len() && keys@[j] == k;
                        if out@.len() > 0 && k <= out@.last() {
                            let m = choose|m: int| 0 <= m < out@.len() && out@[m] == k;
                            assert(out@.push(b)[m] == k);
                        } else {
                            assert(k == b);
                            assert(out@.push(b)[out@.len() as int] == k);
                        }
                    }
                }
                out.push(b);
            },
            None => {
                proof {
                    assert forall|k: NodeId| keys@.contains(k) implies out@.contains(k) by {
                        let j = choose|j: int| 0 <= j < keys@.len() && keys@[j] == k;
                    }
                }
                done = true;
            },
        }
    }
    proof {
        assert forall|k: NodeId| keys@.contains(k) && !out@.contains(k) implies out@.len()
            == LISTED_DECISIONS && forall|i: int| 0 <= i < out@.len() ==> #[trigger] out@[i] < k by {
            assert(out@.len() > 0);
            assert forall|i: int| 0 <= i < out@.len() implies #[trigger] out@[i] < k by {
                if out@[i] >= k {
                    assert(out@.last() >= out@[i]);
                }
            }
        }
    }
    out
}

/// Total of the candidates of the lists that the plan measured.
pub open spec fn measured_candidates(lists: Seq<(bool, usize)>) -> nat
    decreases lists.len(),
{
    if lists.len() == 0 {
        0
    } else {
        measured_candidates(lists.drop_last()) + if lists.last().0 {
            lists.last().1 as nat
        } else {
            0nat
        }
    }
}

proof fn lemma_measured_candidates_prefix(lists: Seq<(bool, usize)>, i: int)
    requires
        0 <= i <= lists.len(),
    ensures
        measured_candidates(lists.take(i)) <= measured_candidates(lists),
    decreases lists.len() - i,
{
    if i < lists.len() {
        lemma_measured_candidates_prefix(lists, i + 1);
        assert(lists.take(i + 1).drop_last() =~= lists.take(i));
    } else {
        assert(lists.take(i) =~= lists);
    }
}

/// Candidate arrangements over all measured lists; each entry says whether
/// its root is measured and how many candidates its decision weighed.
pub fn list_candidates(lists: &Vec<(bool, usize)>) -> (total: usize)
    requires
        measured_candidates(lists@) <= usize::MAX,
    ensures
        total == measured_candidates(lists@),
{
    let mut total: usize = 0;
    let mut i: usize = 0;
    while i < lists.len()
        invariant
            i <= lists@.len(),
            measured_candidates(lists@) <= usize::MAX,
            total == measured_candidates(lists@.take(i as int)),
        decreases lists@.len() - i,
    {
        proof {
            assert(lists@.take(i + 1).drop_last() =~= lists@.take(i as int));
            lemma_measured_candidates_prefix(lists@, i + 1);
        }
        let (measured, candidates) = lists[i];
        if measured {
            total = total + candidates;
        }
        i += 1;
    }
    assert(lists@.take(lists@.len() as int) =~= lists@);
    total
}

/// Whether a detailed report left rows or lists out.
pub fn details_truncated(mode: LayoutTraceMode, chosen: usize, candidates: usize, lists: usize) -> (truncated: bool)
    ensures
        truncated == (mode == LayoutTraceMode::Details && (chosen > DETAILED_CHOSEN || candidates
            > DETAILED_CANDIDATES || lists > LISTED_DECISIONS)),
{
    matches!(mode, LayoutTraceMode::Details) && (chosen > DETAILED_CHOSEN || candidates
        > DETAILED_CANDIDATES || lists > LISTED_DECISIONS)
}

/// How many of `available` rows a report details, at most `cap`, and none
/// unless details were asked for.
pub fn detailed_rows(mode: LayoutTraceMode, available: usize, cap: usize) -> (n: usize)
    ensures
        n == if mode == LayoutTraceMode::Details {
            if available < cap {
                available
            } else {
                cap
            }
        } else {
            0
        },
{
    if !matches!(mode, LayoutTraceMode::Details) {
        0
    } else if available < cap {
        available
    } else {
        cap
    }
}

/// Which roots the planner considered: visible and look-ahead windows when
/// the plan was scoped to measurement ranges, else the whole document.
pub fn candidate_scope(windowed: bool) -> (scope: &'static str)
    ensures
        scope@ == if windowed {
            "visible_and_lookahead_windows"@
        } else {
            "whole_document"@
        },
{
    if windowed {
        "visible_and_lookahead_windows"
    } else {
        "whole_document"
    }
}

} // verus!

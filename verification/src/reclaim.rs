//! The orphan reclaimer.
//!
//! When the current pointer moves from an old generation to a new one, every
//! entry the old generation provided and the new one does not is a removal
//! candidate.  A candidate's live link is deleted only under the ownership
//! test: the on-disk path must be a symlink whose value equals, exactly, the
//! value activating the old generation would have produced — a path through
//! the current pointer.  Anything else at the path was not placed by this
//! system, or has since been changed, and is left alone.  Safety and
//! correctness of this test are proved here over the model.

use vstd::prelude::*;
use crate::model::Disk;
use crate::model::Entry;
use crate::model::ObservedLink;
use crate::model::PathModel;
use crate::model::observed_of;
use crate::paths::contains_path;
use crate::paths::path_clone;
use crate::paths::path_eq;
use crate::paths::path_join;
use crate::swap::LinkState;

verus! {

/// The ownership test: the observed state is a symlink holding exactly
/// `expected`.  This predicate alone gates every deletion the system makes.
pub open spec fn owned_by_spec(obs: ObservedLink, expected: PathModel) -> bool {
    obs == ObservedLink::Symlink(expected)
}

/// Whether the observed state of a live path shows a link this system owns:
/// a symlink whose value equals `expected`.
pub fn owned_by(observed: &LinkState, expected: &Vec<String>) -> (r: bool)
    ensures
        r == owned_by_spec(observed.model(), expected.deep_view()),
{
    match observed {
        LinkState::Symlink(v) => path_eq(v, expected),
        LinkState::Absent => false,
        LinkState::Other => false,
    }
}

/// The removal candidates: the relative paths of `old` that do not occur in
/// `new`, in their order in `old`.
pub open spec fn candidates_spec(
    old: Seq<PathModel>,
    new: Seq<PathModel>,
) -> Seq<PathModel>
    decreases old.len(),
{
    if old.len() == 0 {
        Seq::empty()
    } else {
        let rest = candidates_spec(old.drop_last(), new);
        if !new.contains(old.last()) {
            rest.push(old.last())
        } else {
            rest
        }
    }
}

/// A path is a removal candidate exactly when the old generation has it and
/// the new one does not.
pub proof fn lemma_candidates_contains(old: Seq<PathModel>, new: Seq<PathModel>, p: PathModel)
    ensures
        candidates_spec(old, new).contains(p) <==> old.contains(p) && !new.contains(p),
    decreases old.len(),
{
    if old.len() > 0 {
        lemma_candidates_contains(old.drop_last(), new, p);
        let rest = candidates_spec(old.drop_last(), new);
        if old.contains(p) && !new.contains(p) {
            if p == old.last() {
                assert(candidates_spec(old, new) == rest.push(p));
                assert(candidates_spec(old, new)[candidates_spec(old, new).len() - 1] == p);
            } else {
                let i = choose|i: int| 0 <= i < old.len() && old[i] == p;
                assert(old.drop_last()[i] == p);
                assert(old.drop_last().contains(p));
                let j = choose|j: int| 0 <= j < rest.len() && rest[j] == p;
                if !new.contains(old.last()) {
                    assert(rest.push(old.last())[j] == p);
                }
            }
        } else {
            if candidates_spec(old, new).contains(p) {
                let j = choose|j: int|
                    0 <= j < candidates_spec(old, new).len() && candidates_spec(old, new)[j] == p;
                if !new.contains(old.last()) {
                    if j < rest.len() {
                        assert(rest[j] == p);
                    }
                } else {
                    assert(rest[j] == p);
                }
                assert(old.contains(p) && !new.contains(p)) by {
                    if rest.contains(p) {
                        let m = choose|m: int| 0 <= m < old.drop_last().len()
                            && old.drop_last()[m] == p;
                        assert(old[m] == p);
                    }
                }
            }
        }
    }
}

/// When every old entry is still present in the new set, there are no
/// candidates at all — in particular when old and new are the same
/// generation's entries.
pub proof fn lemma_candidates_all_present(old: Seq<PathModel>, new: Seq<PathModel>)
    requires
        forall|i: int| 0 <= i < old.len() ==> new.contains(#[trigger] old[i]),
    ensures
        candidates_spec(old, new) == Seq::<PathModel>::empty(),
    decreases old.len(),
{
    if old.len() > 0 {
        assert(forall|i: int|
            0 <= i < old.drop_last().len() ==> old[i] == #[trigger] old.drop_last()[i]);
        lemma_candidates_all_present(old.drop_last(), new);
        assert(new.contains(old.last()));
    }
}

/// Computes the removal candidates: every old entry the new generation no
/// longer provides.
pub fn removal_candidates(
    old_entries: &Vec<Vec<String>>,
    new_entries: &Vec<Vec<String>>,
) -> (r: Vec<Vec<String>>)
    ensures
        r.deep_view() == candidates_spec(old_entries.deep_view(), new_entries.deep_view()),
{
    let ghost old = old_entries.deep_view();
    let ghost new = new_entries.deep_view();
    let mut r: Vec<Vec<String>> = Vec::new();
    let mut i: usize = 0;
    proof {
        assert(old.take(0) =~= Seq::<PathModel>::empty());
        assert(r.deep_view() =~= candidates_spec(old.take(0), new));
    }
    while i < old_entries.len()
        invariant
            i <= old_entries@.len(),
            old == old_entries.deep_view(),
            new == new_entries.deep_view(),
            old.len() == old_entries@.len(),
            r.deep_view() == candidates_spec(old.take(i as int), new),
        decreases old_entries@.len() - i,
    {
        proof {
            assert(old.take(i + 1).drop_last() =~= old.take(i as int));
            assert(old.take(i + 1).last() == old[i as int]);
            assert(old_entries@[i as int].deep_view() == old[i as int]);
        }
        if !contains_path(new_entries, &old_entries[i]) {
            let cand = path_clone(&old_entries[i]);
            let ghost pre = r@;
            let ghost predv = r.deep_view();
            r.push(cand);
            proof {
                assert(predv.len() == pre.len());
                assert forall|k: int| 0 <= k < r@.len() implies r.deep_view()[k]
                    == candidates_spec(old.take(i + 1), new)[k] by {
                    assert(r.deep_view()[k] == r@[k].deep_view());
                    if k < pre.len() {
                        assert(r@[k] == pre[k]);
                        assert(predv[k] == pre[k].deep_view());
                        assert(predv[k] == candidates_spec(old.take(i as int), new)[k]);
                    }
                }
                assert(r.deep_view() =~= candidates_spec(old.take(i + 1), new));
            }
        } else {
            proof {
                assert(r.deep_view() =~= candidates_spec(old.take(i + 1), new));
            }
        }
        i += 1;
    }
    proof {
        assert(old.take(i as int) =~= old);
    }
    r
}

/// One reclaim check: the live path to examine and the link value it must
/// hold, exactly, for removal to proceed.
#[derive(Debug, PartialEq, Eq)]
pub struct ReclaimCheck {
    /// The live path where the candidate's managed link would be.
    pub target: Vec<String>,
    /// The value the link must hold: the candidate's path through the current
    /// pointer.
    pub expected: Vec<String>,
}

/// The model of one reclaim check.
pub struct CheckModel {
    /// The live path to examine.
    pub target: PathModel,
    /// The value the link must hold for removal.
    pub expected: PathModel,
}

impl ReclaimCheck {
    /// The check this value stands for.
    pub open spec fn model(&self) -> CheckModel {
        CheckModel { target: self.target.deep_view(), expected: self.expected.deep_view() }
    }
}

/// The models of a sequence of reclaim checks.
pub open spec fn checks_model(v: Seq<ReclaimCheck>) -> Seq<CheckModel> {
    Seq::new(v.len(), |i: int| v[i].model())
}

/// The reclaim checks for one tree kind: for each candidate relative path,
/// the live path under `target_root` and the expected value through the
/// current pointer at `current`, under `files/<kind>`.
pub open spec fn checks_for(
    current: PathModel,
    kind: Seq<char>,
    target_root: PathModel,
    cands: Seq<PathModel>,
) -> Seq<CheckModel> {
    Seq::new(
        cands.len(),
        |i: int| CheckModel {
            target: target_root + cands[i],
            expected: (current + seq!["files"@, kind]) + cands[i],
        },
    )
}

fn checks_for_tree(
    current: &Vec<String>,
    kind: &str,
    target_root: &Vec<String>,
    cands: &Vec<Vec<String>>,
) -> (r: Vec<ReclaimCheck>)
    ensures
        checks_model(r@) == checks_for(
            current.deep_view(),
            kind@,
            target_root.deep_view(),
            cands.deep_view(),
        ),
{
    let mut sub: Vec<String> = Vec::new();
    sub.push("files".to_owned());
    sub.push(kind.to_owned());
    proof {
        assert(sub.deep_view() =~= seq!["files"@, kind@]);
    }
    let expected_base = path_join(current, &sub);
    let ghost goal = checks_for(
        current.deep_view(),
        kind@,
        target_root.deep_view(),
        cands.deep_view(),
    );
    let mut r: Vec<ReclaimCheck> = Vec::new();
    let mut i: usize = 0;
    proof {
        assert(checks_model(r@) =~= goal.take(0));
    }
    while i < cands.len()
        invariant
            i <= cands@.len(),
            goal == checks_for(
                current.deep_view(),
                kind@,
                target_root.deep_view(),
                cands.deep_view(),
            ),
            goal.len() == cands@.len(),
            expected_base.deep_view() == current.deep_view() + seq!["files"@, kind@],
            checks_model(r@) == goal.take(i as int),
        decreases cands@.len() - i,
    {
        let target = path_join(target_root, &cands[i]);
        let expected = path_join(&expected_base, &cands[i]);
        let ghost pre = r@;
        let ghost premodel = checks_model(r@);
        r.push(ReclaimCheck { target, expected });
        proof {
            assert(premodel.len() == i as int);
            assert(pre.len() == i as int);
            assert(cands@[i as int].deep_view() == cands.deep_view()[i as int]);
            assert forall|k: int| 0 <= k < i + 1 implies checks_model(r@)[k]
                == goal.take(i + 1)[k] by {
                assert(checks_model(r@)[k] == r@[k].model());
                if k < i {
                    assert(r@[k] == pre[k]);
                    assert(premodel[k] == pre[k].model());
                    assert(premodel[k] == goal.take(i as int)[k]);
                }
            }
            assert(checks_model(r@) =~= goal.take(i + 1));
        }
        i += 1;
    }
    proof {
        assert(goal.take(i as int) =~= goal);
    }
    r
}

/// Plans the reclaim pass after the current pointer has moved to the new
/// generation: for both tree kinds, every entry the old generation provided
/// and the new one does not becomes a check, pairing its live path with the
/// link value the old activation would have produced — a path through the
/// current pointer, which is why this must run only after the pointer has
/// been advanced.
pub fn cleanup_files(
    current: &Vec<String>,
    home: &Vec<String>,
    old_root_entries: &Vec<Vec<String>>,
    new_root_entries: &Vec<Vec<String>>,
    old_home_entries: &Vec<Vec<String>>,
    new_home_entries: &Vec<Vec<String>>,
) -> (r: Vec<ReclaimCheck>)
    ensures
        checks_model(r@) == checks_for(
            current.deep_view(),
            "root"@,
            Seq::empty(),
            candidates_spec(old_root_entries.deep_view(), new_root_entries.deep_view()),
        ) + checks_for(
            current.deep_view(),
            "home"@,
            home.deep_view(),
            candidates_spec(old_home_entries.deep_view(), new_home_entries.deep_view()),
        ),
{
    let root_cands = removal_candidates(old_root_entries, new_root_entries);
    let home_cands = removal_candidates(old_home_entries, new_home_entries);
    let fs_root: Vec<String> = Vec::new();
    let mut r = checks_for_tree(current, "root", &fs_root, &root_cands);
    let mut b = checks_for_tree(current, "home", home, &home_cands);
    let ghost ra = r@;
    let ghost rb = b@;
    r.append(&mut b);
    proof {
        assert(fs_root.deep_view() =~= Seq::<Seq<char>>::empty());
        assert forall|k: int| 0 <= k < r@.len() implies checks_model(r@)[k]
            == (checks_model(ra) + checks_model(rb))[k] by {
            if k < ra.len() {
                assert(r@[k] == ra[k]);
            } else {
                assert(r@[k] == rb[k - ra.len()]);
            }
        }
        assert(checks_model(r@) =~= checks_model(ra) + checks_model(rb));
    }
    r
}

/// One reclaim step on the model: the candidate's live path is removed
/// exactly when the ownership test passes on the true state of the disk.
pub open spec fn reclaim_one(disk: Disk, c: CheckModel) -> Disk {
    if owned_by_spec(observed_of(disk, c.target), c.expected) {
        disk.remove(c.target)
    } else {
        disk
    }
}

/// The disk after processing the checks from index `k` on, in order.
pub open spec fn reclaim_from(disk: Disk, cs: Seq<CheckModel>, k: int) -> Disk
    decreases cs.len() - k,
{
    if k < 0 || k >= cs.len() {
        disk
    } else {
        reclaim_from(reclaim_one(disk, cs[k]), cs, k + 1)
    }
}

/// The disk after the whole reclaim pass.
pub open spec fn reclaim_all(disk: Disk, cs: Seq<CheckModel>) -> Disk {
    reclaim_from(disk, cs, 0)
}

/// Reclaim never creates or rewrites anything: whatever the pass leaves at a
/// path was there before, unchanged.
pub proof fn lemma_reclaim_from_submap(disk: Disk, cs: Seq<CheckModel>, k: int, p: PathModel)
    ensures
        reclaim_from(disk, cs, k).dom().contains(p) ==> disk.dom().contains(p)
            && reclaim_from(disk, cs, k)[p] == disk[p],
    decreases cs.len() - k,
{
    if 0 <= k < cs.len() {
        lemma_reclaim_from_submap(reclaim_one(disk, cs[k]), cs, k + 1, p);
    }
}

/// A path absent from the disk stays absent through the pass.
proof fn lemma_reclaim_from_absent(disk: Disk, cs: Seq<CheckModel>, k: int, p: PathModel)
    requires
        !disk.dom().contains(p),
    ensures
        !reclaim_from(disk, cs, k).dom().contains(p),
    decreases cs.len() - k,
{
    if 0 <= k < cs.len() {
        lemma_reclaim_from_absent(reclaim_one(disk, cs[k]), cs, k + 1, p);
    }
}

proof fn lemma_reclaim_from_safety(disk: Disk, cs: Seq<CheckModel>, k: int, p: PathModel)
    requires
        0 <= k,
        forall|i: int|
            k <= i < cs.len() && (#[trigger] cs[i]).target == p ==> !owned_by_spec(
                observed_of(disk, p),
                cs[i].expected,
            ),
    ensures
        reclaim_from(disk, cs, k).dom().contains(p) == disk.dom().contains(p),
        disk.dom().contains(p) ==> reclaim_from(disk, cs, k)[p] == disk[p],
    decreases cs.len() - k,
{
    if k < cs.len() {
        let d1 = reclaim_one(disk, cs[k]);
        assert(d1.dom().contains(p) == disk.dom().contains(p));
        assert(disk.dom().contains(p) ==> d1[p] == disk[p]);
        assert(observed_of(d1, p) == observed_of(disk, p));
        lemma_reclaim_from_safety(d1, cs, k + 1, p);
    }
}

/// Reclaim safety: a path that no check owns — its on-disk state is not a
/// symlink holding exactly the expected value, for every check aimed at it —
/// is never deleted or changed by the pass, even when its relative path was a
/// removal candidate.
pub proof fn lemma_reclaim_safety(disk: Disk, cs: Seq<CheckModel>, p: PathModel)
    requires
        forall|i: int|
            0 <= i < cs.len() && (#[trigger] cs[i]).target == p ==> !owned_by_spec(
                observed_of(disk, p),
                cs[i].expected,
            ),
    ensures
        reclaim_all(disk, cs).dom().contains(p) == disk.dom().contains(p),
        disk.dom().contains(p) ==> reclaim_all(disk, cs)[p] == disk[p],
{
    lemma_reclaim_from_safety(disk, cs, 0, p);
}

proof fn lemma_reclaim_from_removes(disk: Disk, cs: Seq<CheckModel>, k: int, i: int)
    requires
        0 <= k <= i < cs.len(),
        disk.dom().contains(cs[i].target) ==> disk[cs[i].target] == Entry::Symlink(
            cs[i].expected,
        ),
    ensures
        !reclaim_from(disk, cs, k).dom().contains(cs[i].target),
    decreases cs.len() - k,
{
    let t = cs[i].target;
    let d1 = reclaim_one(disk, cs[k]);
    if k == i {
        if disk.dom().contains(t) {
            assert(owned_by_spec(observed_of(disk, t), cs[i].expected));
            assert(d1 == disk.remove(t));
            lemma_reclaim_from_absent(d1, cs, k + 1, t);
        } else {
            assert(!d1.dom().contains(t));
            lemma_reclaim_from_absent(d1, cs, k + 1, t);
        }
    } else {
        if d1.dom().contains(t) {
            assert(d1[t] == disk[t]);
            lemma_reclaim_from_removes(d1, cs, k + 1, i);
        } else {
            lemma_reclaim_from_absent(d1, cs, k + 1, t);
        }
    }
}

/// Reclaim of an owned link: when some check finds its live path holding
/// exactly the expected value, the pass removes that path.
pub proof fn lemma_reclaim_removes_owned(disk: Disk, cs: Seq<CheckModel>, i: int)
    requires
        0 <= i < cs.len(),
        owned_by_spec(observed_of(disk, cs[i].target), cs[i].expected),
    ensures
        !reclaim_all(disk, cs).dom().contains(cs[i].target),
{
    lemma_reclaim_from_removes(disk, cs, 0, i);
}

/// Reclaim correctness, removal direction: a managed link that activation of
/// the old generation produced for relative path `r` (its value routes
/// through the current pointer), where the new generation has no entry at
/// `r`, is removed by the reclaim pass over the two generations' entries.
pub proof fn lemma_reclaim_correct(
    disk: Disk,
    current: PathModel,
    kind: Seq<char>,
    target_root: PathModel,
    old_entries: Seq<PathModel>,
    new_entries: Seq<PathModel>,
    r: PathModel,
)
    requires
        old_entries.contains(r),
        !new_entries.contains(r),
        observed_of(disk, target_root + r) == ObservedLink::Symlink(
            (current + seq!["files"@, kind]) + r,
        ),
    ensures
        !reclaim_all(
            disk,
            checks_for(current, kind, target_root, candidates_spec(old_entries, new_entries)),
        ).dom().contains(target_root + r),
{
    lemma_candidates_contains(old_entries, new_entries, r);
    let cands = candidates_spec(old_entries, new_entries);
    let i = choose|i: int| 0 <= i < cands.len() && cands[i] == r;
    let cs = checks_for(current, kind, target_root, cands);
    assert(cs[i].target == target_root + r);
    assert(cs[i].expected == (current + seq!["files"@, kind]) + r);
    lemma_reclaim_removes_owned(disk, cs, i);
}

/// Reclaim correctness, preservation direction: switching to the generation
/// that is already current compares its entries against themselves, yields no
/// candidates, and the reclaim pass leaves the disk untouched — no managed
/// link is removed.
pub proof fn lemma_reclaim_same_generation(
    disk: Disk,
    current: PathModel,
    kind: Seq<char>,
    target_root: PathModel,
    entries: Seq<PathModel>,
)
    ensures
        reclaim_all(
            disk,
            checks_for(current, kind, target_root, candidates_spec(entries, entries)),
        ) == disk,
{
    lemma_candidates_all_present(entries, entries);
    let cs = checks_for(current, kind, target_root, candidates_spec(entries, entries));
    assert(cs.len() == 0);
}

} // verus!

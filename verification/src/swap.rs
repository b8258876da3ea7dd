//! The atomic link swapper.
//!
//! Setting a symlink to a new value must be idempotent, must never destroy
//! unexpected content, and must never leave the link path in a partially
//! written state.  The caller observes the link path and hands the
//! observation in; the planner decides between doing nothing, swapping
//! through a temporary sibling, and first renaming foreign content aside to a
//! timestamped backup.  The returned actions are primitive filesystem
//! mutations whose meaning is fixed by the model in [`crate::model`], over
//! which the atomicity and idempotence laws are proved.

use vstd::prelude::*;
use vstd::string::StringExecFns;
use crate::digits::decimal_of;
use crate::digits::u64_to_decimal;
use crate::model::Disk;
use crate::model::Entry;
use crate::model::ObservedLink;
use crate::model::PathModel;
use crate::model::Step;
use crate::model::apply_step;
use crate::model::apply_steps;
use crate::model::lemma_apply_steps_cons;
use crate::model::lemma_apply_steps_empty;
use crate::model::observes;
use crate::paths::path_clone;
use crate::paths::path_eq;

verus! {

/// What the caller observed at a link path, as plain values.
#[derive(Debug, PartialEq, Eq)]
pub enum LinkState {
    /// Nothing exists at the path.
    Absent,
    /// A symlink exists; the field holds its current value.
    Symlink(Vec<String>),
    /// Something exists that is not a symlink.
    Other,
}

impl LinkState {
    /// The observation this value stands for.
    pub open spec fn model(&self) -> ObservedLink {
        match self {
            LinkState::Absent => ObservedLink::Absent,
            LinkState::Symlink(v) => ObservedLink::Symlink(v.deep_view()),
            LinkState::Other => ObservedLink::Other,
        }
    }
}

/// How a single link is brought to its target value.
#[derive(Debug, PartialEq, Eq)]
pub enum SwapPlan {
    /// The link already holds the target value: nothing is written.
    NoOp,
    /// Create a temporary sibling link and rename it onto the link path.
    Swap,
    /// The path holds content this system does not own: rename it aside to a
    /// timestamped backup first, then swap.
    BackupThenSwap,
}

/// The plan for bringing the observed state `obs` to a link holding `target`.
pub open spec fn swap_plan_spec(obs: ObservedLink, target: PathModel) -> SwapPlan {
    match obs {
        ObservedLink::Symlink(v) => if v == target {
            SwapPlan::NoOp
        } else {
            SwapPlan::Swap
        },
        ObservedLink::Other => SwapPlan::BackupThenSwap,
        ObservedLink::Absent => SwapPlan::Swap,
    }
}

/// Decides how to bring a link to `target`: a no-op when the link already
/// holds that value, a backup first when the path holds something that is not
/// a symlink, and a plain swap otherwise.
pub fn symlink_atomic(observed: &LinkState, target: &Vec<String>) -> (r: SwapPlan)
    ensures
        r == swap_plan_spec(observed.model(), target.deep_view()),
{
    match observed {
        LinkState::Symlink(v) => if path_eq(v, target) {
            SwapPlan::NoOp
        } else {
            SwapPlan::Swap
        },
        LinkState::Other => SwapPlan::BackupThenSwap,
        LinkState::Absent => SwapPlan::Swap,
    }
}

/// `p` with `suffix` appended to its final component: a sibling path in the
/// same directory.
pub open spec fn with_suffix(p: PathModel, suffix: Seq<char>) -> PathModel
    recommends
        p.len() > 0,
{
    p.update(p.len() - 1, p.last() + suffix)
}

/// The temporary sibling used while swapping the link at `p`.
pub open spec fn tmp_sibling_spec(p: PathModel) -> PathModel {
    with_suffix(p, ".tmp"@)
}

/// The backup sibling that foreign content at `p` is renamed to, stamped with
/// the time of the swap in seconds.
pub open spec fn bak_sibling_spec(p: PathModel, secs: nat) -> PathModel {
    with_suffix(p, ".bak-"@ + decimal_of(secs))
}

/// A sibling differs from the path itself: its final component is strictly
/// longer.
pub proof fn lemma_with_suffix_ne(p: PathModel, suffix: Seq<char>)
    requires
        p.len() > 0,
        suffix.len() > 0,
    ensures
        with_suffix(p, suffix) != p,
{
    assert(with_suffix(p, suffix)[p.len() - 1].len() == p.last().len() + suffix.len());
}

/// The temporary sibling never collides with the link path itself.
pub proof fn lemma_tmp_sibling_ne(p: PathModel)
    requires
        p.len() > 0,
    ensures
        tmp_sibling_spec(p) != p,
{
    reveal_strlit(".tmp");
    lemma_with_suffix_ne(p, ".tmp"@);
}

/// The backup sibling never collides with the link path itself.
pub proof fn lemma_bak_sibling_ne(p: PathModel, secs: nat)
    requires
        p.len() > 0,
    ensures
        bak_sibling_spec(p, secs) != p,
{
    reveal_strlit(".bak-");
    lemma_with_suffix_ne(p, ".bak-"@ + decimal_of(secs));
}

/// Builds the sibling of `link` whose final component carries `suffix`.
pub fn sibling_with_suffix(link: &Vec<String>, suffix: &str) -> (r: Vec<String>)
    requires
        link@.len() > 0,
    ensures
        r.deep_view() == with_suffix(link.deep_view(), suffix@),
{
    let mut r = path_clone(link);
    let ghost pre = r@;
    let last = r.pop().unwrap();
    proof {
        assert(last@ == link.deep_view().last());
        assert forall|k: int| 0 <= k < r@.len() implies r.deep_view()[k]
            == link.deep_view()[k] by {
            assert(r@[k] == pre[k]);
        }
    }
    let mut name = last;
    name.append(suffix);
    let ghost mid = r@;
    r.push(name);
    proof {
        let goal = with_suffix(link.deep_view(), suffix@);
        assert forall|k: int| 0 <= k < r@.len() implies r.deep_view()[k] == goal[k] by {
            assert(r.deep_view()[k] == r@[k].deep_view());
            if k < r@.len() - 1 {
                assert(r@[k] == mid[k]);
            }
        }
        assert(r.deep_view() =~= goal);
    }
    r
}

/// The temporary sibling of `link`, as a path.
pub fn tmp_sibling(link: &Vec<String>) -> (r: Vec<String>)
    requires
        link@.len() > 0,
    ensures
        r.deep_view() == tmp_sibling_spec(link.deep_view()),
{
    sibling_with_suffix(link, ".tmp")
}

/// The backup sibling of `link` stamped with `secs`, as a path.
pub fn bak_sibling(link: &Vec<String>, secs: u64) -> (r: Vec<String>)
    requires
        link@.len() > 0,
    ensures
        r.deep_view() == bak_sibling_spec(link.deep_view(), secs as nat),
{
    let mut suffix = ".bak-".to_owned();
    let stamp = u64_to_decimal(secs);
    suffix.append(stamp.as_str());
    sibling_with_suffix(link, suffix.as_str())
}

/// One primitive filesystem mutation for the caller to perform, with plain
/// paths.  Its meaning is [`crate::model::Step`].
#[derive(Debug, PartialEq, Eq)]
pub enum FsAction {
    /// Create the directories leading up to `path` (the link's parent chain).
    EnsureDirs { path: Vec<String> },
    /// Rename `from` onto `to`, atomically replacing `to`.
    Rename { from: Vec<String>, to: Vec<String> },
    /// Create a symlink at `at` holding the value `value`.
    CreateSymlink { at: Vec<String>, value: Vec<String> },
    /// Remove the entry at `at`.
    Remove { at: Vec<String> },
}

impl FsAction {
    /// The model step this action stands for.
    pub open spec fn model(&self) -> Step {
        match self {
            FsAction::EnsureDirs { path } => Step::EnsureDirs(path.deep_view()),
            FsAction::Rename { from, to } => Step::Rename {
                from: from.deep_view(),
                to: to.deep_view(),
            },
            FsAction::CreateSymlink { at, value } => Step::CreateLink {
                at: at.deep_view(),
                value: value.deep_view(),
            },
            FsAction::Remove { at } => Step::Remove(at.deep_view()),
        }
    }
}

/// The model steps of a sequence of actions.
pub open spec fn actions_model(v: Seq<FsAction>) -> Seq<Step> {
    Seq::new(v.len(), |i: int| v[i].model())
}

/// The steps that realize the swap of `link` to `target`, from the observed
/// state `obs`, with `bak` as the backup destination.  Parent directories are
/// ensured first in every case.
pub open spec fn swap_steps_spec(
    link: PathModel,
    target: PathModel,
    obs: ObservedLink,
    bak: PathModel,
) -> Seq<Step> {
    let tmp = tmp_sibling_spec(link);
    let dirs = Step::EnsureDirs(link.drop_last());
    match swap_plan_spec(obs, target) {
        SwapPlan::NoOp => seq![dirs],
        SwapPlan::Swap => seq![
            dirs,
            Step::CreateLink { at: tmp, value: target },
            Step::Rename { from: tmp, to: link },
        ],
        SwapPlan::BackupThenSwap => seq![
            dirs,
            Step::Rename { from: link, to: bak },
            Step::CreateLink { at: tmp, value: target },
            Step::Rename { from: tmp, to: link },
        ],
    }
}

/// Plans the swap of `link` to `target` as concrete actions, from the
/// caller's observation of the link path; `now_secs` stamps the backup name.
pub fn symlink_atomic_actions(
    link: &Vec<String>,
    target: &Vec<String>,
    observed: &LinkState,
    now_secs: u64,
) -> (r: Vec<FsAction>)
    requires
        link@.len() > 0,
    ensures
        actions_model(r@) == swap_steps_spec(
            link.deep_view(),
            target.deep_view(),
            observed.model(),
            bak_sibling_spec(link.deep_view(), now_secs as nat),
        ),
{
    let mut parent = path_clone(link);
    let _last = parent.pop();
    proof {
        assert(parent.deep_view() =~= link.deep_view().drop_last());
    }
    let mut r: Vec<FsAction> = Vec::new();
    r.push(FsAction::EnsureDirs { path: parent });
    match symlink_atomic(observed, target) {
        SwapPlan::NoOp => {
            proof {
                assert(actions_model(r@) =~= swap_steps_spec(
                    link.deep_view(),
                    target.deep_view(),
                    observed.model(),
                    bak_sibling_spec(link.deep_view(), now_secs as nat),
                ));
            }
        },
        SwapPlan::Swap => {
            let tmp = tmp_sibling(link);
            let tmp2 = path_clone(&tmp);
            r.push(FsAction::CreateSymlink { at: tmp, value: path_clone(target) });
            r.push(FsAction::Rename { from: tmp2, to: path_clone(link) });
            proof {
                assert(actions_model(r@) =~= swap_steps_spec(
                    link.deep_view(),
                    target.deep_view(),
                    observed.model(),
                    bak_sibling_spec(link.deep_view(), now_secs as nat),
                ));
            }
        },
        SwapPlan::BackupThenSwap => {
            let bak = bak_sibling(link, now_secs);
            r.push(FsAction::Rename { from: path_clone(link), to: bak });
            let tmp = tmp_sibling(link);
            let tmp2 = path_clone(&tmp);
            r.push(FsAction::CreateSymlink { at: tmp, value: path_clone(target) });
            r.push(FsAction::Rename { from: tmp2, to: path_clone(link) });
            proof {
                assert(actions_model(r@) =~= swap_steps_spec(
                    link.deep_view(),
                    target.deep_view(),
                    observed.model(),
                    bak_sibling_spec(link.deep_view(), now_secs as nat),
                ));
            }
        },
    }
    r
}

/// The disk after the full swap: untouched on a no-op; otherwise the link
/// holds the target, the temporary sibling is consumed, and backed-up content
/// survives at the backup path.
pub open spec fn swap_effect(
    disk: Disk,
    link: PathModel,
    target: PathModel,
    obs: ObservedLink,
    bak: PathModel,
) -> Disk {
    let tmp = tmp_sibling_spec(link);
    match swap_plan_spec(obs, target) {
        SwapPlan::NoOp => disk,
        SwapPlan::Swap => disk.remove(tmp).insert(link, Entry::Symlink(target)),
        SwapPlan::BackupThenSwap => disk.remove(link).insert(bak, disk[link]).remove(tmp).insert(
            link,
            Entry::Symlink(target),
        ),
    }
}

/// Running the planned steps has exactly the effect [`swap_effect`] states.
pub proof fn lemma_swap_steps_effect(
    disk: Disk,
    link: PathModel,
    target: PathModel,
    obs: ObservedLink,
    bak: PathModel,
)
    requires
        observes(disk, link, obs),
    ensures
        apply_steps(disk, swap_steps_spec(link, target, obs, bak)) == swap_effect(
            disk,
            link,
            target,
            obs,
            bak,
        ),
{
    let ss = swap_steps_spec(link, target, obs, bak);
    let tmp = tmp_sibling_spec(link);
    let dirs = Step::EnsureDirs(link.drop_last());
    match swap_plan_spec(obs, target) {
        SwapPlan::NoOp => {
            assert(ss =~= seq![dirs]);
            let t1 = ss.drop_first();
            assert(t1 =~= Seq::<Step>::empty());
            lemma_apply_steps_cons(disk, ss);
            assert(apply_step(disk, dirs) == disk);
            lemma_apply_steps_empty(disk);
            assert(apply_steps(disk, ss) == disk);
        },
        SwapPlan::Swap => {
            let s1 = Step::CreateLink { at: tmp, value: target };
            let s2 = Step::Rename { from: tmp, to: link };
            assert(ss =~= seq![dirs, s1, s2]);
            let t1 = ss.drop_first();
            let t2 = t1.drop_first();
            let t3 = t2.drop_first();
            assert(t1 =~= seq![s1, s2]);
            assert(t2 =~= seq![s2]);
            assert(t3 =~= Seq::<Step>::empty());
            let d1 = apply_step(disk, s1);
            let d2 = apply_step(d1, s2);
            lemma_apply_steps_cons(disk, ss);
            assert(apply_step(disk, dirs) == disk);
            lemma_apply_steps_cons(disk, t1);
            lemma_apply_steps_cons(d1, t2);
            lemma_apply_steps_empty(d2);
            assert(apply_steps(disk, ss) == d2);
            assert(d1 == disk.insert(tmp, Entry::Symlink(target)));
            assert(d1.dom().contains(tmp));
            assert(d2 == d1.remove(tmp).insert(link, d1[tmp]));
            assert(d2 =~= disk.remove(tmp).insert(link, Entry::Symlink(target)));
        },
        SwapPlan::BackupThenSwap => {
            let s1 = Step::Rename { from: link, to: bak };
            let s2 = Step::CreateLink { at: tmp, value: target };
            let s3 = Step::Rename { from: tmp, to: link };
            assert(ss =~= seq![dirs, s1, s2, s3]);
            let t1 = ss.drop_first();
            let t2 = t1.drop_first();
            let t3 = t2.drop_first();
            let t4 = t3.drop_first();
            assert(t1 =~= seq![s1, s2, s3]);
            assert(t2 =~= seq![s2, s3]);
            assert(t3 =~= seq![s3]);
            assert(t4 =~= Seq::<Step>::empty());
            assert(disk.dom().contains(link));
            let d1 = apply_step(disk, s1);
            let d2 = apply_step(d1, s2);
            let d3 = apply_step(d2, s3);
            lemma_apply_steps_cons(disk, ss);
            assert(apply_step(disk, dirs) == disk);
            lemma_apply_steps_cons(disk, t1);
            lemma_apply_steps_cons(d1, t2);
            lemma_apply_steps_cons(d2, t3);
            lemma_apply_steps_empty(d3);
            assert(apply_steps(disk, ss) == d3);
            assert(d1 == disk.remove(link).insert(bak, disk[link]));
            assert(d2 == d1.insert(tmp, Entry::Symlink(target)));
            assert(d2.dom().contains(tmp));
            assert(d3 == d2.remove(tmp).insert(link, d2[tmp]));
            assert(d2[tmp] == Entry::Symlink(target));
            assert(d3 =~= disk.remove(link).insert(bak, disk[link]).remove(tmp).insert(
                link,
                Entry::Symlink(target),
            ));
        },
    }
}

/// After the planned steps run to completion, the link holds the target.
pub proof fn lemma_swap_sets_link(
    disk: Disk,
    link: PathModel,
    target: PathModel,
    obs: ObservedLink,
    bak: PathModel,
)
    requires
        observes(disk, link, obs),
    ensures
        ({
            let d2 = apply_steps(disk, swap_steps_spec(link, target, obs, bak));
            d2.dom().contains(link) && d2[link] == Entry::Symlink(target)
        }),
{
    lemma_swap_steps_effect(disk, link, target, obs, bak);
}

/// A path that is neither the link, nor its temporary sibling, nor the backup
/// destination is untouched by the swap.
pub proof fn lemma_swap_frame(
    disk: Disk,
    link: PathModel,
    target: PathModel,
    obs: ObservedLink,
    bak: PathModel,
    p: PathModel,
)
    requires
        observes(disk, link, obs),
        p != link,
        p != tmp_sibling_spec(link),
        p != bak,
    ensures
        ({
            let d2 = apply_steps(disk, swap_steps_spec(link, target, obs, bak));
            &&& d2.dom().contains(p) == disk.dom().contains(p)
            &&& disk.dom().contains(p) ==> d2[p] == disk[p]
        }),
{
    lemma_swap_steps_effect(disk, link, target, obs, bak);
}

/// Idempotence of one swap: once the steps have run, a second swap of the
/// same link to the same target plans a no-op and writes nothing, whatever
/// backup stamp it would use.
pub proof fn lemma_swap_idempotent(
    disk: Disk,
    link: PathModel,
    target: PathModel,
    obs: ObservedLink,
    bak: PathModel,
    obs2: ObservedLink,
    bak2: PathModel,
)
    requires
        observes(disk, link, obs),
        observes(apply_steps(disk, swap_steps_spec(link, target, obs, bak)), link, obs2),
    ensures
        swap_plan_spec(obs2, target) == SwapPlan::NoOp,
        apply_steps(
            apply_steps(disk, swap_steps_spec(link, target, obs, bak)),
            swap_steps_spec(link, target, obs2, bak2),
        ) == apply_steps(disk, swap_steps_spec(link, target, obs, bak)),
{
    let d1 = apply_steps(disk, swap_steps_spec(link, target, obs, bak));
    lemma_swap_sets_link(disk, link, target, obs, bak);
    assert(obs2 == ObservedLink::Symlink(target));
    lemma_swap_steps_effect(d1, link, target, obs2, bak2);
}

/// Atomicity of one swap: at every moment while the steps run, the link path
/// is observed either at its pre-update state or absent, and at the end at
/// the new value; never anything else.
pub proof fn lemma_swap_atomic(
    disk: Disk,
    link: PathModel,
    target: PathModel,
    obs: ObservedLink,
    secs: nat,
    k: int,
)
    requires
        observes(disk, link, obs),
        link.len() > 0,
        0 <= k <= swap_steps_spec(link, target, obs, bak_sibling_spec(link, secs)).len(),
    ensures
        ({
            let ss = swap_steps_spec(link, target, obs, bak_sibling_spec(link, secs));
            let mid = apply_steps(disk, ss.take(k));
            ||| observes(mid, link, obs)
            ||| !mid.dom().contains(link)
            ||| (k == ss.len() && mid.dom().contains(link) && mid[link] == Entry::Symlink(
                target,
            ))
        }),
{
    lemma_tmp_sibling_ne(link);
    lemma_bak_sibling_ne(link, secs);
    let bak = bak_sibling_spec(link, secs);
    let ss = swap_steps_spec(link, target, obs, bak);
    let tmp = tmp_sibling_spec(link);
    let dirs = Step::EnsureDirs(link.drop_last());
    let mid = apply_steps(disk, ss.take(k));
    let p = ss.take(k);
    match swap_plan_spec(obs, target) {
        SwapPlan::NoOp => {
            if k == 0 {
                assert(p =~= Seq::<Step>::empty());
                lemma_apply_steps_empty(disk);
                assert(mid == disk);
            } else {
                assert(p =~= seq![dirs]);
                lemma_apply_steps_cons(disk, p);
                assert(apply_step(disk, dirs) == disk);
                assert(p.drop_first() =~= Seq::<Step>::empty());
                lemma_apply_steps_empty(disk);
                assert(mid == disk);
            }
        },
        SwapPlan::Swap => {
            let s1 = Step::CreateLink { at: tmp, value: target };
            let s2 = Step::Rename { from: tmp, to: link };
            if k == 0 {
                assert(p =~= Seq::<Step>::empty());
                lemma_apply_steps_empty(disk);
                assert(mid == disk);
            } else if k == 1 {
                assert(p =~= seq![dirs]);
                lemma_apply_steps_cons(disk, p);
                assert(apply_step(disk, dirs) == disk);
                assert(p.drop_first() =~= Seq::<Step>::empty());
                lemma_apply_steps_empty(disk);
                assert(mid == disk);
            } else if k == 2 {
                assert(p =~= seq![dirs, s1]);
                let p1 = p.drop_first();
                assert(p1 =~= seq![s1]);
                assert(p1.drop_first() =~= Seq::<Step>::empty());
                lemma_apply_steps_cons(disk, p);
                assert(apply_step(disk, dirs) == disk);
                lemma_apply_steps_cons(disk, p1);
                let d1 = apply_step(disk, s1);
                lemma_apply_steps_empty(d1);
                assert(mid == d1);
                assert(d1 == disk.insert(tmp, Entry::Symlink(target)));
                assert(observes(mid, link, obs));
            } else {
                assert(k == 3);
                assert(p =~= ss);
                lemma_swap_sets_link(disk, link, target, obs, bak);
            }
        },
        SwapPlan::BackupThenSwap => {
            let s1 = Step::Rename { from: link, to: bak };
            let s2 = Step::CreateLink { at: tmp, value: target };
            let s3 = Step::Rename { from: tmp, to: link };
            assert(disk.dom().contains(link));
            let d1 = disk.remove(link).insert(bak, disk[link]);
            if k == 0 {
                assert(p =~= Seq::<Step>::empty());
                lemma_apply_steps_empty(disk);
                assert(mid == disk);
            } else if k == 1 {
                assert(p =~= seq![dirs]);
                lemma_apply_steps_cons(disk, p);
                assert(apply_step(disk, dirs) == disk);
                assert(p.drop_first() =~= Seq::<Step>::empty());
                lemma_apply_steps_empty(disk);
                assert(mid == disk);
            } else if k == 2 {
                assert(p =~= seq![dirs, s1]);
                let p1 = p.drop_first();
                assert(p1 =~= seq![s1]);
                assert(p1.drop_first() =~= Seq::<Step>::empty());
                lemma_apply_steps_cons(disk, p);
                assert(apply_step(disk, dirs) == disk);
                lemma_apply_steps_cons(disk, p1);
                assert(apply_step(disk, s1) == d1);
                lemma_apply_steps_empty(d1);
                assert(mid == d1);
                assert(!mid.dom().contains(link));
            } else if k == 3 {
                assert(p =~= seq![dirs, s1, s2]);
                let p1 = p.drop_first();
                let p2 = p1.drop_first();
                assert(p1 =~= seq![s1, s2]);
                assert(p2 =~= seq![s2]);
                assert(p2.drop_first() =~= Seq::<Step>::empty());
                lemma_apply_steps_cons(disk, p);
                assert(apply_step(disk, dirs) == disk);
                lemma_apply_steps_cons(disk, p1);
                assert(apply_step(disk, s1) == d1);
                lemma_apply_steps_cons(d1, p2);
                let d2 = apply_step(d1, s2);
                lemma_apply_steps_empty(d2);
                assert(mid == d2);
                assert(d2 == d1.insert(tmp, Entry::Symlink(target)));
                assert(!mid.dom().contains(link));
            } else {
                assert(k == 4);
                assert(p =~= ss);
                lemma_swap_sets_link(disk, link, target, obs, bak);
            }
        },
    }
}

/// Recovery after an interruption: from any state the steps may have been cut
/// off in, a fresh observation and a retried swap leave the link holding the
/// target.
pub proof fn lemma_swap_retry_completes(
    disk: Disk,
    link: PathModel,
    target: PathModel,
    obs: ObservedLink,
    bak: PathModel,
    k: int,
    obs2: ObservedLink,
    bak2: PathModel,
)
    requires
        observes(disk, link, obs),
        0 <= k <= swap_steps_spec(link, target, obs, bak).len(),
        observes(apply_steps(disk, swap_steps_spec(link, target, obs, bak).take(k)), link, obs2),
    ensures
        ({
            let mid = apply_steps(disk, swap_steps_spec(link, target, obs, bak).take(k));
            let done = apply_steps(mid, swap_steps_spec(link, target, obs2, bak2));
            done.dom().contains(link) && done[link] == Entry::Symlink(target)
        }),
{
    let mid = apply_steps(disk, swap_steps_spec(link, target, obs, bak).take(k));
    lemma_swap_sets_link(mid, link, target, obs2, bak2);
}

} // verus!

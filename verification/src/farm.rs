//! The link-farm activator.
//!
//! Activating a generation projects its file trees into the live filesystem:
//! one managed link per file or symlink entry, each pointing back into the
//! tree *through the current pointer*, never at a literal generation path.
//! The caller walks the generation's trees and hands in the relative paths it
//! found; the planner turns them into link requests, each of which is one
//! atomic swap.  Requests are independent and idempotent, and activating the
//! same generation twice changes nothing on the second run — proved here over
//! the model.

use vstd::prelude::*;
use crate::model::Disk;
use crate::model::Entry;
use crate::model::ObservedLink;
use crate::model::PathModel;
use crate::model::apply_steps;
use crate::model::observed_of;
use crate::model::observes;
use crate::paths::path_join;
use crate::swap::SwapPlan;
use crate::swap::lemma_swap_frame;
use crate::swap::lemma_swap_sets_link;
use crate::swap::lemma_swap_steps_effect;
use crate::swap::swap_plan_spec;
use crate::swap::swap_steps_spec;
use crate::swap::tmp_sibling_spec;

verus! {

/// One managed link to establish: a link at `link_at` holding `value`.
#[derive(Debug, PartialEq, Eq)]
pub struct LinkRequest {
    /// The absolute path where the link lives.
    pub link_at: Vec<String>,
    /// The value the link holds: a path into the tree behind the current
    /// pointer.
    pub value: Vec<String>,
}

/// The model of one link request.
pub struct ReqModel {
    /// The path where the link lives.
    pub link: PathModel,
    /// The value the link holds.
    pub value: PathModel,
}

impl LinkRequest {
    /// The request this value stands for.
    pub open spec fn model(&self) -> ReqModel {
        ReqModel { link: self.link_at.deep_view(), value: self.value.deep_view() }
    }
}

/// The models of a sequence of link requests.
pub open spec fn reqs_model(v: Seq<LinkRequest>) -> Seq<ReqModel> {
    Seq::new(v.len(), |i: int| v[i].model())
}

/// The requests that project the relative paths `rels` found under
/// `source_root` to links under `target_root`: for each entry, a link at
/// `target_root + rel` holding `source_root + rel`.
pub open spec fn plan_links_spec(
    source_root: PathModel,
    target_root: PathModel,
    rels: Seq<PathModel>,
) -> Seq<ReqModel> {
    Seq::new(
        rels.len(),
        |i: int| ReqModel { link: target_root + rels[i], value: source_root + rels[i] },
    )
}

/// Plans one tree of managed links: for each relative path, a link under
/// `target_root` holding the corresponding path under `source_root`.
pub fn plan_links(
    source_root: &Vec<String>,
    target_root: &Vec<String>,
    rels: &Vec<Vec<String>>,
) -> (r: Vec<LinkRequest>)
    ensures
        reqs_model(r@) == plan_links_spec(
            source_root.deep_view(),
            target_root.deep_view(),
            rels.deep_view(),
        ),
{
    let ghost goal = plan_links_spec(
        source_root.deep_view(),
        target_root.deep_view(),
        rels.deep_view(),
    );
    let mut r: Vec<LinkRequest> = Vec::new();
    let mut i: usize = 0;
    proof {
        assert(reqs_model(r@) =~= goal.take(0));
    }
    while i < rels.len()
        invariant
            i <= rels@.len(),
            goal == plan_links_spec(
                source_root.deep_view(),
                target_root.deep_view(),
                rels.deep_view(),
            ),
            goal.len() == rels@.len(),
            reqs_model(r@) == goal.take(i as int),
        decreases rels@.len() - i,
    {
        let link_at = path_join(target_root, &rels[i]);
        let value = path_join(source_root, &rels[i]);
        let ghost pre = r@;
        let ghost premodel = reqs_model(r@);
        r.push(LinkRequest { link_at, value });
        proof {
            assert(premodel.len() == i as int);
            assert(pre.len() == i as int);
            assert(rels@[i as int].deep_view() == rels.deep_view()[i as int]);
            assert forall|k: int| 0 <= k < i + 1 implies reqs_model(r@)[k]
                == goal.take(i + 1)[k] by {
                assert(reqs_model(r@)[k] == r@[k].model());
                if k < i {
                    assert(r@[k] == pre[k]);
                    assert(premodel[k] == pre[k].model());
                    assert(premodel[k] == goal.take(i as int)[k]);
                }
            }
            assert(reqs_model(r@) =~= goal.take(i + 1));
        }
        i += 1;
    }
    proof {
        assert(goal.take(i as int) =~= goal);
    }
    r
}

/// Distinct relative paths give distinct link paths: a tree walk never lists
/// an entry twice, so the farm it plans is collision-free at its link sites —
/// the main separation hypothesis of the idempotence law.
pub proof fn lemma_plan_links_distinct(
    source_root: PathModel,
    target_root: PathModel,
    rels: Seq<PathModel>,
)
    requires
        forall|i: int, j: int|
            0 <= i < j < rels.len() ==> (#[trigger] rels[i]) != (#[trigger] rels[j]),
    ensures
        ({
            let reqs = plan_links_spec(source_root, target_root, rels);
            forall|i: int, j: int|
                0 <= i < reqs.len() && 0 <= j < reqs.len() && i != j ==> (#[trigger] reqs[i]).link
                    != (#[trigger] reqs[j]).link
        }),
{
    let reqs = plan_links_spec(source_root, target_root, rels);
    assert forall|i: int, j: int|
        0 <= i < reqs.len() && 0 <= j < reqs.len() && i != j implies (#[trigger] reqs[i]).link
        != (#[trigger] reqs[j]).link by {
        if reqs[i].link == reqs[j].link {
            assert((target_root + rels[i]).len() == (target_root + rels[j]).len());
            assert(rels[i].len() == rels[j].len());
            assert forall|k: int| 0 <= k < rels[i].len() implies rels[i][k]
                == (#[trigger] rels[j][k]) by {
                assert((target_root + rels[i])[target_root.len() + k] == rels[i][k]);
                assert((target_root + rels[j])[target_root.len() + k] == rels[j][k]);
            }
            assert(rels[i] =~= rels[j]);
        }
    }
}

/// The sub-root of the tree of kind `kind` ("root" or "home") behind the
/// current pointer at `current`: the value prefix of every managed link of
/// that kind.
pub open spec fn files_subroot(current: PathModel, kind: Seq<char>) -> PathModel {
    current + seq!["files"@, kind]
}

fn files_subroot_path(current: &Vec<String>, kind: &str) -> (r: Vec<String>)
    ensures
        r.deep_view() == files_subroot(current.deep_view(), kind@),
{
    let mut sub: Vec<String> = Vec::new();
    sub.push("files".to_owned());
    sub.push(kind.to_owned());
    proof {
        assert(sub.deep_view() =~= seq!["files"@, kind@]);
    }
    path_join(current, &sub)
}

/// Plans the link farm for one generation's `files` trees: every entry under
/// `files/root` is linked at the filesystem root (the empty path), every
/// entry under `files/home` at the caller's home path `home`, and each link's
/// value routes through the current pointer at `current`.  An absent tree is
/// an empty entry list: that portion is skipped.
pub fn link_files(
    current: &Vec<String>,
    home: &Vec<String>,
    root_entries: &Vec<Vec<String>>,
    home_entries: &Vec<Vec<String>>,
) -> (r: Vec<LinkRequest>)
    ensures
        reqs_model(r@) == plan_links_spec(
            files_subroot(current.deep_view(), "root"@),
            Seq::empty(),
            root_entries.deep_view(),
        ) + plan_links_spec(
            files_subroot(current.deep_view(), "home"@),
            home.deep_view(),
            home_entries.deep_view(),
        ),
{
    let root_source = files_subroot_path(current, "root");
    let home_source = files_subroot_path(current, "home");
    let fs_root: Vec<String> = Vec::new();
    let mut r = plan_links(&root_source, &fs_root, root_entries);
    let mut b = plan_links(&home_source, home, home_entries);
    let ghost ra = r@;
    let ghost rb = b@;
    r.append(&mut b);
    proof {
        assert(fs_root.deep_view() =~= Seq::<Seq<char>>::empty());
        assert forall|k: int| 0 <= k < r@.len() implies reqs_model(r@)[k]
            == (reqs_model(ra) + reqs_model(rb))[k] by {
            if k < ra.len() {
                assert(r@[k] == ra[k]);
            } else {
                assert(r@[k] == rb[k - ra.len()]);
            }
        }
        assert(reqs_model(r@) =~= reqs_model(ra) + reqs_model(rb));
    }
    r
}

/// The relative paths standing for a flat list of entry names: one
/// single-component path per name.
pub open spec fn singleton_rels(names: Seq<String>) -> Seq<PathModel> {
    Seq::new(names.len(), |i: int| seq![names[i]@])
}

fn make_singletons(names: &Vec<String>) -> (r: Vec<Vec<String>>)
    ensures
        r.deep_view() == singleton_rels(names@),
{
    let mut r: Vec<Vec<String>> = Vec::new();
    let mut i: usize = 0;
    while i < names.len()
        invariant
            i <= names@.len(),
            r.deep_view() == singleton_rels(names@).take(i as int),
        decreases names@.len() - i,
    {
        let mut one: Vec<String> = Vec::new();
        one.push(names[i].clone());
        proof {
            assert(one.deep_view() =~= seq![names@[i as int]@]);
        }
        let ghost pre = r@;
        let ghost predv = r.deep_view();
        r.push(one);
        proof {
            assert(predv.len() == i as int);
            assert(pre.len() == i as int);
            assert forall|k: int| 0 <= k < i + 1 implies r.deep_view()[k]
                == singleton_rels(names@).take(i + 1)[k] by {
                assert(r.deep_view()[k] == r@[k].deep_view());
                if k < i {
                    assert(r@[k] == pre[k]);
                    assert(predv[k] == pre[k].deep_view());
                    assert(predv[k] == singleton_rels(names@).take(i as int)[k]);
                }
            }
            assert(r.deep_view() =~= singleton_rels(names@).take(i + 1));
        }
        i += 1;
    }
    proof {
        assert(singleton_rels(names@).take(i as int) =~= singleton_rels(names@));
    }
    r
}

/// Plans the links for the three shared desktop directories.  These
/// directories hold unrelated software's files too, so only the top level of
/// each generation directory is linked, entry by entry: executables from
/// `bin` into `bin_dir`, launchers from `share/applications` into `apps_dir`,
/// and scalable icons into `icons_dir`.  A directory the generation does not
/// provide is an empty name list and is skipped.
pub fn link_desktop_assets(
    current: &Vec<String>,
    bin_dir: &Vec<String>,
    apps_dir: &Vec<String>,
    icons_dir: &Vec<String>,
    bin_names: &Vec<String>,
    app_names: &Vec<String>,
    icon_names: &Vec<String>,
) -> (r: Vec<LinkRequest>)
    ensures
        reqs_model(r@) == plan_links_spec(
            current.deep_view() + seq!["bin"@],
            bin_dir.deep_view(),
            singleton_rels(bin_names@),
        ) + plan_links_spec(
            current.deep_view() + seq!["share"@, "applications"@],
            apps_dir.deep_view(),
            singleton_rels(app_names@),
        ) + plan_links_spec(
            current.deep_view() + seq!["share"@, "icons"@, "hicolor"@, "scalable"@, "apps"@],
            icons_dir.deep_view(),
            singleton_rels(icon_names@),
        ),
{
    let mut bin_sub: Vec<String> = Vec::new();
    bin_sub.push("bin".to_owned());
    let mut apps_sub: Vec<String> = Vec::new();
    apps_sub.push("share".to_owned());
    apps_sub.push("applications".to_owned());
    let mut icons_sub: Vec<String> = Vec::new();
    icons_sub.push("share".to_owned());
    icons_sub.push("icons".to_owned());
    icons_sub.push("hicolor".to_owned());
    icons_sub.push("scalable".to_owned());
    icons_sub.push("apps".to_owned());
    proof {
        assert(bin_sub.deep_view() =~= seq!["bin"@]);
        assert(apps_sub.deep_view() =~= seq!["share"@, "applications"@]);
        assert(icons_sub.deep_view() =~= seq![
            "share"@,
            "icons"@,
            "hicolor"@,
            "scalable"@,
            "apps"@,
        ]);
    }
    let bin_source = path_join(current, &bin_sub);
    let apps_source = path_join(current, &apps_sub);
    let icons_source = path_join(current, &icons_sub);
    let bin_rels = make_singletons(bin_names);
    let app_rels = make_singletons(app_names);
    let icon_rels = make_singletons(icon_names);
    let mut r = plan_links(&bin_source, bin_dir, &bin_rels);
    let mut b = plan_links(&apps_source, apps_dir, &app_rels);
    let mut c = plan_links(&icons_source, icons_dir, &icon_rels);
    let ghost ra = r@;
    let ghost rb = b@;
    r.append(&mut b);
    proof {
        assert forall|k: int| 0 <= k < r@.len() implies reqs_model(r@)[k]
            == (reqs_model(ra) + reqs_model(rb))[k] by {
            if k < ra.len() {
                assert(r@[k] == ra[k]);
            } else {
                assert(r@[k] == rb[k - ra.len()]);
            }
        }
        assert(reqs_model(r@) =~= reqs_model(ra) + reqs_model(rb));
    }
    let ghost rab = r@;
    let ghost rc = c@;
    r.append(&mut c);
    proof {
        assert forall|k: int| 0 <= k < r@.len() implies reqs_model(r@)[k]
            == (reqs_model(rab) + reqs_model(rc))[k] by {
            if k < rab.len() {
                assert(r@[k] == rab[k]);
            } else {
                assert(r@[k] == rc[k - rab.len()]);
            }
        }
        assert(reqs_model(r@) =~= reqs_model(rab) + reqs_model(rc));
    }
    r
}

/// One activation step on the model: the swap of one request, executed
/// against the true state of the disk, with `bak` as the backup destination
/// its stamp would give.
pub open spec fn activate_one(disk: Disk, req: ReqModel, bak: PathModel) -> Disk {
    apply_steps(disk, swap_steps_spec(req.link, req.value, observed_of(disk, req.link), bak))
}

/// The disk after activating the requests from index `k` on, in order.
pub open spec fn activate_from(
    disk: Disk,
    reqs: Seq<ReqModel>,
    baks: Seq<PathModel>,
    k: int,
) -> Disk
    decreases reqs.len() - k,
{
    if k < 0 || k >= reqs.len() {
        disk
    } else {
        activate_from(activate_one(disk, reqs[k], baks[k]), reqs, baks, k + 1)
    }
}

/// The disk after activating all requests, in order.
pub open spec fn activate_all(disk: Disk, reqs: Seq<ReqModel>, baks: Seq<PathModel>) -> Disk {
    activate_from(disk, reqs, baks, 0)
}

/// Well-separatedness of a farm: the requests' link paths are pairwise
/// distinct (distinct relative paths in a tree walk), and no request's
/// temporary sibling or backup destination collides with another request's
/// link path.
pub open spec fn farm_separated(reqs: Seq<ReqModel>, baks: Seq<PathModel>) -> bool {
    &&& baks.len() == reqs.len()
    &&& forall|i: int, j: int|
        0 <= i < reqs.len() && 0 <= j < reqs.len() && i != j ==> #[trigger] reqs[i].link
            != #[trigger] reqs[j].link
    &&& forall|i: int, j: int|
        0 <= i < reqs.len() && 0 <= j < reqs.len() ==> tmp_sibling_spec(#[trigger] reqs[i].link)
            != #[trigger] reqs[j].link
    &&& forall|i: int, j: int|
        0 <= i < reqs.len() && 0 <= j < reqs.len() ==> #[trigger] baks[i]
            != #[trigger] reqs[j].link
}

/// A path that is no request's link, temporary sibling, or backup destination
/// from index `k` on is untouched by the rest of the activation.
proof fn lemma_activate_from_frame(
    disk: Disk,
    reqs: Seq<ReqModel>,
    baks: Seq<PathModel>,
    k: int,
    p: PathModel,
)
    requires
        baks.len() == reqs.len(),
        0 <= k,
        forall|i: int|
            k <= i < reqs.len() ==> p != (#[trigger] reqs[i]).link && p != tmp_sibling_spec(
                reqs[i].link,
            ) && p != baks[i],
    ensures
        activate_from(disk, reqs, baks, k).dom().contains(p) == disk.dom().contains(p),
        disk.dom().contains(p) ==> activate_from(disk, reqs, baks, k)[p] == disk[p],
    decreases reqs.len() - k,
{
    if k < reqs.len() {
        let obs = observed_of(disk, reqs[k].link);
        assert(observes(disk, reqs[k].link, obs));
        lemma_swap_frame(disk, reqs[k].link, reqs[k].value, obs, baks[k], p);
        lemma_activate_from_frame(activate_one(disk, reqs[k], baks[k]), reqs, baks, k + 1, p);
    }
}

/// After the activation from index `k` on, every request at index `i >= k`
/// has its link in place, holding its value.
proof fn lemma_activate_from_sets(
    disk: Disk,
    reqs: Seq<ReqModel>,
    baks: Seq<PathModel>,
    k: int,
    i: int,
)
    requires
        farm_separated(reqs, baks),
        0 <= k <= i < reqs.len(),
    ensures
        ({
            let d = activate_from(disk, reqs, baks, k);
            d.dom().contains(reqs[i].link) && d[reqs[i].link] == Entry::Symlink(reqs[i].value)
        }),
    decreases i - k,
{
    let obs = observed_of(disk, reqs[k].link);
    assert(observes(disk, reqs[k].link, obs));
    let d1 = activate_one(disk, reqs[k], baks[k]);
    if k == i {
        lemma_swap_sets_link(disk, reqs[k].link, reqs[k].value, obs, baks[k]);
        lemma_activate_from_frame(d1, reqs, baks, k + 1, reqs[i].link);
    } else {
        lemma_activate_from_sets(d1, reqs, baks, k + 1, i);
    }
}

/// On a disk where every request's link already holds its value, activation
/// plans only no-ops and changes nothing, whatever backup stamps it would
/// use.
proof fn lemma_activate_from_stable(
    disk: Disk,
    reqs: Seq<ReqModel>,
    baks2: Seq<PathModel>,
    k: int,
)
    requires
        baks2.len() == reqs.len(),
        0 <= k,
        forall|i: int|
            0 <= i < reqs.len() ==> activation_done_at(disk, #[trigger] reqs[i]),
    ensures
        activate_from(disk, reqs, baks2, k) == disk,
    decreases reqs.len() - k,
{
    if k < reqs.len() {
        let obs = observed_of(disk, reqs[k].link);
        assert(activation_done_at(disk, reqs[k]));
        assert(obs == ObservedLink::Symlink(reqs[k].value));
        assert(observes(disk, reqs[k].link, obs));
        lemma_swap_steps_effect(disk, reqs[k].link, reqs[k].value, obs, baks2[k]);
        assert(activate_one(disk, reqs[k], baks2[k]) == disk);
        lemma_activate_from_stable(disk, reqs, baks2, k + 1);
    }
}

/// Whether the disk already shows the outcome of one request: its link is in
/// place, holding its value.
pub open spec fn activation_done_at(disk: Disk, req: ReqModel) -> bool {
    disk.dom().contains(req.link) && disk[req.link] == Entry::Symlink(req.value)
}

/// Idempotence of activation: activating a well-separated farm leaves every
/// link holding its value; activating it again — under any backup stamps —
/// plans a no-op for every request and leaves the disk exactly as it was, so
/// the second run writes nothing.
pub proof fn lemma_activation_idempotent(
    disk: Disk,
    reqs: Seq<ReqModel>,
    baks: Seq<PathModel>,
    baks2: Seq<PathModel>,
)
    requires
        farm_separated(reqs, baks),
        baks2.len() == reqs.len(),
    ensures
        ({
            let d1 = activate_all(disk, reqs, baks);
            &&& forall|i: int| 0 <= i < reqs.len() ==> activation_done_at(d1, #[trigger] reqs[i])
            &&& forall|i: int|
                0 <= i < reqs.len() ==> swap_plan_spec(
                    observed_of(d1, (#[trigger] reqs[i]).link),
                    reqs[i].value,
                ) == SwapPlan::NoOp
            &&& activate_all(d1, reqs, baks2) == d1
        }),
{
    let d1 = activate_all(disk, reqs, baks);
    assert forall|i: int| 0 <= i < reqs.len() implies activation_done_at(d1, #[trigger] reqs[i]) by {
        lemma_activate_from_sets(disk, reqs, baks, 0, i);
    }
    if reqs.len() > 0 {
        lemma_activate_from_stable(d1, reqs, baks2, 0);
    }
}

} // verus!

//! The mathematical model of the managed slice of the filesystem.
//!
//! A disk is a partial map from paths (component sequences) to entries; an
//! entry is either a symlink with a value or anything else.  Directory
//! structure is not modelled: creating directories never changes a link
//! entry.  The planner's actions are given a small-step semantics here, and
//! the activation and reclaim laws are stated and proved over it.

use vstd::prelude::*;

verus! {

/// A path, as the model sees it: the sequence of its name components.
pub type PathModel = Seq<Seq<char>>;

/// One on-disk entry.  The system only ever distinguishes a symlink (and its
/// value) from everything else.
pub enum Entry {
    /// A symlink and the path it holds.
    Symlink(PathModel),
    /// A regular file, a directory: anything that is not a symlink.
    NonLink,
}

/// The modelled disk: the entries present, keyed by path.  A path outside the
/// domain is absent.
pub type Disk = Map<PathModel, Entry>;

/// What an observer finds at one path.
pub enum ObservedLink {
    /// Nothing exists at the path.
    Absent,
    /// A symlink exists, holding the given value.
    Symlink(PathModel),
    /// Something exists that is not a symlink.
    Other,
}

/// Whether the observation `obs` is the truth about `p` on `disk`.
pub open spec fn observes(disk: Disk, p: PathModel, obs: ObservedLink) -> bool {
    match obs {
        ObservedLink::Absent => !disk.dom().contains(p),
        ObservedLink::Symlink(v) => disk.dom().contains(p) && disk[p] == Entry::Symlink(v),
        ObservedLink::Other => disk.dom().contains(p) && disk[p] == Entry::NonLink,
    }
}

/// The one true observation of `p` on `disk`.
pub open spec fn observed_of(disk: Disk, p: PathModel) -> ObservedLink {
    if !disk.dom().contains(p) {
        ObservedLink::Absent
    } else {
        match disk[p] {
            Entry::Symlink(v) => ObservedLink::Symlink(v),
            Entry::NonLink => ObservedLink::Other,
        }
    }
}

/// One primitive filesystem mutation, as the planner requests them.
pub enum Step {
    /// Create the directories leading to a path.  Touches no entry the model
    /// tracks.
    EnsureDirs(PathModel),
    /// Rename `from` onto `to`, atomically replacing `to`; no effect when
    /// `from` is absent.
    Rename { from: PathModel, to: PathModel },
    /// Create a symlink at `at` holding `value`.
    CreateLink { at: PathModel, value: PathModel },
    /// Remove the entry at a path.
    Remove(PathModel),
}

/// The disk after one step.
pub open spec fn apply_step(disk: Disk, s: Step) -> Disk {
    match s {
        Step::EnsureDirs(_) => disk,
        Step::Rename { from, to } => if disk.dom().contains(from) {
            disk.remove(from).insert(to, disk[from])
        } else {
            disk
        },
        Step::CreateLink { at, value } => disk.insert(at, Entry::Symlink(value)),
        Step::Remove(p) => disk.remove(p),
    }
}

/// The disk after a sequence of steps, applied left to right.
pub open spec fn apply_steps(disk: Disk, ss: Seq<Step>) -> Disk
    decreases ss.len(),
{
    if ss.len() == 0 {
        disk
    } else {
        apply_steps(apply_step(disk, ss.first()), ss.drop_first())
    }
}

/// An empty step sequence changes nothing.
pub proof fn lemma_apply_steps_empty(disk: Disk)
    ensures
        apply_steps(disk, Seq::<Step>::empty()) == disk,
{
}

/// A non-empty step sequence applies its first step, then the rest.
pub proof fn lemma_apply_steps_cons(disk: Disk, ss: Seq<Step>)
    requires
        ss.len() > 0,
    ensures
        apply_steps(disk, ss) == apply_steps(apply_step(disk, ss.first()), ss.drop_first()),
{
}

} // verus!

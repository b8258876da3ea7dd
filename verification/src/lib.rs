//! Generation activation for a symlink-farm home manager.
//!
//! A *generation* is an immutable, numbered snapshot of build output under
//! `generations/<id>/`.  Activating a generation projects its file trees into
//! the real filesystem as a farm of managed symlinks, all of which route
//! through a single `current` pointer symlink.  Retiring a generation removes
//! exactly those managed links that the new generation no longer provides,
//! gated on an ownership test over the link's on-disk value.
//!
//! This crate holds the decision logic: numbering, planning of atomic symlink
//! swaps, link-farm construction, and ownership-verified reclaim.  The caller
//! observes the disk, hands the observations in as plain values, and executes
//! the returned plans.

use vstd::prelude::*;

pub mod digits;
pub mod farm;
pub mod model;
pub mod numbering;
pub mod paths;
pub mod reclaim;
pub mod swap;
pub mod workflow;

verus! {

} // verus!

//! Filesystem paths as vectors of name components.
//!
//! A path is a `Vec<String>` of components, ordered from the root of the tree
//! downward; the filesystem root itself is the empty vector.  Two on-disk
//! paths are the same exactly when their component vectors are equal, so the
//! mathematical model of a path is `Seq<Seq<char>>`, reached by `deep_view`.

use vstd::prelude::*;

verus! {

/// Component-wise equality of two paths: true exactly when they denote the
/// same on-disk path.
pub fn path_eq(a: &Vec<String>, b: &Vec<String>) -> (r: bool)
    ensures
        r == (a.deep_view() == b.deep_view()),
{
    if a.len() != b.len() {
        proof {
            assert(a.deep_view().len() != b.deep_view().len());
        }
        return false;
    }
    let mut i: usize = 0;
    while i < a.len()
        invariant
            i <= a.len(),
            a.len() == b.len(),
            forall|j: int| 0 <= j < i ==> a.deep_view()[j] == b.deep_view()[j],
        decreases a.len() - i,
    {
        if !a[i].eq(&b[i]) {
            proof {
                assert(a.deep_view()[i as int] != b.deep_view()[i as int]);
            }
            return false;
        }
        i += 1;
    }
    proof {
        assert(a.deep_view() =~= b.deep_view());
    }
    true
}

/// A fresh copy of `base` with the components of `rel` appended: the path of
/// `rel` resolved under the directory `base`.
pub fn path_join(base: &Vec<String>, rel: &Vec<String>) -> (r: Vec<String>)
    ensures
        r.deep_view() == base.deep_view() + rel.deep_view(),
{
    let mut r: Vec<String> = Vec::new();
    let mut i: usize = 0;
    while i < base.len()
        invariant
            i <= base.len(),
            r.deep_view() == base.deep_view().take(i as int),
        decreases base.len() - i,
    {
        let ghost pre = r@;
        let ghost predv = r.deep_view();
        r.push(base[i].clone());
        proof {
            assert(predv.len() == i as int);
            assert(pre.len() == i as int);
            assert forall|k: int| 0 <= k < i + 1 implies r.deep_view()[k]
                == base.deep_view().take(i + 1)[k] by {
                assert(r.deep_view()[k] == r@[k].deep_view());
                if k < i {
                    assert(r@[k] == pre[k]);
                    assert(predv[k] == pre[k].deep_view());
                    assert(predv[k] == base.deep_view().take(i as int)[k]);
                } else {
                    assert(r@[k] == base@[i as int]);
                }
            }
            assert(r.deep_view() =~= base.deep_view().take(i + 1));
        }
        i += 1;
    }
    let mut j: usize = 0;
    while j < rel.len()
        invariant
            j <= rel.len(),
            r.deep_view() == base.deep_view() + rel.deep_view().take(j as int),
        decreases rel.len() - j,
    {
        let ghost pre = r@;
        let ghost predv = r.deep_view();
        r.push(rel[j].clone());
        proof {
            let goal = base.deep_view() + rel.deep_view().take(j + 1);
            assert(predv.len() == base.len() + j as int);
            assert(pre.len() == base.len() + j as int);
            assert forall|k: int| 0 <= k < base.len() + j + 1 implies r.deep_view()[k]
                == goal[k] by {
                assert(r.deep_view()[k] == r@[k].deep_view());
                if k < base.len() + j {
                    assert(r@[k] == pre[k]);
                    assert(predv[k] == pre[k].deep_view());
                    assert(predv[k] == (base.deep_view() + rel.deep_view().take(j as int))[k]);
                } else {
                    assert(r@[k] == rel@[j as int]);
                }
            }
            assert(r.deep_view() =~= goal);
        }
        j += 1;
    }
    proof {
        assert(r.deep_view() =~= base.deep_view() + rel.deep_view());
    }
    r
}

/// A fresh copy of `p`, denoting the same on-disk path.
pub fn path_clone(p: &Vec<String>) -> (r: Vec<String>)
    ensures
        r.deep_view() == p.deep_view(),
{
    let mut r: Vec<String> = Vec::new();
    let mut i: usize = 0;
    while i < p.len()
        invariant
            i <= p.len(),
            r.deep_view() == p.deep_view().take(i as int),
        decreases p.len() - i,
    {
        let ghost pre = r@;
        let ghost predv = r.deep_view();
        r.push(p[i].clone());
        proof {
            assert(predv.len() == i as int);
            assert(pre.len() == i as int);
            assert forall|k: int| 0 <= k < i + 1 implies r.deep_view()[k]
                == p.deep_view().take(i + 1)[k] by {
                assert(r.deep_view()[k] == r@[k].deep_view());
                if k < i {
                    assert(r@[k] == pre[k]);
                    assert(predv[k] == pre[k].deep_view());
                    assert(predv[k] == p.deep_view().take(i as int)[k]);
                } else {
                    assert(r@[k] == p@[i as int]);
                }
            }
            assert(r.deep_view() =~= p.deep_view().take(i + 1));
        }
        i += 1;
    }
    proof {
        assert(r.deep_view() =~= p.deep_view());
    }
    r
}

/// Whether some element of `set` is the same path as `p`.
pub fn contains_path(set: &Vec<Vec<String>>, p: &Vec<String>) -> (r: bool)
    ensures
        r == set.deep_view().contains(p.deep_view()),
{
    let mut i: usize = 0;
    while i < set.len()
        invariant
            i <= set.len(),
            forall|j: int| 0 <= j < i ==> set.deep_view()[j] != p.deep_view(),
        decreases set.len() - i,
    {
        if path_eq(&set[i], p) {
            proof {
                assert(set.deep_view()[i as int] == p.deep_view());
            }
            return true;
        }
        i += 1;
    }
    false
}

} // verus!

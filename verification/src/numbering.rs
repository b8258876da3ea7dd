//! The generation store: numbering of generation directories.
//!
//! Generations live in one directory, each named by its number.  The caller
//! lists that directory and hands the entry names in; everything here is a
//! pure function of those names.  Numbering is gap-tolerant: only the current
//! maximum matters, so a deleted generation's number is never reallocated.

use vstd::prelude::*;
use crate::digits::parse_u32_spec;
use crate::digits::parse_u32;

verus! {

/// The generation numbers among `names`, in order of appearance: each entry
/// name that parses as a `u32`, with the rest ignored.
pub open spec fn parsed_ids(names: Seq<String>) -> Seq<u32>
    decreases names.len(),
{
    if names.len() == 0 {
        Seq::empty()
    } else {
        let rest = parsed_ids(names.drop_last());
        match parse_u32_spec(names.last()@) {
            Some(n) => rest.push(n),
            None => rest,
        }
    }
}

/// Whether `s` is sorted in ascending order.
pub open spec fn sorted(s: Seq<u32>) -> bool {
    forall|i: int, j: int| 0 <= i < j < s.len() ==> s[i] <= s[j]
}

/// The number the next generation gets: one greater than the largest entry
/// name that parses as a number, and 1 when none does.  Entries that do not
/// parse are ignored, and gaps left by deleted generations are never refilled.
///
/// An absent generations directory is the same as an empty listing: the first
/// generation is number 1.
pub fn next_generation(names: &Vec<String>) -> (r: u32)
    requires
        forall|i: int| 0 <= i < names@.len()
            ==> (#[trigger] parse_u32_spec(names@[i]@) matches Some(n) ==> n < u32::MAX),
    ensures
        r >= 1,
        forall|i: int| 0 <= i < names@.len()
            ==> (#[trigger] parse_u32_spec(names@[i]@) matches Some(n) ==> n < r),
        r == 1 || exists|i: int|
            0 <= i < names@.len() && parse_u32_spec(#[trigger] names@[i]@) == Some((r - 1) as u32),
{
    let mut max_gen: u32 = 0;
    let mut i: usize = 0;
    while i < names.len()
        invariant
            i <= names@.len(),
            forall|k: int| 0 <= k < names@.len()
                ==> (#[trigger] parse_u32_spec(names@[k]@) matches Some(n) ==> n < u32::MAX),
            forall|k: int| 0 <= k < i
                ==> (#[trigger] parse_u32_spec(names@[k]@) matches Some(n) ==> n <= max_gen),
            max_gen == 0 || exists|k: int|
                0 <= k < i && parse_u32_spec(#[trigger] names@[k]@) == Some(max_gen),
            max_gen < u32::MAX,
        decreases names@.len() - i,
    {
        if let Some(num) = parse_u32(names[i].as_str()) {
            if num > max_gen {
                max_gen = num;
            }
        }
        i += 1;
    }
    max_gen + 1
}

/// Inserts `x` into the sorted vector `v`, keeping it sorted.
fn insert_sorted(v: &mut Vec<u32>, x: u32)
    requires
        sorted(old(v)@),
    ensures
        sorted(final(v)@),
        final(v)@.to_multiset() == old(v)@.to_multiset().insert(x),
{
    let mut idx: usize = 0;
    while idx < v.len() && v[idx] <= x
        invariant
            idx <= v@.len(),
            sorted(v@),
            v == old(v),
            forall|k: int| 0 <= k < idx ==> v@[k] <= x,
        decreases v@.len() - idx,
    {
        idx += 1;
    }
    let ghost pre = v@;
    v.insert(idx, x);
    proof {
        broadcast use vstd::seq_lib::group_to_multiset_ensures;

        let cur = v@;
        assert(cur == pre.insert(idx as int, x));
        assert(cur.remove(idx as int) =~= pre);
        assert(cur[idx as int] == x);
        assert(cur.to_multiset().remove(x) == pre.to_multiset());
        assert(cur.to_multiset().contains(x));
        assert forall|y: u32| true implies cur.to_multiset().count(y)
            == pre.to_multiset().insert(x).count(y) by {
            if y == x {
                assert(cur.to_multiset().count(x) == cur.to_multiset().remove(x).count(x) + 1);
            } else {
                assert(cur.to_multiset().count(y) == cur.to_multiset().remove(x).count(y));
            }
        }
        assert(cur.to_multiset() =~= pre.to_multiset().insert(x));
        assert forall|a: int, b: int| 0 <= a < b < cur.len() implies cur[a] <= cur[b] by {
            if b < idx {
                assert(pre[a] <= pre[b]);
            } else if a > idx {
                assert(pre[a - 1] <= pre[b - 1]);
            } else if a < idx && b == idx {
                assert(pre[a] <= x);
            } else if a == idx && b > idx {
                assert(x < pre[b - 1] || x <= pre[b - 1]) by {
                    if idx < pre.len() {
                        assert(x < pre[idx as int]);
                        assert(pre[idx as int] <= pre[b - 1]);
                    }
                }
            } else if a < idx && b > idx {
                assert(pre[a] <= x);
                if idx < pre.len() {
                    assert(pre[idx as int] <= pre[b - 1]);
                }
            }
        }
    }
}

/// The generation numbers among `names`, sorted ascending: exactly the entry
/// names that parse as numbers, each as often as it occurs.
pub fn list_generations(names: &Vec<String>) -> (r: Vec<u32>)
    ensures
        sorted(r@),
        r@.to_multiset() == parsed_ids(names@).to_multiset(),
{
    let mut r: Vec<u32> = Vec::new();
    let mut i: usize = 0;
    proof {
        broadcast use vstd::seq_lib::group_to_multiset_ensures;

        assert(parsed_ids(names@.take(0)) =~= Seq::<u32>::empty());
        assert(r@.to_multiset() =~= parsed_ids(names@.take(0)).to_multiset());
    }
    while i < names.len()
        invariant
            i <= names@.len(),
            sorted(r@),
            r@.to_multiset() == parsed_ids(names@.take(i as int)).to_multiset(),
        decreases names@.len() - i,
    {
        proof {
            broadcast use vstd::seq_lib::group_to_multiset_ensures;

            assert(names@.take(i + 1).drop_last() =~= names@.take(i as int));
            assert(names@.take(i + 1).last() == names@[i as int]);
        }
        if let Some(num) = parse_u32(names[i].as_str()) {
            insert_sorted(&mut r, num);
        }
        i += 1;
    }
    proof {
        assert(names@.take(i as int) =~= names@);
    }
    r
}

/// The generation number the `current` pointer designates, read from the
/// pointer's target path: its final component parsed as a number.  `None`
/// when the target is empty or its final component does not parse.
pub fn current_generation(target: &Vec<String>) -> (r: Option<u32>)
    ensures
        r == current_generation_spec(target.deep_view()),
{
    if target.len() == 0 {
        None
    } else {
        let r = parse_u32(target[target.len() - 1].as_str());
        proof {
            assert(target.deep_view().last() == target@[target@.len() - 1]@);
        }
        r
    }
}

/// What the current-generation read yields for a pointer target path.
pub open spec fn current_generation_spec(target: Seq<Seq<char>>) -> Option<u32> {
    if target.len() == 0 {
        None
    } else {
        parse_u32_spec(target.last())
    }
}

} // verus!

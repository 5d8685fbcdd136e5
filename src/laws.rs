//! What holds of every sequence of set operations, stated over the same set
//! model (`RluCore::contents`) that the operations' contracts use.
use crate::rlu::{sorted, RluCore, lemma_sorted_contents_len};
use vstd::prelude::*;

verus! {

/// The set after applying `ops` in order to `s`; an operation is
/// `(true, v)` for an insertion of `v` and `(false, v)` for a deletion.
pub open spec fn replay(s: Set<u64>, ops: Seq<(bool, u64)>) -> Set<u64>
    decreases ops.len(),
{
    if ops.len() == 0 {
        s
    } else {
        let p = replay(s, ops.drop_last());
        let op = ops.last();
        if op.0 {
            p.insert(op.1)
        } else {
            p.remove(op.1)
        }
    }
}

/// Among the operations of `ops` on `v`, the last one is an insertion.
pub open spec fn inserted_last(ops: Seq<(bool, u64)>, v: u64) -> bool {
    exists|i: int|
        0 <= i < ops.len() && #[trigger] ops[i] == (true, v) && forall|j: int|
            i < j < ops.len() ==> (#[trigger] ops[j]).1 != v
}

/// Starting from the empty set, an element is present after a sequence of
/// insertions and deletions exactly when the last of them that names it was
/// an insertion.
pub proof fn lemma_sequential_membership(ops: Seq<(bool, u64)>, v: u64)
    ensures
        replay(Set::empty(), ops).contains(v) == inserted_last(ops, v),
    decreases ops.len(),
{
    if ops.len() == 0 {
    } else {
        let init = ops.drop_last();
        let op = ops.last();
        let n = ops.len() - 1;
        lemma_sequential_membership(init, v);
        if op.1 == v {
            if op.0 {
                assert(ops[n] == (true, v));
            } else {
                if inserted_last(ops, v) {
                    let i = choose|i: int|
                        0 <= i < ops.len() && #[trigger] ops[i] == (true, v) && forall|j: int|
                            i < j < ops.len() ==> (#[trigger] ops[j]).1 != v;
                    assert(i != n);
                    assert(ops[n].1 != v);
                }
            }
        } else {
            if inserted_last(init, v) {
                let i = choose|i: int|
                    0 <= i < init.len() && #[trigger] init[i] == (true, v) && forall|j: int|
                        i < j < init.len() ==> (#[trigger] init[j]).1 != v;
                assert(ops[i] == (true, v));
                assert forall|j: int| i < j < ops.len() implies (#[trigger] ops[j]).1 != v by {
                    if j < n {
                        assert(ops[j] == init[j]);
                    }
                }
            }
            if inserted_last(ops, v) {
                let i = choose|i: int|
                    0 <= i < ops.len() && #[trigger] ops[i] == (true, v) && forall|j: int|
                        i < j < ops.len() ==> (#[trigger] ops[j]).1 != v;
                assert(i != n);
                assert(init[i] == (true, v));
                assert forall|j: int| i < j < init.len() implies (#[trigger] init[j]).1 != v by {
                    assert(ops[j] == init[j]);
                }
            }
        }
    }
}

/// An insertion reports whether the element was absent, a deletion whether
/// it was present. So inserting an absent element twice reports `true`, then
/// `false`, and deleting a present element twice reports `true`, then
/// `false`; the second call leaves the set as the first left it.
pub proof fn lemma_idempotence(s: Set<u64>, v: u64)
    ensures
        !s.contains(v) ==> (!s.contains(v), !s.insert(v).contains(v)) == (true, false),
        s.contains(v) ==> (s.contains(v), s.remove(v).contains(v)) == (true, false),
        s.insert(v).insert(v) == s.insert(v),
        s.remove(v).remove(v) == s.remove(v),
{
    assert(s.insert(v).insert(v) =~= s.insert(v));
    assert(s.remove(v).remove(v) =~= s.remove(v));
}

/// A write of one element leaves the membership of every other element as
/// it was: readers of keys that no writer touches always see them unchanged.
pub proof fn lemma_writes_leave_other_keys(s: Set<u64>, v: u64, w: u64)
    requires
        w != v,
    ensures
        s.insert(v).contains(w) == s.contains(w),
        s.remove(v).contains(w) == s.contains(w),
{
}

/// When the published elements are those that a sequence of operations left
/// from the empty set, their number is the number of distinct elements whose
/// last operation was an insertion.
pub proof fn lemma_size_consistency(core: RluCore, ops: Seq<(bool, u64)>)
    requires
        core.wf(),
        core.contents() == replay(Set::empty(), ops),
    ensures
        core@.len() == Set::new(|v: u64| inserted_last(ops, v)).len(),
{
    assert forall|v: u64| #[trigger] core.contents().contains(v) == inserted_last(ops, v) by {
        lemma_sequential_membership(ops, v);
    }
    assert(core.contents() =~= Set::new(|v: u64| inserted_last(ops, v)));
    assert(sorted(core@));
    lemma_sorted_contents_len(core@);
    assert(core.contents() =~= core@.to_set());
}

} // verus!

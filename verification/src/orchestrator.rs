use vstd::prelude::*;
use crate::catalog::{Catalog, catalog_wf};
use crate::errors::RetentionError;
use crate::policy::{
    lemma_policy_evicted_refl, lemma_policy_evicted_step, policy_evicted_from, select_victim,
};

verus! {

/// Deletes snapshots by the policy until at least `required` bytes are
/// available, deletion modeled as freeing the entry's accounted size.
/// Returns the available space reached and whether it suffices; it does
/// not when the target is down to its last snapshot, which is never
/// deleted. A catalog that already fits, or is already down to one entry,
/// comes back untouched.
#[verifier::loop_isolation(false)]
pub fn make_room(cat: &mut Catalog, avail: u64, required: u64) -> (r: (u64, bool))
    requires
        catalog_wf(*old(cat)),
    ensures
        catalog_wf(*final(cat)),
        r.1 ==> r.0 >= required,
        !r.1 ==> r.0 < required && final(cat).entries@.len() <= 1,
        avail >= required ==> r.0 == avail && final(cat).entries@ == old(cat).entries@,
        old(cat).entries@.len() <= 1 && avail < required ==> !r.1 && final(cat).entries@ == old(
            cat,
        ).entries@,
        policy_evicted_from(old(cat).entries@, final(cat).entries@),
        old(cat).entries@.len() >= 1 ==> final(cat).entries@.len() >= 1,
{
    let mut a = avail;
    let ghost mut touched: bool = false;
    proof {
        lemma_policy_evicted_refl(cat.entries@);
    }
    while a < required
        invariant
            catalog_wf(*cat),
            a >= avail,
            cat.entries@.len() <= old(cat).entries@.len(),
            !touched ==> a == avail && cat.entries@ == old(cat).entries@,
            touched ==> old(cat).entries@.len() >= 2 && avail < required,
            policy_evicted_from(old(cat).entries@, cat.entries@),
            old(cat).entries@.len() >= 1 ==> cat.entries@.len() >= 1,
        decreases cat.entries@.len(),
    {
        let v = match select_victim(cat) {
            Some(v) => v,
            None => {
                return (a, false);
            },
        };
        let ghost cur = cat.entries@;
        let sz = cat.entries[v].size;
        cat.remove_entry(v);
        proof {
            lemma_policy_evicted_step(old(cat).entries@, cur, v as int);
        }
        a = match a.checked_add(sz) {
            Some(x) => x,
            None => u64::MAX,
        };
        proof {
            touched = true;
        }
    }
    (a, true)
}

/// The retention step that runs before a new snapshot is captured: frees
/// at least `required` bytes - the accounted size of the live data tree -
/// by eviction. Succeeds with the space reached, after which the caller
/// may mirror the live tree into a new snapshot; fails with `DiskSpace`,
/// before any snapshot is created, when eviction is exhausted - in
/// particular, a target already down to its one last snapshot with too
/// little space fails at once, untouched.
pub fn plan_backup(cat: &mut Catalog, avail: u64, required: u64) -> (r: Result<
    u64,
    RetentionError,
>)
    requires
        catalog_wf(*old(cat)),
    ensures
        catalog_wf(*final(cat)),
        match r {
            Ok(a) => a >= required,
            Err(e) => e == RetentionError::DiskSpace && final(cat).entries@.len() <= 1,
        },
        old(cat).entries@.len() <= 1 && avail < required ==> r is Err && final(cat).entries@
            == old(cat).entries@,
        policy_evicted_from(old(cat).entries@, final(cat).entries@),
        old(cat).entries@.len() >= 1 ==> final(cat).entries@.len() >= 1,
{
    let (a, enough) = make_room(cat, avail, required);
    if enough {
        Ok(a)
    } else {
        Err(RetentionError::DiskSpace)
    }
}

} // verus!

use vstd::prelude::*;
use crate::catalog::{Catalog, Snapshot, catalog_wf};

verus! {

/// The amortizer's view of the backup root: the catalog of every target
/// (entries carrying their accounted sizes) and the bytes available on the
/// mount that backs the root. Deleting an entry is modeled as freeing its
/// accounted size, capped at the range of the counter; compressing keeps
/// the available space, which the next probe refreshes.
pub struct BackupModel {
    pub targets: Vec<Catalog>,
    pub avail: u64,
}

/// Every target's catalog is well-formed.
pub open spec fn model_wf(m: BackupModel) -> bool {
    forall|t: int| 0 <= t < m.targets@.len() ==> catalog_wf(#[trigger] m.targets@[t])
}

/// How many entries of one catalog are uncompressed directories.
pub open spec fn cat_unc(s: Seq<Snapshot>) -> nat
    decreases s,
{
    if s.len() == 0 {
        0
    } else {
        cat_unc(s.drop_last()) + if s.last().compressed {
            0nat
        } else {
            1nat
        }
    }
}

/// How many entries of one catalog are uncompressed, over all targets.
pub open spec fn targets_unc(ts: Seq<Catalog>) -> nat
    decreases ts,
{
    if ts.len() == 0 {
        0
    } else {
        targets_unc(ts.drop_last()) + cat_unc(ts.last().entries@)
    }
}

/// How many entries all targets hold together.
pub open spec fn targets_total(ts: Seq<Catalog>) -> nat
    decreases ts,
{
    if ts.len() == 0 {
        0
    } else {
        targets_total(ts.drop_last()) + ts.last().entries@.len()
    }
}

/// Deleting one entry lowers the uncompressed count by one exactly when
/// the entry was uncompressed.
pub proof fn lemma_cat_unc_remove(s: Seq<Snapshot>, i: int)
    requires
        0 <= i < s.len(),
    ensures
        cat_unc(s.remove(i)) + (if s[i].compressed {
            0nat
        } else {
            1nat
        }) == cat_unc(s),
    decreases s.len(),
{
    if i == s.len() - 1 {
        assert(s.remove(i) =~= s.drop_last());
    } else {
        assert(s.remove(i).drop_last() =~= s.drop_last().remove(i));
        assert(s.remove(i).last() == s.last());
        lemma_cat_unc_remove(s.drop_last(), i);
    }
}

/// Replacing one entry shifts the uncompressed count by the difference of
/// the two entries' contributions.
pub proof fn lemma_cat_unc_update(s: Seq<Snapshot>, i: int, x: Snapshot)
    requires
        0 <= i < s.len(),
    ensures
        cat_unc(s.update(i, x)) + (if s[i].compressed {
            0nat
        } else {
            1nat
        }) == cat_unc(s) + (if x.compressed {
            0nat
        } else {
            1nat
        }),
    decreases s.len(),
{
    if i == s.len() - 1 {
        assert(s.update(i, x).drop_last() =~= s.drop_last());
        assert(s.update(i, x).last() == x);
    } else {
        assert(s.update(i, x).drop_last() =~= s.drop_last().update(i, x));
        assert(s.update(i, x).last() == s.last());
        lemma_cat_unc_update(s.drop_last(), i, x);
    }
}

/// Replacing one target's catalog shifts the global counts by the
/// difference of the two catalogs' counts.
pub proof fn lemma_targets_update(ts: Seq<Catalog>, t: int, c: Catalog)
    requires
        0 <= t < ts.len(),
    ensures
        targets_unc(ts.update(t, c)) + cat_unc(ts[t].entries@) == targets_unc(ts) + cat_unc(
            c.entries@,
        ),
        targets_total(ts.update(t, c)) + ts[t].entries@.len() == targets_total(ts)
            + c.entries@.len(),
    decreases ts.len(),
{
    if t == ts.len() - 1 {
        assert(ts.update(t, c).drop_last() =~= ts.drop_last());
        assert(ts.update(t, c).last() == c);
    } else {
        assert(ts.update(t, c).drop_last() =~= ts.drop_last().update(t, c));
        assert(ts.update(t, c).last() == ts.last());
        lemma_targets_update(ts.drop_last(), t, c);
    }
}

/// A catalog with no uncompressed entry counts zero, and the other way
/// round.
pub proof fn lemma_cat_unc_zero(s: Seq<Snapshot>)
    ensures
        (cat_unc(s) == 0) <==> (forall|k: int| 0 <= k < s.len() ==> (#[trigger] s[k]).compressed),
    decreases s.len(),
{
    if s.len() > 0 {
        lemma_cat_unc_zero(s.drop_last());
        if cat_unc(s) == 0 {
            assert forall|k: int| 0 <= k < s.len() implies (#[trigger] s[k]).compressed by {
                if k < s.len() - 1 {
                    assert(s.drop_last()[k] == s[k]);
                }
            }
        }
        if forall|k: int| 0 <= k < s.len() ==> (#[trigger] s[k]).compressed {
            assert forall|k: int| 0 <= k < s.drop_last().len() implies (
            #[trigger] s.drop_last()[k]).compressed by {
                assert(s.drop_last()[k] == s[k]);
            }
        }
    }
}

/// No target holds an uncompressed entry exactly when the global count is
/// zero.
pub proof fn lemma_targets_unc_zero(ts: Seq<Catalog>)
    ensures
        (targets_unc(ts) == 0) <==> (forall|t: int, k: int|
            0 <= t < ts.len() && 0 <= k < (#[trigger] ts[t]).entries@.len() ==> (
            #[trigger] ts[t].entries@[k]).compressed),
    decreases ts.len(),
{
    if ts.len() > 0 {
        lemma_targets_unc_zero(ts.drop_last());
        lemma_cat_unc_zero(ts.last().entries@);
        if targets_unc(ts) == 0 {
            assert forall|t: int, k: int|
                0 <= t < ts.len() && 0 <= k < (#[trigger] ts[t]).entries@.len() implies (
            #[trigger] ts[t].entries@[k]).compressed by {
                if t < ts.len() - 1 {
                    assert(ts.drop_last()[t] == ts[t]);
                } else {
                    assert(ts[t] == ts.last());
                }
            }
        }
        if forall|t: int, k: int|
            0 <= t < ts.len() && 0 <= k < (#[trigger] ts[t]).entries@.len() ==> (
        #[trigger] ts[t].entries@[k]).compressed {
            assert forall|t: int, k: int|
                0 <= t < ts.drop_last().len() && 0 <= k < (
            #[trigger] ts.drop_last()[t]).entries@.len() implies (
            #[trigger] ts.drop_last()[t].entries@[k]).compressed by {
                assert(ts.drop_last()[t] == ts[t]);
            }
            assert(forall|k: int|
                0 <= k < ts.last().entries@.len() ==> (#[trigger] ts.last().entries@[k]).compressed);
        }
    }
}

/// Position `(t2, k2)` is scanned before position `(t, k)` in the
/// target-by-target walk of the backup root.
pub open spec fn scanned_before(t2: int, k2: int, t: int, k: int) -> bool {
    t2 < t || (t2 == t && k2 < k)
}

/// `(t, k)` is the entry the amortizer picks: the first uncompressed entry
/// of globally smallest accounted size, in scan order.
pub open spec fn is_candidate(ts: Seq<Catalog>, t: int, k: int) -> bool {
    &&& 0 <= t < ts.len()
    &&& 0 <= k < ts[t].entries@.len()
    &&& !ts[t].entries@[k].compressed
    &&& forall|t2: int, k2: int|
        0 <= t2 < ts.len() && 0 <= k2 < (#[trigger] ts[t2]).entries@.len()
            && !(#[trigger] ts[t2].entries@[k2]).compressed ==> ts[t].entries@[k].size
            <= ts[t2].entries@[k2].size
    &&& forall|t2: int, k2: int|
        0 <= t2 < ts.len() && 0 <= k2 < (#[trigger] ts[t2]).entries@.len()
            && !(#[trigger] ts[t2].entries@[k2]).compressed && scanned_before(t2, k2, t, k)
            ==> ts[t].entries@[k].size < ts[t2].entries@[k2].size
}

/// Finds the smallest uncompressed snapshot over all targets, the first
/// one in scan order among equals, or nothing when every snapshot is
/// already compressed.
pub fn pick_candidate(m: &BackupModel) -> (r: Option<(usize, usize)>)
    ensures
        match r {
            None => targets_unc(m.targets@) == 0,
            Some((t, k)) => is_candidate(m.targets@, t as int, k as int),
        },
{
    let ghost ts = m.targets@;
    let mut best_t: usize = 0;
    let mut best_k: usize = 0;
    let mut best_size: u64 = 0;
    let mut found = false;
    let mut t: usize = 0;
    while t < m.targets.len()
        invariant
            m.targets@ == ts,
            0 <= t <= ts.len(),
            !found ==> forall|t2: int, k2: int|
                0 <= t2 < ts.len() && 0 <= k2 < (#[trigger] ts[t2]).entries@.len()
                    && scanned_before(t2, k2, t as int, 0) ==> (
                #[trigger] ts[t2].entries@[k2]).compressed,
            found ==> {
                &&& 0 <= best_t < ts.len()
                &&& 0 <= best_k < ts[best_t as int].entries@.len()
                &&& !ts[best_t as int].entries@[best_k as int].compressed
                &&& scanned_before(best_t as int, best_k as int, t as int, 0)
                &&& best_size == ts[best_t as int].entries@[best_k as int].size
                &&& forall|t2: int, k2: int|
                    0 <= t2 < ts.len() && 0 <= k2 < (#[trigger] ts[t2]).entries@.len()
                        && !(#[trigger] ts[t2].entries@[k2]).compressed && scanned_before(
                        t2,
                        k2,
                        t as int,
                        0,
                    ) ==> best_size <= ts[t2].entries@[k2].size
                &&& forall|t2: int, k2: int|
                    0 <= t2 < ts.len() && 0 <= k2 < (#[trigger] ts[t2]).entries@.len()
                        && !(#[trigger] ts[t2].entries@[k2]).compressed && scanned_before(
                        t2,
                        k2,
                        best_t as int,
                        best_k as int,
                    ) ==> best_size < ts[t2].entries@[k2].size
            },
        decreases ts.len() - t,
    {
        let cat = &m.targets[t];
        let mut k: usize = 0;
        while k < cat.entries.len()
            invariant
                m.targets@ == ts,
                0 <= t < ts.len(),
                cat == ts[t as int],
                0 <= k <= ts[t as int].entries@.len(),
                !found ==> forall|t2: int, k2: int|
                    0 <= t2 < ts.len() && 0 <= k2 < (#[trigger] ts[t2]).entries@.len()
                        && scanned_before(t2, k2, t as int, k as int) ==> (
                    #[trigger] ts[t2].entries@[k2]).compressed,
                found ==> {
                    &&& 0 <= best_t < ts.len()
                    &&& 0 <= best_k < ts[best_t as int].entries@.len()
                    &&& !ts[best_t as int].entries@[best_k as int].compressed
                    &&& scanned_before(best_t as int, best_k as int, t as int, k as int)
                    &&& best_size == ts[best_t as int].entries@[best_k as int].size
                    &&& forall|t2: int, k2: int|
                        0 <= t2 < ts.len() && 0 <= k2 < (#[trigger] ts[t2]).entries@.len()
                            && !(#[trigger] ts[t2].entries@[k2]).compressed && scanned_before(
                            t2,
                            k2,
                            t as int,
                            k as int,
                        ) ==> best_size <= ts[t2].entries@[k2].size
                    &&& forall|t2: int, k2: int|
                        0 <= t2 < ts.len() && 0 <= k2 < (#[trigger] ts[t2]).entries@.len()
                            && !(#[trigger] ts[t2].entries@[k2]).compressed && scanned_before(
                            t2,
                            k2,
                            best_t as int,
                            best_k as int,
                        ) ==> best_size < ts[t2].entries@[k2].size
                },
            decreases ts[t as int].entries@.len() - k,
        {
            let e = &cat.entries[k];
            if !e.compressed {
                if !found || e.size < best_size {
                    best_t = t;
                    best_k = k;
                    best_size = e.size;
                    found = true;
                }
            }
            k = k + 1;
        }
        t = t + 1;
    }
    if found {
        Some((best_t, best_k))
    } else {
        proof {
            lemma_targets_unc_zero(ts);
        }
        None
    }
}

/// What freeing space for one compression candidate came to.
pub enum SpaceOutcome {
    /// Enough space is available; the candidate now stands at this index.
    Fits { candidate: usize },
    /// Eviction deleted the candidate itself; the scan must restart.
    CandidateGone,
    /// Only one snapshot of the target is left and space is still short.
    Exhausted,
}

/// The available space after freeing `sz` bytes: the sum, capped at the
/// counter's range.
pub open spec fn freed(avail: u64, sz: u64) -> u64 {
    if avail + sz <= u64::MAX {
        (avail + sz) as u64
    } else {
        u64::MAX
    }
}

/// Evicts snapshots of target `t` by the policy until the root's mount can
/// take `need` bytes, tracking the compression candidate at index `k` of
/// that target. Returns how many entries were evicted and how many of them
/// were uncompressed. Whenever the first victim differs from the candidate
/// and deleting it alone already frees enough, exactly one eviction
/// happens before the candidate fits.
#[verifier::loop_isolation(false)]
pub fn free_space_for(m: &mut BackupModel, t: usize, k: usize, need: u64) -> (r: (
    SpaceOutcome,
    Ghost<nat>,
    Ghost<nat>,
))
    requires
        model_wf(*old(m)),
        t < old(m).targets@.len(),
        k < old(m).targets@[t as int].entries@.len(),
        !old(m).targets@[t as int].entries@[k as int].compressed,
    ensures
        model_wf(*final(m)),
        final(m).targets@.len() == old(m).targets@.len(),
        targets_unc(old(m).targets@) == targets_unc(final(m).targets@) + r.2@,
        targets_total(old(m).targets@) == targets_total(final(m).targets@) + r.1@,
        r.2@ <= r.1@,
        match r.0 {
            SpaceOutcome::Fits { candidate } => {
                &&& final(m).avail >= need
                &&& candidate < final(m).targets@[t as int].entries@.len()
                &&& final(m).targets@[t as int].entries@[candidate as int]
                    == old(m).targets@[t as int].entries@[k as int]
            },
            SpaceOutcome::CandidateGone => r.1@ >= 1,
            SpaceOutcome::Exhausted => {
                &&& final(m).avail < need
                &&& final(m).targets@[t as int].entries@.len() == 1
                &&& final(m).targets@[t as int].entries@[0]
                    == old(m).targets@[t as int].entries@[k as int]
            },
        },
        forall|t2: int|
            0 <= t2 < old(m).targets@.len() && t2 != t ==> #[trigger] final(m).targets@[t2]
                == old(m).targets@[t2],
        crate::policy::policy_evicted_from(
            old(m).targets@[t as int].entries@,
            final(m).targets@[t as int].entries@,
        ),
        old(m).avail >= need ==> final(m).targets@ == old(m).targets@ && final(m).avail == old(m).avail
            && r.1@ == 0 && r.2@ == 0,
        forall|v: int|
            {
                &&& old(m).avail < need
                &&& crate::policy::is_policy_victim(old(m).targets@[t as int].entries@, v)
                &&& v != k
                &&& freed(old(m).avail, old(m).targets@[t as int].entries@[v].size) >= need
            } ==> (r.0 matches SpaceOutcome::Fits { .. } && r.1@ == 1),
{
    let ghost olds = m.targets@;
    let ghost avail0 = m.avail;
    let mut cand = k;
    let ghost mut ev: nat = 0nat;
    let ghost mut evu: nat = 0nat;
    let ghost mut first: Option<(int, u64)> = None::<(int, u64)>;
    proof {
        crate::policy::lemma_policy_evicted_refl(m.targets@[t as int].entries@);
    }
    while m.avail < need
        invariant
            model_wf(*m),
            t < m.targets@.len(),
            m.targets@.len() == olds.len(),
            cand < m.targets@[t as int].entries@.len(),
            m.targets@[t as int].entries@[cand as int] == olds[t as int].entries@[k as int],
            targets_unc(olds) == targets_unc(m.targets@) + evu,
            targets_total(olds) == targets_total(m.targets@) + ev,
            evu <= ev,
            first is None <==> ev == 0,
            first is None ==> m.targets@ == olds && m.avail == avail0 && cand == k,
            avail0 >= need ==> first is None,
            forall|t2: int| 0 <= t2 < olds.len() && t2 != t ==> #[trigger] m.targets@[t2] == olds[t2],
            crate::policy::policy_evicted_from(olds[t as int].entries@, m.targets@[t as int].entries@),
            first matches Some((v, sz)) ==> {
                &&& crate::policy::is_policy_victim(olds[t as int].entries@, v)
                &&& 0 <= v < olds[t as int].entries@.len()
                &&& v != k
                &&& sz == olds[t as int].entries@[v].size
                &&& (ev == 1 ==> m.avail == freed(avail0, sz))
                &&& (ev >= 2 ==> freed(avail0, sz) < need)
            },
        decreases targets_total(m.targets@),
    {
        let victim = match crate::policy::select_victim(&m.targets[t]) {
            Some(v) => v,
            None => {
                proof {
                    if avail0 < need {
                        assert forall|v: int|
                            {
                                &&& avail0 < need
                                &&& crate::policy::is_policy_victim(olds[t as int].entries@, v)
                                &&& v != k
                                &&& freed(avail0, olds[t as int].entries@[v].size) >= need
                            } implies false by {
                            if first is None {
                                assert(m.targets@[t as int].entries@.len() <= 1);
                            } else {
                                let (v0, sz0) = first->Some_0;
                                crate::policy::lemma_policy_victim_unique(
                                    olds[t as int].entries@,
                                    v,
                                    v0,
                                );
                            }
                        }
                    }
                }
                return (SpaceOutcome::Exhausted, Ghost(ev), Ghost(evu));
            },
        };
        let ghost cur = m.targets@;
        let ghost ventry = m.targets@[t as int].entries@[victim as int];
        let vsize = m.targets[t].entries[victim].size;
        let vcomp = m.targets[t].entries[victim].compressed;
        let mut c = m.targets.remove(t);
        c.remove_entry(victim);
        m.targets.insert(t, c);
        proof {
            assert(m.targets@ =~= cur.update(t as int, m.targets@[t as int]));
            lemma_cat_unc_remove(cur[t as int].entries@, victim as int);
            lemma_targets_update(cur, t as int, m.targets@[t as int]);
            assert(m.targets@[t as int].entries@ == cur[t as int].entries@.remove(victim as int));
            crate::policy::lemma_policy_evicted_step(
                olds[t as int].entries@,
                cur[t as int].entries@,
                victim as int,
            );
            assert forall|t2: int| 0 <= t2 < olds.len() && t2 != t implies #[trigger] m.targets@[t2]
                == olds[t2] by {
                assert(m.targets@[t2] == cur[t2]);
            }
            ev = ev + 1;
            if !vcomp {
                evu = evu + 1;
            }
            if first is None {
                first = Some((victim as int, vsize));
            } else {
                let (v0, sz0) = first->Some_0;
                if ev == 2 {
                    assert(freed(avail0, sz0) < need);
                }
            }
        }
        m.avail = match m.avail.checked_add(vsize) {
            Some(a) => a,
            None => u64::MAX,
        };
        if victim == cand {
            proof {
                assert forall|v: int|
                    {
                        &&& avail0 < need
                        &&& crate::policy::is_policy_victim(olds[t as int].entries@, v)
                        &&& v != k
                        &&& freed(avail0, olds[t as int].entries@[v].size) >= need
                    } implies false by {
                    let (v0, sz0) = first->Some_0;
                    crate::policy::lemma_policy_victim_unique(olds[t as int].entries@, v, v0);
                    if ev >= 2 {
                        assert(freed(avail0, sz0) < need);
                    }
                }
            }
            return (SpaceOutcome::CandidateGone, Ghost(ev), Ghost(evu));
        }
        if victim < cand {
            cand = cand - 1;
        }
    }
    proof {
        assert forall|v: int|
            {
                &&& avail0 < need
                &&& crate::policy::is_policy_victim(olds[t as int].entries@, v)
                &&& v != k
                &&& freed(avail0, olds[t as int].entries@[v].size) >= need
            } implies ev == 1 by {
            if first is None {
                assert(m.avail == avail0);
                assert(false);
            } else {
                let (v0, sz0) = first->Some_0;
                crate::policy::lemma_policy_victim_unique(olds[t as int].entries@, v, v0);
                if ev >= 2 {
                    assert(freed(avail0, sz0) < need);
                    assert(false);
                }
            }
        }
    }
    (SpaceOutcome::Fits { candidate: cand }, Ghost(ev), Ghost(evu))
}

/// Runs the amortization to its fixpoint: as long as an uncompressed
/// snapshot remains, frees enough space for the smallest one (evicting by
/// the policy from its own target, and rescanning when eviction took the
/// candidate itself), then compresses it. Returns how many snapshots were
/// compressed, how many uncompressed ones eviction deleted, and how many
/// snapshots eviction deleted in all; the counts account for every
/// snapshot that was uncompressed at the start and for every entry that
/// left the root. With nothing uncompressed it succeeds at once and
/// touches nothing; on success no uncompressed snapshot remains; it fails,
/// with `DiskSpace` and partial progress kept, exactly when some target is
/// down to one last uncompressed snapshot that available space cannot
/// take.
#[verifier::loop_isolation(false)]
pub fn compress_all_model(m: &mut BackupModel) -> (r: (
    Result<(), crate::errors::RetentionError>,
    Ghost<nat>,
    Ghost<nat>,
    Ghost<nat>,
))
    requires
        model_wf(*old(m)),
    ensures
        model_wf(*final(m)),
        final(m).targets@.len() == old(m).targets@.len(),
        targets_unc(old(m).targets@) == targets_unc(final(m).targets@) + r.1@ + r.2@,
        targets_total(old(m).targets@) == targets_total(final(m).targets@) + r.3@,
        r.0 matches Err(e) ==> e == crate::errors::RetentionError::DiskSpace,
        r.0 is Ok ==> targets_unc(final(m).targets@) == 0,
        targets_unc(old(m).targets@) == 0 ==> r.0 is Ok && final(m).targets@ == old(m).targets@
            && final(m).avail == old(m).avail && r.1@ == 0 && r.2@ == 0 && r.3@ == 0,
        r.0 is Err ==> exists|t: int|
            0 <= t < final(m).targets@.len() && (#[trigger] final(m).targets@[t]).entries@.len()
                == 1 && !final(m).targets@[t].entries@[0].compressed
                && final(m).avail < final(m).targets@[t].entries@[0].size,
{
    let ghost unc0 = targets_unc(m.targets@);
    let ghost total0 = targets_total(m.targets@);
    let ghost mut compressed_ct: nat = 0nat;
    let ghost mut evicted_unc: nat = 0nat;
    let ghost mut evictions: nat = 0nat;
    let mut done = false;
    let mut failed = false;
    while !done && !failed
        invariant
            model_wf(*m),
            m.targets@.len() == old(m).targets@.len(),
            unc0 == targets_unc(m.targets@) + compressed_ct + evicted_unc,
            total0 == targets_total(m.targets@) + evictions,
            done ==> targets_unc(m.targets@) == 0,
            unc0 == 0 ==> m.targets@ == old(m).targets@ && m.avail == old(m).avail
                && compressed_ct == 0 && evicted_unc == 0 && evictions == 0 && !failed,
            failed ==> exists|t: int|
                0 <= t < m.targets@.len() && (#[trigger] m.targets@[t]).entries@.len() == 1
                    && !m.targets@[t].entries@[0].compressed && m.avail
                    < m.targets@[t].entries@[0].size,
        decreases
                targets_total(m.targets@) + targets_unc(m.targets@),
                (if done || failed {
                    0int
                } else {
                    1int
                }),
    {
        match pick_candidate(m) {
            None => {
                done = true;
            },
            Some((t, k)) => {
                proof {
                    if unc0 == 0 {
                        lemma_targets_unc_zero(m.targets@);
                        assert(false);
                    }
                }
                let need = m.targets[t].entries[k].size;
                let ghost mid = m.targets@;
                let (outcome, gev, gevu) = free_space_for(m, t, k, need);
                proof {
                    evicted_unc = evicted_unc + gevu@;
                    evictions = evictions + gev@;
                }
                match outcome {
                    SpaceOutcome::Exhausted => {
                        proof {
                            assert(m.targets@[t as int].entries@[0] == mid[t as int].entries@[k as int]);
                            assert(!m.targets@[t as int].entries@[0].compressed);
                            assert(m.avail < m.targets@[t as int].entries@[0].size);
                        }
                        failed = true;
                    },
                    SpaceOutcome::CandidateGone => {
                    },
                    SpaceOutcome::Fits { candidate } => {
                        let ghost cur = m.targets@;
                        let mut c = m.targets.remove(t);
                        c.mark_compressed(candidate);
                        m.targets.insert(t, c);
                        proof {
                            assert(m.targets@ =~= cur.update(t as int, m.targets@[t as int]));
                            assert(m.targets@[t as int].entries@ =~= cur[t as int].entries@.update(
                                candidate as int,
                                m.targets@[t as int].entries@[candidate as int],
                            ));
                            lemma_cat_unc_update(
                                cur[t as int].entries@,
                                candidate as int,
                                m.targets@[t as int].entries@[candidate as int],
                            );
                            lemma_targets_update(cur, t as int, m.targets@[t as int]);
                            compressed_ct = compressed_ct + 1;
                        }
                    },
                }
            },
        }
    }
    if failed {
        (
            Err(crate::errors::RetentionError::DiskSpace),
            Ghost(compressed_ct),
            Ghost(evicted_unc),
            Ghost(evictions),
        )
    } else {
        (Ok(()), Ghost(compressed_ct), Ghost(evicted_unc), Ghost(evictions))
    }
}

} // verus!

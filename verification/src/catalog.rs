use vstd::prelude::*;
use crate::errors::RetentionError;
use crate::name::{
    name_ok, name_shape_ok, name_compressed, version_part, spec_version, parse_name,
};
use crate::timefmt::{utc_epoch_of, parse_utc_epoch};

verus! {

/// The ordering key of a snapshot: the version triple, then the capture
/// instant as UTC epoch seconds. This is the only key retention decisions
/// use - version dominates recency.
#[derive(Clone, Copy, Debug, PartialEq, Eq, Structural)]
pub struct SnapshotKey {
    pub major: u64,
    pub minor: u64,
    pub patch: u64,
    pub ts: i64,
}

/// Strict lexicographic order on keys: major, minor, patch, then instant.
pub open spec fn key_lt(a: SnapshotKey, b: SnapshotKey) -> bool {
    ||| a.major < b.major
    ||| (a.major == b.major && a.minor < b.minor)
    ||| (a.major == b.major && a.minor == b.minor && a.patch < b.patch)
    ||| (a.major == b.major && a.minor == b.minor && a.patch == b.patch && a.ts < b.ts)
}

/// Compares two keys, exactly as `key_lt` orders them.
pub fn key_lt_exec(a: &SnapshotKey, b: &SnapshotKey) -> (r: bool)
    ensures
        r == key_lt(*a, *b),
{
    if a.major != b.major {
        a.major < b.major
    } else if a.minor != b.minor {
        a.minor < b.minor
    } else if a.patch != b.patch {
        a.patch < b.patch
    } else {
        a.ts < b.ts
    }
}

/// One retained backup instance: its key, its on-disk entry name, whether
/// it is a compressed archive rather than a directory, and its accounted
/// footprint in bytes (zero where the caller has not measured it).
#[derive(Debug)]
pub struct Snapshot {
    pub key: SnapshotKey,
    pub name: Vec<u8>,
    pub compressed: bool,
    pub size: u64,
}

/// The snapshots of one backup target, in strictly ascending key order
/// with unique keys.
#[derive(Debug)]
pub struct Catalog {
    pub entries: Vec<Snapshot>,
}

/// Well-formedness of a catalog: entries strictly sorted by key, which
/// also makes the keys unique.
pub open spec fn catalog_wf(c: Catalog) -> bool {
    forall|i: int, j: int|
        0 <= i < j < c.entries@.len() ==> key_lt(
            #[trigger] c.entries@[i].key,
            #[trigger] c.entries@[j].key,
        )
}

/// A name the catalog accepts: it parses, and its timestamp denotes a
/// valid instant.
#[verifier::opaque]
pub open spec fn name_accepted(n: Seq<u8>) -> bool {
    name_ok(n) && utc_epoch_of(n.subrange(0, 19)) is Some
}

/// The key an accepted name denotes.
#[verifier::opaque]
pub open spec fn spec_key_of(n: Seq<u8>) -> SnapshotKey {
    match (spec_version(version_part(n)), utc_epoch_of(n.subrange(0, 19))) {
        (Some(t), Some(e)) => SnapshotKey { major: t.0, minor: t.1, patch: t.2, ts: e },
        _ => SnapshotKey { major: 0, minor: 0, patch: 0, ts: 0 },
    }
}

/// The error a rejected name draws: `FilenameFormat` for a malformed shape
/// or an invalid instant, `VersionFormat` for a version portion that is
/// not 1 to 3 dot-separated decimal components.
pub open spec fn spec_name_error(n: Seq<u8>) -> RetentionError {
    if !name_shape_ok(n) {
        RetentionError::FilenameFormat
    } else if spec_version(version_part(n)) is None {
        RetentionError::VersionFormat
    } else {
        RetentionError::FilenameFormat
    }
}

/// The catalog entry `s` stems from the listing entry at `j`, and no later
/// listing entry before `upto` carries the same key (last write wins).
#[verifier::opaque]
pub open spec fn origin_at(names: Seq<Vec<u8>>, j: int, upto: int, s: Snapshot) -> bool {
    &&& 0 <= j < upto
    &&& name_accepted(names[j]@)
    &&& s.name@ == names[j]@
    &&& s.key == spec_key_of(names[j]@)
    &&& s.compressed == name_compressed(names[j]@)
    &&& s.size == 0
    &&& forall|j2: int|
        j < j2 < upto && name_accepted(#[trigger] names[j2]@) ==> spec_key_of(names[j2]@) != s.key
}

/// The entry stems from some listing entry before `upto`, the latest one
/// of its key.
pub open spec fn has_origin(names: Seq<Vec<u8>>, upto: int, s: Snapshot) -> bool {
    exists|j: int| origin_at(names, j, upto, s)
}

/// Some entry of the catalog carries this key.
pub open spec fn key_covered(entries: Seq<Snapshot>, key: SnapshotKey) -> bool {
    exists|k: int| 0 <= k < entries.len() && (#[trigger] entries[k]).key == key
}

/// The snapshot stands in the catalog.
pub open spec fn entry_kept(entries: Seq<Snapshot>, s: Snapshot) -> bool {
    exists|k: int| 0 <= k < entries.len() && entries[k] == s
}

/// The snapshot stands in `olds` and its key differs from `key`.
pub open spec fn taken_from(olds: Seq<Snapshot>, key: SnapshotKey, s: Snapshot) -> bool {
    exists|k0: int| 0 <= k0 < olds.len() && s == olds[k0] && (#[trigger] olds[k0]).key != key
}

/// The catalog entries are exactly the accepted listing entries before
/// `upto`, each under its key, the last listing entry winning among
/// entries sharing a key.
pub open spec fn built_from(names: Seq<Vec<u8>>, upto: int, entries: Seq<Snapshot>) -> bool {
    &&& forall|k: int|
        0 <= k < entries.len() ==> has_origin(names, upto, #[trigger] entries[k])
    &&& forall|j: int|
        #![trigger names[j]]
        0 <= j < upto ==> key_covered(entries, spec_key_of(names[j]@))
}

/// A snapshot taken from listing entry `j` is, on its own, the latest
/// origin among the entries up to and including `j`.
proof fn lemma_origin_base(names: Seq<Vec<u8>>, j: int, snap: Snapshot)
    requires
        0 <= j < names.len(),
        name_accepted(names[j]@),
        snap.name@ == names[j]@,
        snap.key == spec_key_of(names[j]@),
        snap.compressed == name_compressed(names[j]@),
        snap.size == 0,
    ensures
        origin_at(names, j, j + 1, snap),
{
    reveal(origin_at);
}

/// A latest origin among the entries before `j` stays one among the
/// entries up to and including `j`, as long as entry `j` carries another
/// key.
proof fn lemma_origin_shift(names: Seq<Vec<u8>>, j2: int, j: int, s: Snapshot)
    requires
        origin_at(names, j2, j, s),
        name_accepted(names[j]@) ==> spec_key_of(names[j]@) != s.key,
        0 <= j < names.len(),
    ensures
        origin_at(names, j2, j + 1, s),
{
    reveal(origin_at);
    assert forall|jx: int|
        j2 < jx < j + 1 && name_accepted(#[trigger] names[jx]@) implies spec_key_of(names[jx]@)
        != s.key by {
        if jx < j {
            assert(spec_key_of(names[jx]@) != s.key);
        }
    }
}

/// After inserting the snapshot of listing entry `j` into a catalog built
/// from the entries before `j`, the catalog is built from the entries up
/// to and including `j`.
proof fn lemma_from_names_step(
    names: Seq<Vec<u8>>,
    j: int,
    up: int,
    before: Seq<Snapshot>,
    after: Seq<Snapshot>,
    snap: Snapshot,
)
    requires
        0 <= j < names.len(),
        up == j + 1,
        name_accepted(names[j]@),
        snap.name@ == names[j]@,
        snap.key == spec_key_of(names[j]@),
        snap.compressed == name_compressed(names[j]@),
        snap.size == 0,
        entry_kept(after, snap),
        forall|k0: int|
            0 <= k0 < before.len() && (#[trigger] before[k0]).key != snap.key ==> entry_kept(
                after,
                before[k0],
            ),
        forall|k: int|
            0 <= k < after.len() ==> (#[trigger] after[k] == snap || taken_from(
                before,
                snap.key,
                after[k],
            )),
        built_from(names, j, before),
    ensures
        built_from(names, up, after),
{
    assert forall|k: int| 0 <= k < after.len() implies has_origin(
        names,
        up,
        #[trigger] after[k],
    ) by {
        if after[k] == snap {
            lemma_origin_base(names, j, snap);
            assert(origin_at(names, j, up, after[k]));
        } else {
            assert(taken_from(before, snap.key, after[k]));
            let k0 = choose|k0: int|
                0 <= k0 < before.len() && after[k] == before[k0] && before[k0].key != snap.key;
            assert(has_origin(names, j, before[k0]));
            let j2 = choose|j2: int| origin_at(names, j2, j, before[k0]);
            lemma_origin_shift(names, j2, j, before[k0]);
            assert(origin_at(names, j2, up, after[k]));
        }
    }
    assert forall|j2: int| #![trigger names[j2]] 0 <= j2 < up implies key_covered(
        after,
        spec_key_of(names[j2]@),
    ) by {
        if j2 == j {
            assert(entry_kept(after, snap));
            let k = choose|k: int| 0 <= k < after.len() && after[k] == snap;
            assert(after[k].key == spec_key_of(names[j2]@));
        } else {
            assert(key_covered(before, spec_key_of(names[j2]@)));
            let k0 = choose|k0: int|
                0 <= k0 < before.len() && (#[trigger] before[k0]).key == spec_key_of(names[j2]@);
            if before[k0].key == snap.key {
                assert(entry_kept(after, snap));
                let k = choose|k: int| 0 <= k < after.len() && after[k] == snap;
                assert(after[k].key == spec_key_of(names[j2]@));
            } else {
                assert(entry_kept(after, before[k0]));
                let k = choose|k: int| 0 <= k < after.len() && after[k] == before[k0];
                assert(after[k].key == spec_key_of(names[j2]@));
            }
        }
    }
}

impl Catalog {
    /// The empty catalog.
    pub fn new() -> (r: Catalog)
        ensures
            catalog_wf(r),
            r.entries@.len() == 0,
    {
        Catalog { entries: Vec::new() }
    }

    /// Number of retained snapshots.
    pub fn len(&self) -> (r: usize)
        ensures
            r == self.entries@.len(),
    {
        self.entries.len()
    }

    /// Inserts a snapshot in key order; an entry already carrying the same
    /// key is replaced (last write wins).
    pub fn insert(&mut self, x: Snapshot)
        requires
            catalog_wf(*old(self)),
        ensures
            catalog_wf(*final(self)),
            entry_kept(final(self).entries@, x),
            forall|k0: int|
                0 <= k0 < old(self).entries@.len() && (#[trigger] old(self).entries@[k0]).key
                    != x.key ==> entry_kept(final(self).entries@, old(self).entries@[k0]),
            forall|k: int|
                0 <= k < final(self).entries@.len() ==> (#[trigger] final(self).entries@[k] == x
                    || taken_from(old(self).entries@, x.key, final(self).entries@[k])),
    {
        let ghost olds = self.entries@;
        let mut pos: usize = 0;
        while pos < self.entries.len() && key_lt_exec(&self.entries[pos].key, &x.key)
            invariant
                0 <= pos <= self.entries@.len(),
                self.entries@ == olds,
                forall|i: int| 0 <= i < pos ==> key_lt(#[trigger] self.entries@[i].key, x.key),
            decreases self.entries@.len() - pos,
        {
            pos = pos + 1;
        }
        if pos < self.entries.len() && self.entries[pos].key == x.key {
            self.entries.remove(pos);
            self.entries.insert(pos, x);
            proof {
                let news = self.entries@;
                assert(news =~= olds.update(pos as int, x));
                assert forall|i: int, j: int| 0 <= i < j < news.len() implies key_lt(
                    #[trigger] news[i].key,
                    #[trigger] news[j].key,
                ) by {
                    assert(key_lt(olds[i].key, olds[j].key));
                }
                assert(news[pos as int] == x);
                assert(entry_kept(news, x));
                assert forall|k0: int|
                    0 <= k0 < olds.len() && (#[trigger] olds[k0]).key != x.key implies entry_kept(
                        news,
                        olds[k0],
                    ) by {
                    assert(news[k0] == olds[k0]);
                }
                assert forall|k: int| 0 <= k < news.len() implies (#[trigger] news[k] == x
                    || taken_from(olds, x.key, news[k])) by {
                    if k != pos {
                        assert(news[k] == olds[k]);
                        if k < pos {
                            assert(key_lt(olds[k].key, olds[pos as int].key));
                        } else {
                            assert(key_lt(olds[pos as int].key, olds[k].key));
                        }
                        assert(taken_from(olds, x.key, news[k]));
                    }
                }
            }
        } else {
            proof {
                if pos < olds.len() {
                    assert(!key_lt(olds[pos as int].key, x.key));
                    assert(olds[pos as int].key != x.key);
                    assert(key_lt(x.key, olds[pos as int].key));
                }
            }
            self.entries.insert(pos, x);
            proof {
                let news = self.entries@;
                assert(news == olds.insert(pos as int, x));
                assert forall|i: int, j: int| 0 <= i < j < news.len() implies key_lt(
                    #[trigger] news[i].key,
                    #[trigger] news[j].key,
                ) by {
                    if j < pos {
                        assert(news[i] == olds[i] && news[j] == olds[j]);
                    } else if j == pos {
                        assert(news[i] == olds[i] && key_lt(olds[i].key, x.key));
                    } else if i < pos {
                        assert(news[i] == olds[i] && news[j] == olds[j - 1]);
                        assert(key_lt(olds[i].key, olds[j - 1].key));
                    } else if i == pos {
                        assert(news[j] == olds[j - 1]);
                        assert(key_lt(x.key, olds[pos as int].key));
                        if j - 1 > pos {
                            assert(key_lt(olds[pos as int].key, olds[j - 1].key));
                        }
                    } else {
                        assert(news[i] == olds[i - 1] && news[j] == olds[j - 1]);
                        assert(key_lt(olds[i - 1].key, olds[j - 1].key));
                    }
                }
                assert(news[pos as int] == x);
                assert(entry_kept(news, x));
                assert forall|k0: int|
                    0 <= k0 < olds.len() && (#[trigger] olds[k0]).key != x.key implies entry_kept(
                        news,
                        olds[k0],
                    ) by {
                    if k0 < pos {
                        assert(news[k0] == olds[k0]);
                    } else {
                        assert(news[k0 + 1] == olds[k0]);
                    }
                }
                assert forall|k: int| 0 <= k < news.len() implies (#[trigger] news[k] == x
                    || taken_from(olds, x.key, news[k])) by {
                    if k < pos {
                        assert(news[k] == olds[k] && key_lt(olds[k].key, x.key));
                        assert(taken_from(olds, x.key, news[k]));
                    } else if k > pos {
                        assert(news[k] == olds[k - 1]);
                        assert(!key_lt(olds[k - 1].key, x.key));
                        if olds[k - 1].key == x.key {
                            assert(pos < olds.len());
                            if k - 1 > pos {
                                assert(key_lt(olds[pos as int].key, olds[k - 1].key));
                                assert(false);
                            }
                        }
                        assert(taken_from(olds, x.key, news[k]));
                    }
                }
            }
        }
    }

    /// Deletes the entry at `i`, keeping the order.
    pub fn remove_entry(&mut self, i: usize)
        requires
            catalog_wf(*old(self)),
            i < old(self).entries@.len(),
        ensures
            catalog_wf(*final(self)),
            final(self).entries@ == old(self).entries@.remove(i as int),
    {
        let ghost olds = self.entries@;
        self.entries.remove(i);
        proof {
            let news = self.entries@;
            assert forall|a: int, b: int| 0 <= a < b < news.len() implies key_lt(
                #[trigger] news[a].key,
                #[trigger] news[b].key,
            ) by {
                let a0: int = if a < i { a } else { a + 1 };
                let b0: int = if b < i { b } else { b + 1 };
                assert(news[a] == olds[a0] && news[b] == olds[b0]);
                assert(key_lt(olds[a0].key, olds[b0].key));
            }
        }
    }

    /// Marks the entry at `i` as a compressed archive, leaving its key,
    /// name and accounted size as they are.
    pub fn mark_compressed(&mut self, i: usize)
        requires
            catalog_wf(*old(self)),
            i < old(self).entries@.len(),
        ensures
            catalog_wf(*final(self)),
            final(self).entries@.len() == old(self).entries@.len(),
            final(self).entries@[i as int].key == old(self).entries@[i as int].key,
            final(self).entries@[i as int].name == old(self).entries@[i as int].name,
            final(self).entries@[i as int].size == old(self).entries@[i as int].size,
            final(self).entries@[i as int].compressed,
            forall|k: int|
                0 <= k < old(self).entries@.len() && k != i ==> final(self).entries@[k] == old(
                    self,
                ).entries@[k],
    {
        let ghost olds = self.entries@;
        let mut s = self.entries.remove(i);
        s.compressed = true;
        self.entries.insert(i, s);
        proof {
            let news = self.entries@;
            assert(news =~= olds.remove(i as int).insert(i as int, news[i as int]));
            assert forall|k: int| 0 <= k < olds.len() && k != i implies news[k] == olds[k] by {
                if k < i {
                    assert(news[k] == olds.remove(i as int)[k]);
                } else {
                    assert(news[k] == olds.remove(i as int)[k - 1]);
                }
            }
            assert forall|a: int, b: int| 0 <= a < b < news.len() implies key_lt(
                #[trigger] news[a].key,
                #[trigger] news[b].key,
            ) by {
                assert(news[a].key == olds[a].key && news[b].key == olds[b].key);
                assert(key_lt(olds[a].key, olds[b].key));
            }
        }
    }

    /// Builds the catalog of one backup target from its directory listing.
    /// Fails on the first entry that does not parse or does not denote a
    /// valid instant - a malformed entry is fatal, never skipped. On
    /// success every listing entry is represented under its key, the entry
    /// names and compression marks are carried over, and of several
    /// entries sharing a key the last one listed wins.
    pub fn from_names(names: &Vec<Vec<u8>>) -> (r: Result<Catalog, RetentionError>)
        ensures
            match r {
                Ok(cat) => {
                    &&& catalog_wf(cat)
                    &&& forall|j: int|
                        0 <= j < names@.len() ==> name_accepted(#[trigger] names@[j]@)
                    &&& built_from(names@, names@.len() as int, cat.entries@)
                },
                Err(e) => exists|j: int|
                    {
                        &&& 0 <= j < names@.len()
                        &&& !name_accepted(#[trigger] names@[j]@)
                        &&& forall|j2: int| 0 <= j2 < j ==> name_accepted(#[trigger] names@[j2]@)
                        &&& e == spec_name_error(names@[j]@)
                    },
            },
    {
        let mut cat = Catalog::new();
        let mut j: usize = 0;
        while j < names.len()
            invariant
                0 <= j <= names@.len(),
                catalog_wf(cat),
                forall|j2: int| 0 <= j2 < j ==> name_accepted(#[trigger] names@[j2]@),
                built_from(names@, j as int, cat.entries@),
            decreases names@.len() - j,
        {
            let p = match parse_name(&names[j]) {
                Ok(p) => p,
                Err(e) => {
                    proof {
                        reveal(name_accepted);
                    }
                    return Err(e);
                },
            };
            let epoch = match parse_utc_epoch(&p.ts) {
                Some(t) => t,
                None => {
                    proof {
                        reveal(name_accepted);
                    }
                    return Err(RetentionError::FilenameFormat);
                },
            };
            let key = SnapshotKey { major: p.major, minor: p.minor, patch: p.patch, ts: epoch };
            proof {
                reveal(name_accepted);
                reveal(spec_key_of);
                assert(name_accepted(names@[j as int]@));
                assert(key == spec_key_of(names@[j as int]@));
            }
            let snap = Snapshot {
                key,
                name: crate::name::copy_whole(&names[j]),
                compressed: p.compressed,
                size: 0,
            };
            let ghost before = cat.entries@;
            let ghost snapg = snap;
            cat.insert(snap);
            proof {
                lemma_from_names_step(names@, j as int, j + 1, before, cat.entries@, snapg);
            }
            j = j + 1;
        }
        Ok(cat)
    }
}

} // verus!

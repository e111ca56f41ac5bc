use vstd::prelude::*;
use crate::errors::RetentionError;
use crate::name::copy_whole;

verus! {

/// Index of the last occurrence of `c` before `upto`, or -1 if none.
pub open spec fn rfind(s: Seq<u8>, c: u8, upto: int) -> int
    recommends
        0 <= upto <= s.len(),
    decreases upto when 0 <= upto
{
    if upto <= 0 {
        -1
    } else if s[upto - 1] == c {
        upto - 1
    } else {
        rfind(s, c, upto - 1)
    }
}

/// Index of the first occurrence of `c` in `[from, upto)`, or `upto` if
/// none.
pub open spec fn ffind(s: Seq<u8>, c: u8, from: int, upto: int) -> int
    recommends
        0 <= from <= upto <= s.len(),
    decreases upto - from when 0 <= from <= upto <= s.len()
{
    if from >= upto {
        upto
    } else if s[from] == c {
        from
    } else {
        ffind(s, c, from + 1, upto)
    }
}

/// Index of the last occurrence of `c` before `upto`, mirroring `rfind`.
fn rfind_exec(s: &Vec<u8>, c: u8, upto: usize) -> (r: Option<usize>)
    requires
        upto <= s@.len(),
    ensures
        match r {
            Some(i) => i as int == rfind(s@, c, upto as int) && i < upto,
            None => rfind(s@, c, upto as int) == -1,
        },
    decreases upto,
{
    if upto == 0 {
        None
    } else if s[upto - 1] == c {
        Some(upto - 1)
    } else {
        rfind_exec(s, c, upto - 1)
    }
}

/// Index of the first occurrence of `c` in `[from, upto)`, mirroring
/// `ffind`.
fn ffind_exec(s: &Vec<u8>, c: u8, from: usize, upto: usize) -> (r: usize)
    requires
        from <= upto <= s@.len(),
    ensures
        r as int == ffind(s@, c, from as int, upto as int),
        from <= r <= upto,
    decreases upto - from,
{
    if from >= upto {
        upto
    } else if s[from] == c {
        from
    } else {
        ffind_exec(s, c, from + 1, upto)
    }
}

/// The parent of a path: everything before the last slash, the lone root
/// slash when the last slash leads, and the empty path when there is no
/// slash. The root and the empty path are their own parents.
pub open spec fn spec_parent(p: Seq<u8>) -> Seq<u8> {
    let i = rfind(p, 47, p.len() as int);
    if p.len() == 1 && p[0] == 47 {
        p
    } else if i == -1 {
        Seq::empty()
    } else if i == 0 {
        p.subrange(0, 1)
    } else {
        p.subrange(0, i)
    }
}

/// The path and its ancestors, from most to least specific, ending at the
/// root slash or at the empty relative path.
pub open spec fn spec_ancestors(p: Seq<u8>) -> Seq<Seq<u8>>
    decreases p.len() via spec_ancestors_decreases
{
    if p.len() == 0 || (p.len() == 1 && p[0] == 47) {
        seq![p]
    } else {
        seq![p] + spec_ancestors(spec_parent(p))
    }
}

#[via_fn]
proof fn spec_ancestors_decreases(p: Seq<u8>) {
    if !(p.len() == 0 || (p.len() == 1 && p[0] == 47)) {
        lemma_parent_shorter(p);
    }
}

/// The parent is never longer than the path, and is strictly shorter for
/// anything but the root and the empty path.
proof fn lemma_parent_shorter(p: Seq<u8>)
    requires
        p.len() >= 1,
        !(p.len() == 1 && p[0] == 47),
    ensures
        spec_parent(p).len() < p.len(),
{
    let i = rfind(p, 47, p.len() as int);
    lemma_rfind_in_range(p, 47, p.len() as int);
}

/// `rfind` stays below its bound.
proof fn lemma_rfind_in_range(s: Seq<u8>, c: u8, upto: int)
    requires
        0 <= upto <= s.len(),
    ensures
        -1 <= rfind(s, c, upto) < upto,
        rfind(s, c, upto) >= 0 ==> s[rfind(s, c, upto)] == c,
    decreases upto,
{
    if upto > 0 && s[upto - 1] != c {
        lemma_rfind_in_range(s, c, upto - 1);
    }
}

/// Lists the path and its ancestors, most specific first, for the mount
/// probe to try in turn: the available-space figure of the first ancestor
/// that is a mount point is the one that backs the path.
pub fn ancestors(p: &Vec<u8>) -> (r: Vec<Vec<u8>>)
    ensures
        r@.len() == spec_ancestors(p@).len(),
        forall|i: int| 0 <= i < r@.len() ==> (#[trigger] r@[i])@ == spec_ancestors(p@)[i],
    decreases p@.len(),
{
    let root = p.len() == 1 && p[0] == 47;
    if p.len() == 0 || root {
        let mut out: Vec<Vec<u8>> = Vec::new();
        out.push(copy_whole(p));
        return out;
    }
    let parent = match rfind_exec(p, 47, p.len()) {
        None => Vec::new(),
        Some(0) => crate::name::copy_range_pub(p, 0, 1),
        Some(i) => crate::name::copy_range_pub(p, 0, i),
    };
    proof {
        lemma_parent_shorter(p@);
        assert(parent@ =~= spec_parent(p@));
    }
    let rest = ancestors(&parent);
    let mut out: Vec<Vec<u8>> = Vec::new();
    out.push(copy_whole(p));
    let mut i: usize = 0;
    while i < rest.len()
        invariant
            0 <= i <= rest@.len(),
            out@.len() == i + 1,
            out@[0]@ == p@,
            forall|j: int| 0 <= j < i ==> (#[trigger] out@[j + 1])@ == rest@[j]@,
            rest@.len() == spec_ancestors(parent@).len(),
            forall|j: int|
                0 <= j < rest@.len() ==> (#[trigger] rest@[j])@ == spec_ancestors(parent@)[j],
            parent@ == spec_parent(p@),
        decreases rest@.len() - i,
    {
        out.push(copy_whole(&rest[i]));
        i = i + 1;
    }
    proof {
        assert(spec_ancestors(p@) =~= seq![p@] + spec_ancestors(parent@));
        assert forall|j: int| 0 <= j < out@.len() implies (#[trigger] out@[j])@ == spec_ancestors(
            p@,
        )[j] by {
            if j > 0 {
                let jj = j - 1;
                assert(out@[jj + 1]@ == rest@[jj]@);
            }
        }
    }
    out
}

/// The version carried by the live artifact's link target: take the
/// portion after the last slash, drop a trailing extension (a last dot
/// that does not lead the entry name), and keep what follows the first dot
/// of the rest. Nothing is denoted when no dot remains - the artifact path
/// carries no version.
pub open spec fn spec_artifact_version(p: Seq<u8>) -> Option<Seq<u8>> {
    let ns = rfind(p, 47, p.len() as int) + 1;
    let de = rfind(p, 46, p.len() as int);
    let se = if de > ns {
        de
    } else {
        p.len() as int
    };
    let fd = ffind(p, 46, ns, se);
    if fd == se {
        None
    } else {
        Some(p.subrange(fd + 1, se))
    }
}

/// Extracts the version from the artifact's link target, mirroring
/// `spec_artifact_version`; a path without one draws `ArtifactPath`.
pub fn artifact_version(p: &Vec<u8>) -> (r: Result<Vec<u8>, RetentionError>)
    ensures
        match r {
            Ok(v) => spec_artifact_version(p@) == Some(v@),
            Err(e) => spec_artifact_version(p@) is None && e == RetentionError::ArtifactPath,
        },
{
    let ns = match rfind_exec(p, 47, p.len()) {
        Some(i) => i + 1,
        None => 0,
    };
    let de = rfind_exec(p, 46, p.len());
    let se = match de {
        Some(d) if d > ns => d,
        _ => p.len(),
    };
    proof {
        lemma_rfind_in_range(p@, 46, p@.len() as int);
        lemma_rfind_in_range(p@, 47, p@.len() as int);
    }
    let fd = ffind_exec(p, 46, ns, se);
    if fd == se {
        Err(RetentionError::ArtifactPath)
    } else {
        Ok(crate::name::copy_range_pub(p, fd + 1, se))
    }
}

} // verus!

use vstd::prelude::*;

verus! {

/// A model of one filesystem entry, as the size accounting reads it: a
/// regular file with its length, a symlink with the length of the link
/// object itself and of its target, or a directory with its children.
/// Symlinks are never followed, so the tree has no cycles.
pub enum FsTree {
    File { len: u64 },
    Symlink { len: u64, target_len: u64 },
    Dir { children: Vec<FsTree> },
}

/// The accounted footprint of a tree: regular files and symlinks
/// contribute their own reported length (for a symlink, the length of the
/// link object, not of its target); a directory contributes the sum of its
/// children and no overhead of its own.
pub open spec fn tree_size(t: FsTree) -> nat
    decreases t,
{
    match t {
        FsTree::File { len } => len as nat,
        FsTree::Symlink { len, .. } => len as nat,
        FsTree::Dir { children } => forest_size(children@),
    }
}

/// Sum of `tree_size` over a sequence of sibling entries.
pub open spec fn forest_size(s: Seq<FsTree>) -> nat
    decreases s,
{
    if s.len() == 0 {
        0
    } else {
        tree_size(s[0]) + forest_size(s.drop_first())
    }
}

/// Sum of the lengths of the regular files alone.
pub open spec fn file_length_sum(t: FsTree) -> nat
    decreases t,
{
    match t {
        FsTree::File { len } => len as nat,
        FsTree::Symlink { .. } => 0,
        FsTree::Dir { children } => forest_file_length_sum(children@),
    }
}

/// Sum of `file_length_sum` over a sequence of sibling entries.
pub open spec fn forest_file_length_sum(s: Seq<FsTree>) -> nat
    decreases s,
{
    if s.len() == 0 {
        0
    } else {
        file_length_sum(s[0]) + forest_file_length_sum(s.drop_first())
    }
}

/// The footprint the accounting would report if it followed symlinks:
/// a symlink contributes its target's length instead of its own.
pub open spec fn followed_size(t: FsTree) -> nat
    decreases t,
{
    match t {
        FsTree::File { len } => len as nat,
        FsTree::Symlink { target_len, .. } => target_len as nat,
        FsTree::Dir { children } => forest_followed_size(children@),
    }
}

/// Sum of `followed_size` over a sequence of sibling entries.
pub open spec fn forest_followed_size(s: Seq<FsTree>) -> nat
    decreases s,
{
    if s.len() == 0 {
        0
    } else {
        followed_size(s[0]) + forest_followed_size(s.drop_first())
    }
}

/// Sum of the link objects' own lengths over all symlinks of the tree.
pub open spec fn link_self_sum(t: FsTree) -> nat
    decreases t,
{
    match t {
        FsTree::File { .. } => 0,
        FsTree::Symlink { len, .. } => len as nat,
        FsTree::Dir { children } => forest_link_self_sum(children@),
    }
}

/// Sum of `link_self_sum` over a sequence of sibling entries.
pub open spec fn forest_link_self_sum(s: Seq<FsTree>) -> nat
    decreases s,
{
    if s.len() == 0 {
        0
    } else {
        link_self_sum(s[0]) + forest_link_self_sum(s.drop_first())
    }
}

/// Sum of the targets' lengths over all symlinks of the tree.
pub open spec fn link_target_sum(t: FsTree) -> nat
    decreases t,
{
    match t {
        FsTree::File { .. } => 0,
        FsTree::Symlink { target_len, .. } => target_len as nat,
        FsTree::Dir { children } => forest_link_target_sum(children@),
    }
}

/// Sum of `link_target_sum` over a sequence of sibling entries.
pub open spec fn forest_link_target_sum(s: Seq<FsTree>) -> nat
    decreases s,
{
    if s.len() == 0 {
        0
    } else {
        link_target_sum(s[0]) + forest_link_target_sum(s.drop_first())
    }
}

/// True when the tree holds no symlink anywhere.
pub open spec fn has_no_symlink(t: FsTree) -> bool
    decreases t,
{
    match t {
        FsTree::File { .. } => true,
        FsTree::Symlink { .. } => false,
        FsTree::Dir { children } => forest_has_no_symlink(children@),
    }
}

/// True when no entry of the sequence holds a symlink anywhere.
pub open spec fn forest_has_no_symlink(s: Seq<FsTree>) -> bool
    decreases s,
{
    if s.len() == 0 {
        true
    } else {
        has_no_symlink(s[0]) && forest_has_no_symlink(s.drop_first())
    }
}

/// Splitting a forest sum at the front entry, stated for a pushed-on tail:
/// appending one entry adds exactly that entry's size.
pub proof fn lemma_forest_size_push(s: Seq<FsTree>, t: FsTree)
    ensures
        forest_size(s.push(t)) == forest_size(s) + tree_size(t),
    decreases s,
{
    if s.len() == 0 {
        assert(s.push(t).drop_first() =~= s);
    } else {
        assert(s.push(t).drop_first() =~= s.drop_first().push(t));
        lemma_forest_size_push(s.drop_first(), t);
    }
}

/// A prefix of a forest never accounts for more than the whole forest.
pub proof fn lemma_forest_size_prefix(s: Seq<FsTree>, i: int)
    requires
        0 <= i <= s.len(),
    ensures
        forest_size(s.subrange(0, i)) <= forest_size(s),
    decreases s.len() - i,
{
    if i < s.len() {
        assert(s.subrange(0, i + 1) =~= s.subrange(0, i).push(s[i]));
        lemma_forest_size_push(s.subrange(0, i), s[i]);
        lemma_forest_size_prefix(s, i + 1);
    } else {
        assert(s.subrange(0, i) =~= s);
    }
}

/// Computes the accounted footprint of a tree, exactly `tree_size`, or
/// reports that the total does not fit in 64 bits.
#[verifier::loop_isolation(false)]
pub fn size_of(t: &FsTree) -> (r: Option<u64>)
    ensures
        r == (if tree_size(*t) <= u64::MAX {
            Some(tree_size(*t) as u64)
        } else {
            None::<u64>
        }),
    decreases *t,
{
    match t {
        FsTree::File { len } => Some(*len),
        FsTree::Symlink { len, .. } => Some(*len),
        FsTree::Dir { children } => {
            let ghost all = children@;
            let mut total: u64 = 0;
            let mut i: usize = 0;
            while i < children.len()
                invariant
                    0 <= i <= children.len(),
                    children@ == all,
                    total == forest_size(all.subrange(0, i as int)),
                decreases children.len() - i,
            {
                let child_size = match size_of(&children[i]) {
                    Some(n) => n,
                    None => {
                        proof {
                            lemma_forest_size_push(all.subrange(0, i as int), all[i as int]);
                            assert(all.subrange(0, i + 1) =~= all.subrange(0, i as int).push(all[i as int]));
                            lemma_forest_size_prefix(all, i + 1);
                        }
                        return None;
                    },
                };
                proof {
                    lemma_forest_size_push(all.subrange(0, i as int), all[i as int]);
                    assert(all.subrange(0, i + 1) =~= all.subrange(0, i as int).push(all[i as int]));
                }
                total = match total.checked_add(child_size) {
                    Some(n) => n,
                    None => {
                        proof {
                            lemma_forest_size_prefix(all, i + 1);
                        }
                        return None;
                    },
                };
                i = i + 1;
            }
            proof {
                assert(all.subrange(0, all.len() as int) =~= all);
            }
            Some(total)
        },
    }
}

/// In a tree with no symlinks the accounted footprint is exactly the sum
/// of the regular files' lengths.
pub proof fn lemma_size_no_symlink(t: FsTree)
    requires
        has_no_symlink(t),
    ensures
        tree_size(t) == file_length_sum(t),
    decreases t,
{
    match t {
        FsTree::Dir { children } => {
            lemma_forest_size_no_symlink(children@);
        },
        _ => {},
    }
}

/// Forest form of `lemma_size_no_symlink`.
pub proof fn lemma_forest_size_no_symlink(s: Seq<FsTree>)
    requires
        forest_has_no_symlink(s),
    ensures
        forest_size(s) == forest_file_length_sum(s),
    decreases s,
{
    if s.len() > 0 {
        lemma_size_no_symlink(s[0]);
        lemma_forest_size_no_symlink(s.drop_first());
    }
}

/// Following symlinks shifts the accounted footprint by exactly the
/// difference between the targets' lengths and the link objects' own
/// lengths; in particular, whenever those two sums differ, following
/// symlinks would have changed the result.
pub proof fn lemma_size_follows_links(t: FsTree)
    ensures
        tree_size(t) + link_target_sum(t) == followed_size(t) + link_self_sum(t),
        link_self_sum(t) != link_target_sum(t) ==> tree_size(t) != followed_size(t),
    decreases t,
{
    match t {
        FsTree::Dir { children } => {
            lemma_forest_size_follows_links(children@);
        },
        _ => {},
    }
}

/// Forest form of `lemma_size_follows_links`.
pub proof fn lemma_forest_size_follows_links(s: Seq<FsTree>)
    ensures
        forest_size(s) + forest_link_target_sum(s) == forest_followed_size(s) + forest_link_self_sum(s),
    decreases s,
{
    if s.len() > 0 {
        lemma_size_follows_links(s[0]);
        lemma_forest_size_follows_links(s.drop_first());
    }
}

} // verus!

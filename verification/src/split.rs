//! Planning the pair of commits that replace a commit being split.
//!
//! The remainder commit keeps the original parent and carries, for every
//! file a range touches, the complement of the selected lines. The
//! selected commit sits on top of the remainder commit and restores every
//! touched file to its full original content, so the final state after
//! both commits equals the state after the original commit. Everything
//! here is pure planning over in-memory trees; reading a commit's files
//! and persisting the two new commits belong to the version-control
//! collaborator around the library.

use vstd::prelude::*;
use vstd::string::*;
use crate::range::LineRange;
use crate::lines::copy_bytes;
use crate::partition::{extract_complement_lines, spec_complement};

verus! {

/// One file of a commit's tree: a repository-relative path and the
/// file's full content at that commit.
#[derive(Debug)]
pub struct TreeEntry {
    pub path: String,
    pub content: Vec<u8>,
}

/// The planned pair of commits.
#[derive(Debug)]
pub struct SplitPlan {
    /// Per touched path, the file content of the remainder commit.
    pub remainder_changes: Vec<TreeEntry>,
    /// Per touched path, the file content of the selected commit: the
    /// original content, restored on top of the remainder.
    pub selected_changes: Vec<TreeEntry>,
    /// Message of the remainder commit.
    pub remainder_message: String,
    /// Message of the selected commit.
    pub selected_message: String,
}

/// Why a split could not be planned.
#[derive(Debug, PartialEq, Eq)]
pub enum SplitError {
    /// A path named by a range does not exist in the commit's tree.
    FileNotFound(String),
}

/// The content of the first tree entry with the given path, if any.
pub open spec fn tree_find(tree: Seq<TreeEntry>, path: Seq<char>) -> Option<Seq<u8>>
    decreases tree.len(),
{
    if tree.len() == 0 {
        None
    } else if tree[0].path@ == path {
        Some(tree[0].content@)
    } else {
        tree_find(tree.drop_first(), path)
    }
}

/// The paths the ranges name, in order, one per range.
pub open spec fn range_paths(rs: Seq<LineRange>) -> Seq<Seq<char>> {
    rs.map_values(|r: LineRange| r.path@)
}

/// The distinct paths, each at its first occurrence.
pub open spec fn spec_distinct(ps: Seq<Seq<char>>) -> Seq<Seq<char>>
    decreases ps.len(),
{
    if ps.len() == 0 {
        Seq::empty()
    } else {
        let prev = spec_distinct(ps.drop_last());
        if prev.contains(ps.last()) {
            prev
        } else {
            prev.push(ps.last())
        }
    }
}

/// The distinct paths are pairwise distinct.
pub proof fn lemma_distinct_no_dup(ps: Seq<Seq<char>>)
    ensures
        forall|k1: int, k2: int|
            0 <= k1 < k2 < spec_distinct(ps).len() ==> spec_distinct(ps)[k1] != spec_distinct(
                ps,
            )[k2],
    decreases ps.len(),
{
    if ps.len() > 0 {
        lemma_distinct_no_dup(ps.drop_last());
        let prev = spec_distinct(ps.drop_last());
        let out = spec_distinct(ps);
        if !prev.contains(ps.last()) {
            assert forall|k1: int, k2: int| 0 <= k1 < k2 < out.len() implies out[k1] != out[k2] by {
                if k2 == out.len() - 1 {
                    assert(out[k2] == ps.last());
                    assert(out[k1] == prev[k1]);
                    assert(!prev.contains(ps.last()));
                    if out[k1] == ps.last() {
                        assert(prev.contains(ps.last()));
                    }
                } else {
                    assert(out[k1] == prev[k1] && out[k2] == prev[k2]);
                }
            }
        }
    }
}

/// The first of the given paths that the tree lacks, if any.
pub open spec fn spec_first_missing(tree: Seq<TreeEntry>, ps: Seq<Seq<char>>) -> Option<Seq<char>>
    decreases ps.len(),
{
    if ps.len() == 0 {
        None
    } else if tree_find(tree, ps[0]) is None {
        Some(ps[0])
    } else {
        spec_first_missing(tree, ps.drop_first())
    }
}

pub proof fn lemma_first_missing_at(tree: Seq<TreeEntry>, ps: Seq<Seq<char>>, k: int)
    requires
        0 <= k < ps.len(),
        tree_find(tree, ps[k]) is None,
        forall|j: int| 0 <= j < k ==> tree_find(tree, ps[j]) is Some,
    ensures
        spec_first_missing(tree, ps) == Some(ps[k]),
    decreases ps.len(),
{
    if k > 0 {
        let t = ps.drop_first();
        assert(tree_find(tree, ps[0]) is Some);
        assert(t[k - 1] == ps[k]);
        assert forall|j: int| 0 <= j < k - 1 implies tree_find(tree, t[j]) is Some by {
            assert(t[j] == ps[j + 1]);
        }
        lemma_first_missing_at(tree, t, k - 1);
    }
}

pub proof fn lemma_first_missing_none(tree: Seq<TreeEntry>, ps: Seq<Seq<char>>)
    requires
        forall|j: int| 0 <= j < ps.len() ==> tree_find(tree, ps[j]) is Some,
    ensures
        spec_first_missing(tree, ps) is None,
    decreases ps.len(),
{
    if ps.len() > 0 {
        let t = ps.drop_first();
        assert forall|j: int| 0 <= j < t.len() implies tree_find(tree, t[j]) is Some by {
            assert(t[j] == ps[j + 1]);
        }
        lemma_first_missing_none(tree, t);
    }
}

/// `tree_find` reports the first matching entry.
pub proof fn lemma_tree_find_at(tree: Seq<TreeEntry>, path: Seq<char>, j: int)
    requires
        0 <= j < tree.len(),
        tree[j].path@ == path,
        forall|k: int| 0 <= k < j ==> tree[k].path@ != path,
    ensures
        tree_find(tree, path) == Some(tree[j].content@),
    decreases tree.len(),
{
    if j > 0 {
        let t = tree.drop_first();
        assert forall|k: int| 0 <= k < j - 1 implies t[k].path@ != path by {
            assert(t[k] == tree[k + 1]);
        }
        lemma_tree_find_at(t, path, j - 1);
    }
}

/// `tree_find` reports nothing when no entry matches.
pub proof fn lemma_tree_find_none(tree: Seq<TreeEntry>, path: Seq<char>)
    requires
        forall|k: int| 0 <= k < tree.len() ==> tree[k].path@ != path,
    ensures
        tree_find(tree, path) is None,
    decreases tree.len(),
{
    if tree.len() > 0 {
        let t = tree.drop_first();
        assert forall|k: int| 0 <= k < t.len() implies t[k].path@ != path by {
            assert(t[k] == tree[k + 1]);
        }
        lemma_tree_find_none(t, path);
    }
}

/// A commit tree as a map from path to content; where duplicate paths
/// occur, the first entry wins, as in `tree_find`.
pub open spec fn tree_map(tree: Seq<TreeEntry>) -> Map<Seq<char>, Seq<u8>>
    decreases tree.len(),
{
    if tree.len() == 0 {
        Map::empty()
    } else {
        tree_map(tree.drop_first()).insert(tree[0].path@, tree[0].content@)
    }
}

pub proof fn lemma_tree_map_find(tree: Seq<TreeEntry>, p: Seq<char>)
    ensures
        tree_map(tree).contains_key(p) <==> tree_find(tree, p) is Some,
        tree_find(tree, p) is Some ==> tree_map(tree)[p] == tree_find(tree, p)->0,
    decreases tree.len(),
{
    if tree.len() > 0 {
        lemma_tree_map_find(tree.drop_first(), p);
    }
}

/// The tree after one commit's changes: each change's path mapped to its
/// new content, every other path untouched.
pub open spec fn apply_changes(m: Map<Seq<char>, Seq<u8>>, cs: Seq<TreeEntry>) -> Map<
    Seq<char>,
    Seq<u8>,
>
    decreases cs.len(),
{
    if cs.len() == 0 {
        m
    } else {
        apply_changes(m.insert(cs[0].path@, cs[0].content@), cs.drop_first())
    }
}

/// A path no change names is untouched by the changes.
pub proof fn lemma_apply_changes_untouched(
    m: Map<Seq<char>, Seq<u8>>,
    cs: Seq<TreeEntry>,
    p: Seq<char>,
)
    requires
        forall|k: int| 0 <= k < cs.len() ==> (#[trigger] cs[k]).path@ != p,
    ensures
        apply_changes(m, cs).contains_key(p) <==> m.contains_key(p),
        m.contains_key(p) ==> apply_changes(m, cs)[p] == m[p],
    decreases cs.len(),
{
    if cs.len() > 0 {
        let t = cs.drop_first();
        assert forall|k: int| 0 <= k < t.len() implies (#[trigger] t[k]).path@ != p by {
            assert(t[k] == cs[k + 1]);
        }
        lemma_apply_changes_untouched(m.insert(cs[0].path@, cs[0].content@), t, p);
    }
}

/// A path named by a change, and by no later change, ends up with that
/// change's content.
pub proof fn lemma_apply_changes_touched(m: Map<Seq<char>, Seq<u8>>, cs: Seq<TreeEntry>, k: int)
    requires
        0 <= k < cs.len(),
        forall|j: int| k < j < cs.len() ==> (#[trigger] cs[j]).path@ != cs[k].path@,
    ensures
        apply_changes(m, cs).contains_key(cs[k].path@),
        apply_changes(m, cs)[cs[k].path@] == cs[k].content@,
    decreases cs.len(),
{
    let t = cs.drop_first();
    let m1 = m.insert(cs[0].path@, cs[0].content@);
    if k == 0 {
        assert forall|j: int| 0 <= j < t.len() implies (#[trigger] t[j]).path@ != cs[0].path@ by {
            assert(t[j] == cs[j + 1]);
        }
        lemma_apply_changes_untouched(m1, t, cs[0].path@);
    } else {
        assert(t[k - 1] == cs[k]);
        assert forall|j: int| k - 1 < j < t.len() implies (#[trigger] t[j]).path@ != t[k
            - 1].path@ by {
            assert(t[j] == cs[j + 1]);
        }
        lemma_apply_changes_touched(m1, t, k - 1);
    }
}

/// Splitting reconstitutes the original state: applying the remainder
/// commit's changes and then the selected commit's changes to the
/// original tree yields the original tree again, so the two commits'
/// combined diff equals the diff of the commit that was split.
pub proof fn lemma_split_reconstitutes(
    tree: Seq<TreeEntry>,
    rem: Seq<TreeEntry>,
    sel: Seq<TreeEntry>,
)
    requires
        rem.len() == sel.len(),
        forall|k: int| 0 <= k < sel.len() ==> (#[trigger] rem[k]).path@ == sel[k].path@,
        forall|k1: int, k2: int|
            0 <= k1 < k2 < sel.len() ==> (#[trigger] sel[k1].path@) != (#[trigger] sel[k2].path@),
        forall|k: int|
            0 <= k < sel.len() ==> tree_find(tree, (#[trigger] sel[k]).path@) == Some(
                sel[k].content@,
            ),
    ensures
        apply_changes(apply_changes(tree_map(tree), rem), sel) == tree_map(tree),
{
    let m0 = tree_map(tree);
    let m1 = apply_changes(m0, rem);
    let m2 = apply_changes(m1, sel);
    assert forall|p: Seq<char>|
        #![trigger m2.contains_key(p)]
        #![trigger m0.contains_key(p)]
        (m2.contains_key(p) <==> m0.contains_key(p)) && (m0.contains_key(p) ==> m2[p]
            == m0[p]) by {
        lemma_tree_map_find(tree, p);
        if exists|k: int| 0 <= k < sel.len() && (#[trigger] sel[k]).path@ == p {
            let k = choose|k: int| 0 <= k < sel.len() && (#[trigger] sel[k]).path@ == p;
            assert forall|j: int| k < j < sel.len() implies (#[trigger] sel[j]).path@
                != sel[k].path@ by {}
            lemma_apply_changes_touched(m1, sel, k);
            assert(m2[p] == sel[k].content@);
            assert(tree_find(tree, p) == Some(sel[k].content@));
        } else {
            assert forall|k: int| 0 <= k < sel.len() implies (#[trigger] sel[k]).path@ != p by {}
            assert forall|k: int| 0 <= k < rem.len() implies (#[trigger] rem[k]).path@ != p by {
                assert(rem[k].path@ == sel[k].path@);
            }
            lemma_apply_changes_untouched(m0, rem, p);
            lemma_apply_changes_untouched(m1, sel, p);
        }
    }
    assert(m2.dom() =~= m0.dom()) by {
        assert forall|p: Seq<char>| m2.dom().contains(p) <==> m0.dom().contains(p) by {
            assert(m2.contains_key(p) <==> m0.contains_key(p));
        }
    }
    assert(m2 =~= m0);
}

/// Index of the first tree entry with the given path.
fn find_in_tree(tree: &Vec<TreeEntry>, path: &String) -> (r: Option<usize>)
    ensures
        match r {
            Some(idx) => idx < tree@.len() && tree@[idx as int].path@ == path@ && tree_find(
                tree@,
                path@,
            ) == Some(tree@[idx as int].content@),
            None => tree_find(tree@, path@) is None,
        },
{
    let mut i: usize = 0;
    while i < tree.len()
        invariant
            i <= tree@.len(),
            forall|k: int| 0 <= k < i ==> tree@[k].path@ != path@,
        decreases tree@.len() - i,
    {
        if tree[i].path == *path {
            proof {
                lemma_tree_find_at(tree@, path@, i as int);
            }
            return Some(i);
        }
        i = i + 1;
    }
    proof {
        lemma_tree_find_none(tree@, path@);
    }
    None
}

/// What a successful plan reconstitutes: when the change lists pair the
/// distinct touched paths with their remainder and original contents, as
/// `plan_split` promises, applying the remainder commit's changes and
/// then the selected commit's changes to the original tree yields the
/// original tree again.
pub proof fn lemma_plan_reconstitutes(
    tree: Seq<TreeEntry>,
    ranges: Seq<LineRange>,
    rem: Seq<TreeEntry>,
    sel: Seq<TreeEntry>,
)
    requires
        rem.len() == spec_distinct(range_paths(ranges)).len(),
        sel.len() == spec_distinct(range_paths(ranges)).len(),
        forall|k: int|
            0 <= k < sel.len() ==> (#[trigger] rem[k]).path@ == spec_distinct(range_paths(ranges))[k],
        forall|k: int|
            0 <= k < sel.len() ==> (#[trigger] sel[k]).path@ == spec_distinct(range_paths(ranges))[k],
        forall|k: int|
            0 <= k < sel.len() ==> tree_find(tree, spec_distinct(range_paths(ranges))[k]) is Some,
        forall|k: int|
            0 <= k < sel.len() ==> (#[trigger] sel[k]).content@ == tree_find(
                tree,
                spec_distinct(range_paths(ranges))[k],
            )->0,
    ensures
        apply_changes(apply_changes(tree_map(tree), rem), sel) == tree_map(tree),
{
    let ps = spec_distinct(range_paths(ranges));
    lemma_distinct_no_dup(range_paths(ranges));
    assert forall|k: int|
        0 <= k < sel.len() implies tree_find(tree, (#[trigger] sel[k]).path@) == Some(
        sel[k].content@,
    ) by {
        assert(sel[k].path@ == ps[k]);
    }
    assert forall|k1: int, k2: int|
        0 <= k1 < k2 < sel.len() implies (#[trigger] sel[k1].path@) != (
    #[trigger] sel[k2].path@) by {
        assert(sel[k1].path@ == ps[k1] && sel[k2].path@ == ps[k2]);
    }
    lemma_split_reconstitutes(tree, rem, sel);
}

/// The deep view of a vector of strings, after a push.
proof fn lemma_string_deep_push(w: &Vec<String>, prev: Seq<String>, prevd: Seq<Seq<char>>)
    requires
        w@.len() == prev.len() + 1,
        forall|k: int| 0 <= k < prev.len() ==> w@[k] == prev[k],
        prevd.len() == prev.len(),
        forall|k: int| 0 <= k < prev.len() ==> prevd[k] == #[trigger] prev[k].deep_view(),
    ensures
        w.deep_view() == prevd.push(w@[prev.len() as int]@),
{
    let x = w@[prev.len() as int]@;
    assert(w.deep_view() =~= prevd.push(x)) by {
        assert forall|k: int| 0 <= k < w@.len() implies w.deep_view()[k] == prevd.push(x)[k] by {
            assert(w.deep_view()[k] == w@[k].deep_view());
            if k < prev.len() {
                assert(w@[k] == prev[k]);
            }
        }
    }
}

/// The set of distinct paths the ranges reference, each at its first
/// occurrence, in order.
pub fn distinct_paths(ranges: &[LineRange]) -> (r: Vec<String>)
    ensures
        r.deep_view() == spec_distinct(range_paths(ranges@)),
{
    let ghost ps = range_paths(ranges@);
    let mut r: Vec<String> = Vec::new();
    let mut i: usize = 0;
    proof {
        assert(r.deep_view() =~= spec_distinct(ps.subrange(0, 0)));
    }
    while i < ranges.len()
        invariant
            i <= ranges@.len(),
            ps == range_paths(ranges@),
            ps.len() == ranges@.len(),
            r.deep_view() == spec_distinct(ps.subrange(0, i as int)),
        decreases ranges@.len() - i,
    {
        let rk = vstd::slice::slice_index_get(ranges, i);
        proof {
            assert(ps.subrange(0, i + 1).drop_last() =~= ps.subrange(0, i as int));
            assert(ps.subrange(0, i + 1).last() == ps[i as int]);
            assert(ps[i as int] == rk.path@);
        }
        let mut seen = false;
        let mut j: usize = 0;
        while j < r.len()
            invariant
                j <= r@.len(),
                r.deep_view().len() == r@.len(),
                seen ==> r.deep_view().contains(rk.path@),
                !seen ==> forall|k: int| 0 <= k < j ==> r.deep_view()[k] != rk.path@,
            decreases r@.len() - j,
        {
            if r[j] == rk.path {
                proof {
                    assert(r.deep_view()[j as int] == r@[j as int].deep_view());
                    assert(r.deep_view()[j as int] == rk.path@);
                }
                seen = true;
            } else {
                proof {
                    assert(r.deep_view()[j as int] == r@[j as int].deep_view());
                }
            }
            j = j + 1;
        }
        if !seen {
            proof {
                if r.deep_view().contains(rk.path@) {
                    let w = choose|w: int|
                        0 <= w < r.deep_view().len() && r.deep_view()[w] == rk.path@;
                    assert(false);
                }
            }
            let ghost prev = r@;
            let ghost prevd = r.deep_view();
            proof {
                assert forall|k: int|
                    0 <= k < prev.len() implies prevd[k] == #[trigger] prev[k].deep_view() by {}
            }
            r.push(rk.path.clone());
            proof {
                lemma_string_deep_push(&r, prev, prevd);
            }
        }
        i = i + 1;
    }
    proof {
        assert(ps.subrange(0, ps.len() as int) =~= ps);
    }
    r
}

/// Plans the split of one commit: for every distinct path the ranges
/// touch, looks the file up in the commit's tree, computes the remainder
/// content, and records that the selected commit restores the original
/// content; fails with the first path that is not in the tree. The
/// remainder commit's message is derived from the original message; the
/// selected commit's message is the caller's, or derived.
pub fn plan_split(
    tree: &Vec<TreeEntry>,
    ranges: &[LineRange],
    original_message: &str,
    user_message: Option<String>,
) -> (r: Result<SplitPlan, SplitError>)
    requires
        forall|i: int| 0 <= i < ranges@.len() ==> (#[trigger] ranges@[i]).wf(),
    ensures
        match r {
            Ok(plan) => {
                let ps = spec_distinct(range_paths(ranges@));
                &&& spec_first_missing(tree@, ps) is None
                &&& forall|k: int| 0 <= k < ps.len() ==> tree_find(tree@, ps[k]) is Some
                &&& plan.remainder_changes@.len() == ps.len()
                &&& plan.selected_changes@.len() == ps.len()
                &&& forall|k: int|
                    0 <= k < ps.len() ==> (#[trigger] plan.remainder_changes@[k]).path@ == ps[k]
                &&& forall|k: int|
                    0 <= k < ps.len() ==> (#[trigger] plan.selected_changes@[k]).path@ == ps[k]
                &&& forall|k: int|
                    0 <= k < ps.len() ==> (#[trigger] plan.remainder_changes@[k]).content@
                        == spec_complement(tree_find(tree@, ps[k])->0, ranges@, ps[k])
                &&& forall|k: int|
                    0 <= k < ps.len() ==> (#[trigger] plan.selected_changes@[k]).content@
                        == tree_find(tree@, ps[k])->0
                &&& plan.remainder_message@ == "remainder of "@ + original_message@
                &&& plan.selected_message@ == match user_message {
                    Some(m) => m@,
                    None => "split: "@ + original_message@,
                }
            },
            Err(SplitError::FileNotFound(p)) => spec_first_missing(
                tree@,
                spec_distinct(range_paths(ranges@)),
            ) == Some(p@),
        },
{
    let paths = distinct_paths(ranges);
    let ghost ps = spec_distinct(range_paths(ranges@));
    let mut remainder_changes: Vec<TreeEntry> = Vec::new();
    let mut selected_changes: Vec<TreeEntry> = Vec::new();
    let mut k: usize = 0;
    while k < paths.len()
        invariant
            k <= paths@.len(),
            ps == spec_distinct(range_paths(ranges@)),
            paths.deep_view() == ps,
            paths.deep_view().len() == paths@.len(),
            forall|i: int| 0 <= i < ranges@.len() ==> (#[trigger] ranges@[i]).wf(),
            forall|j: int| 0 <= j < k ==> tree_find(tree@, ps[j]) is Some,
            remainder_changes@.len() == k,
            selected_changes@.len() == k,
            forall|j: int|
                0 <= j < k ==> (#[trigger] remainder_changes@[j]).path@ == ps[j],
            forall|j: int|
                0 <= j < k ==> (#[trigger] selected_changes@[j]).path@ == ps[j],
            forall|j: int|
                0 <= j < k ==> (#[trigger] remainder_changes@[j]).content@ == spec_complement(
                    tree_find(tree@, ps[j])->0,
                    ranges@,
                    ps[j],
                ),
            forall|j: int|
                0 <= j < k ==> (#[trigger] selected_changes@[j]).content@ == tree_find(
                    tree@,
                    ps[j],
                )->0,
        decreases paths@.len() - k,
    {
        let path = &paths[k];
        proof {
            assert(paths.deep_view()[k as int] == paths@[k as int].deep_view());
            assert(path@ == ps[k as int]);
        }
        let idx = match find_in_tree(tree, path) {
            Some(idx) => idx,
            None => {
                let p = path.clone();
                proof {
                    lemma_first_missing_at(tree@, ps, k as int);
                    assert(spec_first_missing(tree@, ps) == Some(p@));
                }
                return Err(SplitError::FileNotFound(p));
            },
        };
        let content = &tree[idx].content;
        let remainder = extract_complement_lines(content.as_slice(), ranges, path.as_str());
        let original = copy_bytes(content);
        remainder_changes.push(TreeEntry { path: path.clone(), content: remainder });
        selected_changes.push(TreeEntry { path: path.clone(), content: original });
        k = k + 1;
    }
    proof {
        lemma_first_missing_none(tree@, ps);
    }
    let remainder_message = String::from_str("remainder of ").concat(original_message);
    let selected_message = match user_message {
        Some(m) => m,
        None => String::from_str("split: ").concat(original_message),
    };
    Ok(
        SplitPlan {
            remainder_changes,
            selected_changes,
            remainder_message,
            selected_message,
        },
    )
}

} // verus!

//! Partitioning a file's content into the lines selected by a set of
//! ranges and the complementary lines.
//!
//! `extract_lines_from_content` concatenates the requested slices in
//! ascending order of their start line, so overlapping ranges may emit a
//! line more than once. `extract_complement_lines` works on the set of
//! excluded line indices instead, so overlap collapses and every line is
//! either kept exactly once or excluded.

use vstd::prelude::*;
use itertools::Itertools;
use crate::range::LineRange;
use crate::lines::{
    spec_lines, join_lines, split_lines, join_lines_exec, copy_bytes, lemma_deep_view_push,
    lemma_deep_view_index,
};

verus! {

/// The ranges that apply to `path`, in their original order.
pub open spec fn matching_ranges(rs: Seq<LineRange>, path: Seq<char>) -> Seq<LineRange>
    decreases rs.len(),
{
    if rs.len() == 0 {
        Seq::empty()
    } else {
        let prev = matching_ranges(rs.drop_last(), path);
        if rs.last().path@ == path {
            prev.push(rs.last())
        } else {
            prev
        }
    }
}

/// Inserts `r` after every range whose start is not greater, which is
/// where a stable sort by start puts it.
pub open spec fn insert_sorted(r: LineRange, s: Seq<LineRange>) -> Seq<LineRange>
    decreases s.len(),
{
    if s.len() == 0 {
        seq![r]
    } else if s[0].start <= r.start {
        seq![s[0]] + insert_sorted(r, s.drop_first())
    } else {
        seq![r] + s
    }
}

/// The stable ascending reordering of `s` by start line: each element is
/// inserted, in input order, after all elements with a start not greater
/// than its own, so ties keep their original relative order.
pub open spec fn sort_by_start(s: Seq<LineRange>) -> Seq<LineRange>
    decreases s.len(),
{
    if s.len() == 0 {
        Seq::empty()
    } else {
        insert_sorted(s.last(), sort_by_start(s.drop_last()))
    }
}

/// The slice of `lines` one range selects: 1-indexed inclusive bounds,
/// clamped to the available lines; a range entirely past the end selects
/// nothing.
pub open spec fn clamped_segment(r: LineRange, lines: Seq<Seq<u8>>) -> Seq<Seq<u8>> {
    let n = lines.len() as int;
    let lo = r.start as int - 1;
    let hi = if r.end as int <= n {
        r.end as int
    } else {
        n
    };
    if 0 <= lo && lo < n && lo <= hi {
        lines.subrange(lo, hi)
    } else {
        Seq::empty()
    }
}

/// The selected lines: the clamped slices of all ranges, concatenated in
/// range order. Nothing is deduplicated here.
pub open spec fn selected_lines(srs: Seq<LineRange>, lines: Seq<Seq<u8>>) -> Seq<Seq<u8>>
    decreases srs.len(),
{
    if srs.len() == 0 {
        Seq::empty()
    } else {
        selected_lines(srs.drop_last(), lines) + clamped_segment(srs.last(), lines)
    }
}

/// Whether the 0-indexed line `i` falls inside range `r`.
pub open spec fn covers(r: LineRange, i: int) -> bool {
    r.start as int - 1 <= i < r.end as int
}

/// Whether some range of `m` covers the 0-indexed line `i`.
pub open spec fn line_excluded(m: Seq<LineRange>, i: int) -> bool {
    exists|k: int| 0 <= k < m.len() && covers(m[k], i)
}

/// The lines kept by the complement: every line whose index no range of
/// `m` covers, in original order.
pub open spec fn kept_lines(m: Seq<LineRange>, lines: Seq<Seq<u8>>) -> Seq<Seq<u8>>
    decreases lines.len(),
{
    if lines.len() == 0 {
        Seq::empty()
    } else {
        let prev = kept_lines(m, lines.drop_last());
        if line_excluded(m, lines.len() - 1) {
            prev
        } else {
            prev.push(lines.last())
        }
    }
}

/// What `extract_lines_from_content` returns: nothing when no range
/// matches the path, else the matching ranges' clamped slices, in
/// ascending order of start line, joined with line feeds.
pub open spec fn spec_select(content: Seq<u8>, rs: Seq<LineRange>, path: Seq<char>) -> Seq<u8> {
    let m = sort_by_start(matching_ranges(rs, path));
    if m.len() == 0 {
        Seq::empty()
    } else {
        join_lines(selected_lines(m, spec_lines(content)))
    }
}

/// What `extract_complement_lines` returns: the original bytes untouched
/// when no range matches the path, else every uncovered line, in order,
/// joined with line feeds.
pub open spec fn spec_complement(content: Seq<u8>, rs: Seq<LineRange>, path: Seq<char>) -> Seq<
    u8,
> {
    let m = matching_ranges(rs, path);
    if m.len() == 0 {
        content
    } else {
        join_lines(kept_lines(m, spec_lines(content)))
    }
}

pub proof fn lemma_matching_wf(rs: Seq<LineRange>, path: Seq<char>)
    requires
        forall|i: int| 0 <= i < rs.len() ==> (#[trigger] rs[i]).wf(),
    ensures
        forall|j: int|
            0 <= j < matching_ranges(rs, path).len() ==> (#[trigger] matching_ranges(rs, path)[j]).wf(),
    decreases rs.len(),
{
    if rs.len() > 0 {
        let prev = rs.drop_last();
        assert(forall|i: int| 0 <= i < prev.len() ==> (#[trigger] prev[i]).wf());
        lemma_matching_wf(prev, path);
        let pm = matching_ranges(prev, path);
        let out = matching_ranges(rs, path);
        assert(rs[rs.len() - 1].wf());
        assert forall|j: int| 0 <= j < out.len() implies (#[trigger] out[j]).wf() by {
            if rs.last().path@ == path {
                assert(out == pm.push(rs.last()));
                if j < pm.len() {
                    assert(out[j] == pm[j]);
                } else {
                    assert(out[j] == rs.last());
                }
            } else {
                assert(out == pm);
            }
        }
    }
}

pub proof fn lemma_insert_len(r: LineRange, s: Seq<LineRange>)
    ensures
        insert_sorted(r, s).len() == s.len() + 1,
    decreases s.len(),
{
    if s.len() > 0 && s[0].start <= r.start {
        lemma_insert_len(r, s.drop_first());
    }
}

pub proof fn lemma_sort_len(s: Seq<LineRange>)
    ensures
        sort_by_start(s).len() == s.len(),
    decreases s.len(),
{
    if s.len() > 0 {
        lemma_sort_len(s.drop_last());
        lemma_insert_len(s.last(), sort_by_start(s.drop_last()));
    }
}

/// Every element of the insertion is the inserted range or one of the
/// original elements.
pub proof fn lemma_insert_elts(r: LineRange, s: Seq<LineRange>)
    ensures
        forall|j: int|
            0 <= j < insert_sorted(r, s).len() ==> (#[trigger] insert_sorted(r, s)[j]) == r
                || s.contains(insert_sorted(r, s)[j]),
    decreases s.len(),
{
    let out = insert_sorted(r, s);
    if s.len() == 0 {
    } else if s[0].start <= r.start {
        let rest = s.drop_first();
        lemma_insert_elts(r, rest);
        assert forall|j: int| 0 <= j < out.len() implies (#[trigger] out[j]) == r || s.contains(
            out[j],
        ) by {
            if j == 0 {
                assert(s[0] == out[0]);
                assert(s.contains(s[0]));
            } else {
                let inner = insert_sorted(r, rest);
                assert(out[j] == inner[j - 1]);
                if inner[j - 1] == r {
                } else {
                    let w = choose|w: int| 0 <= w < rest.len() && rest[w] == inner[j - 1];
                    assert(s[w + 1] == rest[w]);
                    assert(s.contains(s[w + 1]));
                }
            }
        }
    } else {
        assert forall|j: int| 0 <= j < out.len() implies (#[trigger] out[j]) == r || s.contains(
            out[j],
        ) by {
            if j > 0 {
                assert(out[j] == s[j - 1]);
                assert(s.contains(s[j - 1]));
            }
        }
    }
}

/// Insertion adds exactly the inserted range to the multiset.
pub proof fn lemma_insert_multiset(r: LineRange, s: Seq<LineRange>)
    ensures
        insert_sorted(r, s).to_multiset() == s.to_multiset().insert(r),
    decreases s.len(),
{
    broadcast use vstd::seq_lib::group_to_multiset_ensures;
    broadcast use vstd::multiset::group_multiset_axioms;

    let out = insert_sorted(r, s);
    if s.len() == 0 {
        assert(out =~= Seq::<LineRange>::empty().push(r));
        assert(out.to_multiset() =~= s.to_multiset().insert(r));
    } else if s[0].start <= r.start {
        let rest = s.drop_first();
        lemma_insert_multiset(r, rest);
        let inner = insert_sorted(r, rest);
        assert(out =~= seq![s[0]] + inner);
        vstd::seq_lib::lemma_multiset_commutative(seq![s[0]], inner);
        assert(s =~= seq![s[0]] + rest);
        vstd::seq_lib::lemma_multiset_commutative(seq![s[0]], rest);
        assert(out.to_multiset() =~= s.to_multiset().insert(r));
    } else {
        assert(out =~= seq![r] + s);
        vstd::seq_lib::lemma_multiset_commutative(seq![r], s);
        assert(seq![r] =~= Seq::<LineRange>::empty().push(r));
        assert(out.to_multiset() =~= s.to_multiset().insert(r));
    }
}

/// The sorted ranges are a permutation of the input: the same multiset.
pub proof fn lemma_sort_multiset(s: Seq<LineRange>)
    ensures
        sort_by_start(s).to_multiset() == s.to_multiset(),
    decreases s.len(),
{
    broadcast use vstd::seq_lib::group_to_multiset_ensures;
    broadcast use vstd::multiset::group_multiset_axioms;

    if s.len() > 0 {
        lemma_sort_multiset(s.drop_last());
        lemma_insert_multiset(s.last(), sort_by_start(s.drop_last()));
        assert(s =~= s.drop_last().push(s.last()));
        assert(s.to_multiset() =~= s.drop_last().to_multiset().insert(s.last()));
    }
}

/// Insertion puts the new range at a sorted position.
pub proof fn lemma_insert_sorted_order(r: LineRange, s: Seq<LineRange>)
    requires
        forall|k1: int, k2: int| 0 <= k1 < k2 < s.len() ==> s[k1].start <= s[k2].start,
    ensures
        forall|k1: int, k2: int|
            0 <= k1 < k2 < insert_sorted(r, s).len() ==> insert_sorted(r, s)[k1].start
                <= insert_sorted(r, s)[k2].start,
    decreases s.len(),
{
    let out = insert_sorted(r, s);
    if s.len() == 0 {
    } else if s[0].start <= r.start {
        let rest = s.drop_first();
        assert forall|k1: int, k2: int| 0 <= k1 < k2 < rest.len() implies rest[k1].start
            <= rest[k2].start by {
            assert(rest[k1] == s[k1 + 1] && rest[k2] == s[k2 + 1]);
        }
        lemma_insert_sorted_order(r, rest);
        let inner = insert_sorted(r, rest);
        lemma_insert_elts(r, rest);
        assert forall|k1: int, k2: int| 0 <= k1 < k2 < out.len() implies out[k1].start
            <= out[k2].start by {
            if k1 == 0 {
                assert(out[0] == s[0]);
                assert(out[k2] == inner[k2 - 1]);
                if inner[k2 - 1] == r {
                } else {
                    let w = choose|w: int| 0 <= w < rest.len() && rest[w] == inner[k2 - 1];
                    assert(s[w + 1] == rest[w]);
                }
            } else {
                assert(out[k1] == inner[k1 - 1] && out[k2] == inner[k2 - 1]);
            }
        }
    } else {
        assert forall|k1: int, k2: int| 0 <= k1 < k2 < out.len() implies out[k1].start
            <= out[k2].start by {
            if k1 == 0 {
                assert(out[0] == r);
                assert(out[k2] == s[k2 - 1]);
                assert(r.start < s[0].start);
            } else {
                assert(out[k1] == s[k1 - 1] && out[k2] == s[k2 - 1]);
            }
        }
    }
}

/// The sorted sequence is ascending by start line.
pub proof fn lemma_sort_sorted(s: Seq<LineRange>)
    ensures
        forall|k1: int, k2: int|
            0 <= k1 < k2 < sort_by_start(s).len() ==> sort_by_start(s)[k1].start <= sort_by_start(
                s,
            )[k2].start,
    decreases s.len(),
{
    if s.len() > 0 {
        lemma_sort_sorted(s.drop_last());
        lemma_insert_sorted_order(s.last(), sort_by_start(s.drop_last()));
    }
}

/// The ranges with a given start line, in their order of appearance.
pub open spec fn ranges_with_start(s: Seq<LineRange>, v: usize) -> Seq<LineRange>
    decreases s.len(),
{
    if s.len() == 0 {
        Seq::empty()
    } else {
        let prev = ranges_with_start(s.drop_last(), v);
        if s.last().start == v {
            prev.push(s.last())
        } else {
            prev
        }
    }
}

pub proof fn lemma_rws_concat(a: Seq<LineRange>, b: Seq<LineRange>, v: usize)
    ensures
        ranges_with_start(a + b, v) == ranges_with_start(a, v) + ranges_with_start(b, v),
    decreases b.len(),
{
    if b.len() == 0 {
        assert(a + b =~= a);
        assert(ranges_with_start(a, v) + ranges_with_start(b, v) =~= ranges_with_start(a, v));
    } else {
        lemma_rws_concat(a, b.drop_last(), v);
        assert((a + b).drop_last() =~= a + b.drop_last());
        assert((a + b).last() == b.last());
        if b.last().start == v {
            assert(ranges_with_start(a, v) + ranges_with_start(b.drop_last(), v).push(b.last())
                =~= (ranges_with_start(a, v) + ranges_with_start(b.drop_last(), v)).push(
                b.last(),
            ));
        }
    }
}

pub proof fn lemma_rws_single(r: LineRange, v: usize)
    ensures
        ranges_with_start(seq![r], v) == if r.start == v {
            Seq::<LineRange>::empty().push(r)
        } else {
            Seq::<LineRange>::empty()
        },
{
    assert(seq![r].len() == 1);
    assert(seq![r].drop_last() =~= Seq::<LineRange>::empty());
    assert(seq![r].last() == r);
    assert(ranges_with_start(seq![r].drop_last(), v) == Seq::<LineRange>::empty());
}

pub proof fn lemma_rws_none(s: Seq<LineRange>, v: usize)
    requires
        forall|k: int| 0 <= k < s.len() ==> (#[trigger] s[k]).start != v,
    ensures
        ranges_with_start(s, v) == Seq::<LineRange>::empty(),
    decreases s.len(),
{
    if s.len() > 0 {
        lemma_rws_none(s.drop_last(), v);
    }
}

/// Inserting into a sorted sequence appends the new range after every
/// range with the same start line and disturbs no other order.
pub proof fn lemma_insert_stable(r: LineRange, s: Seq<LineRange>, v: usize)
    requires
        forall|k1: int, k2: int| 0 <= k1 < k2 < s.len() ==> s[k1].start <= s[k2].start,
    ensures
        ranges_with_start(insert_sorted(r, s), v) == if r.start == v {
            ranges_with_start(s, v).push(r)
        } else {
            ranges_with_start(s, v)
        },
    decreases s.len(),
{
    let out = insert_sorted(r, s);
    if s.len() == 0 {
        assert(out =~= seq![r]);
        lemma_rws_single(r, v);
        assert(ranges_with_start(s, v) == Seq::<LineRange>::empty());
    } else if s[0].start <= r.start {
        let rest = s.drop_first();
        assert forall|k1: int, k2: int| 0 <= k1 < k2 < rest.len() implies rest[k1].start
            <= rest[k2].start by {
            assert(rest[k1] == s[k1 + 1] && rest[k2] == s[k2 + 1]);
        }
        lemma_insert_stable(r, rest, v);
        let inner = insert_sorted(r, rest);
        assert(out =~= seq![s[0]] + inner);
        assert(s =~= seq![s[0]] + rest);
        lemma_rws_concat(seq![s[0]], inner, v);
        lemma_rws_concat(seq![s[0]], rest, v);
        if r.start == v {
            assert(ranges_with_start(seq![s[0]], v) + ranges_with_start(rest, v).push(r) =~= (
            ranges_with_start(seq![s[0]], v) + ranges_with_start(rest, v)).push(r));
        }
    } else {
        assert(out =~= seq![r] + s);
        lemma_rws_concat(seq![r], s, v);
        lemma_rws_single(r, v);
        if r.start == v {
            assert forall|k: int| 0 <= k < s.len() implies (#[trigger] s[k]).start != v by {
                if k > 0 {
                    assert(s[0].start <= s[k].start);
                }
            }
            lemma_rws_none(s, v);
            assert(ranges_with_start(out, v) =~= ranges_with_start(s, v).push(r));
        } else {
            assert(ranges_with_start(out, v) =~= ranges_with_start(s, v));
        }
    }
}

/// The sort is stable: for every start line, the ranges carrying it come
/// out in exactly the order they went in.
pub proof fn lemma_sort_stable(s: Seq<LineRange>, v: usize)
    ensures
        ranges_with_start(sort_by_start(s), v) == ranges_with_start(s, v),
    decreases s.len(),
{
    if s.len() > 0 {
        let prev = s.drop_last();
        lemma_sort_stable(prev, v);
        lemma_sort_sorted(prev);
        lemma_insert_stable(s.last(), sort_by_start(prev), v);
    }
}

/// Every element of the sorted sequence is an element of the input.
pub proof fn lemma_sort_elts(s: Seq<LineRange>)
    ensures
        forall|j: int|
            0 <= j < sort_by_start(s).len() ==> s.contains(#[trigger] sort_by_start(s)[j]),
    decreases s.len(),
{
    if s.len() > 0 {
        let prev = s.drop_last();
        let sorted_prev = sort_by_start(prev);
        lemma_sort_elts(prev);
        lemma_insert_elts(s.last(), sorted_prev);
        assert forall|j: int| 0 <= j < sort_by_start(s).len() implies s.contains(
            #[trigger] sort_by_start(s)[j],
        ) by {
            let x = sort_by_start(s)[j];
            if x == s.last() {
                assert(s[s.len() - 1] == x);
            } else {
                assert(sorted_prev.contains(x));
                let w = choose|w: int| 0 <= w < sorted_prev.len() && sorted_prev[w] == x;
                let v = choose|v: int| 0 <= v < prev.len() && prev[v] == x;
                assert(s[v] == x);
            }
        }
    }
}

/// How many of the line indices below `n` some range of `m` covers.
pub open spec fn count_excluded(m: Seq<LineRange>, n: int) -> int
    decreases n,
{
    if n <= 0 {
        0
    } else {
        count_excluded(m, n - 1) + if line_excluded(m, n - 1) {
            1int
        } else {
            0int
        }
    }
}

/// How many of the line indices below `n` the single range `r` covers.
pub open spec fn count_covers(r: LineRange, n: int) -> int
    decreases n,
{
    if n <= 0 {
        0
    } else {
        count_covers(r, n - 1) + if covers(r, n - 1) {
            1int
        } else {
            0int
        }
    }
}

/// How many lines of an `n`-line file one range selects.
pub open spec fn seg_len(r: LineRange, n: int) -> int {
    let lo = r.start as int - 1;
    let hi = if r.end as int <= n {
        r.end as int
    } else {
        n
    };
    if 0 <= lo && lo < n && lo <= hi {
        hi - lo
    } else {
        0
    }
}

/// How many lines of an `n`-line file the ranges select in total,
/// counting shared lines once per range.
pub open spec fn total_seg_len(m: Seq<LineRange>, n: int) -> int
    decreases m.len(),
{
    if m.len() == 0 {
        0
    } else {
        total_seg_len(m.drop_last(), n) + seg_len(m.last(), n)
    }
}

/// No two distinct ranges of `m` cover a common line.
pub open spec fn pairwise_disjoint(m: Seq<LineRange>) -> bool {
    forall|k1: int, k2: int, i: int|
        #![trigger covers(m[k1], i), covers(m[k2], i)]
        0 <= k1 < k2 < m.len() ==> !(covers(m[k1], i) && covers(m[k2], i))
}

/// The selected lines number exactly the ranges' total segment length.
pub proof fn lemma_selected_len(m: Seq<LineRange>, lines: Seq<Seq<u8>>)
    ensures
        selected_lines(m, lines).len() == total_seg_len(m, lines.len() as int),
    decreases m.len(),
{
    if m.len() > 0 {
        lemma_selected_len(m.drop_last(), lines);
    }
}

/// The kept lines number the lines minus the excluded indices.
pub proof fn lemma_kept_len(m: Seq<LineRange>, lines: Seq<Seq<u8>>)
    ensures
        kept_lines(m, lines).len() == lines.len() - count_excluded(m, lines.len() as int),
    decreases lines.len(),
{
    if lines.len() > 0 {
        lemma_kept_len(m, lines.drop_last());
    }
}

/// Inserting a range adds its segment length to the total.
pub proof fn lemma_insert_total_seg_len(r: LineRange, s: Seq<LineRange>, n: int)
    ensures
        total_seg_len(insert_sorted(r, s), n) == seg_len(r, n) + total_seg_len(s, n),
    decreases s.len(),
{
    let out = insert_sorted(r, s);
    if s.len() == 0 {
        assert(out =~= seq![r]);
        assert(out.drop_last() =~= Seq::<LineRange>::empty());
        assert(out.last() == r);
        assert(total_seg_len(out, n) == total_seg_len(out.drop_last(), n) + seg_len(r, n));
        assert(total_seg_len(out.drop_last(), n) == 0);
        assert(total_seg_len(s, n) == 0);
    } else if s[0].start <= r.start {
        let rest = s.drop_first();
        lemma_insert_total_seg_len(r, rest, n);
        let inner = insert_sorted(r, rest);
        assert(out =~= seq![s[0]] + inner);
        assert(inner.len() > 0) by {
            lemma_insert_len(r, rest);
        }
        assert(out.drop_last() =~= seq![s[0]] + inner.drop_last());
        lemma_total_seg_len_cons(s[0], inner.drop_last(), n);
        lemma_total_seg_len_cons(s[0], rest, n);
        assert(s =~= seq![s[0]] + rest);
        assert(out.last() == inner.last());
        assert(total_seg_len(out, n) == total_seg_len(out.drop_last(), n) + seg_len(
            out.last(),
            n,
        ));
        assert(total_seg_len(inner, n) == total_seg_len(inner.drop_last(), n) + seg_len(
            inner.last(),
            n,
        ));
        assert(total_seg_len(s, n) == seg_len(s[0], n) + total_seg_len(rest, n));
    } else {
        assert(out =~= seq![r] + s);
        lemma_total_seg_len_prepend(r, s, n);
    }
}

/// Prepending an element adds its segment length.
pub proof fn lemma_total_seg_len_prepend(r: LineRange, s: Seq<LineRange>, n: int)
    ensures
        total_seg_len(seq![r] + s, n) == seg_len(r, n) + total_seg_len(s, n),
    decreases s.len(),
{
    let out = seq![r] + s;
    if s.len() == 0 {
        assert(out =~= seq![r]);
        assert(out.drop_last() =~= Seq::<LineRange>::empty());
        assert(out.last() == r);
        assert(total_seg_len(out, n) == total_seg_len(out.drop_last(), n) + seg_len(r, n));
        assert(total_seg_len(out.drop_last(), n) == 0);
        assert(total_seg_len(s, n) == 0);
    } else {
        assert(out.drop_last() =~= seq![r] + s.drop_last());
        lemma_total_seg_len_prepend(r, s.drop_last(), n);
        assert(out.last() == s.last());
        assert(total_seg_len(out, n) == total_seg_len(out.drop_last(), n) + seg_len(
            s.last(),
            n,
        ));
        assert(total_seg_len(s, n) == total_seg_len(s.drop_last(), n) + seg_len(s.last(), n));
    }
}

/// Writing the head explicitly: the total over `[x] + s` in terms of `s`.
pub proof fn lemma_total_seg_len_cons(x: LineRange, s: Seq<LineRange>, n: int)
    ensures
        total_seg_len(seq![x] + s, n) == seg_len(x, n) + total_seg_len(s, n),
{
    lemma_total_seg_len_prepend(x, s, n);
}

/// A stable sort does not change the total segment length.
pub proof fn lemma_sort_total_seg_len(s: Seq<LineRange>, n: int)
    ensures
        total_seg_len(sort_by_start(s), n) == total_seg_len(s, n),
    decreases s.len(),
{
    if s.len() > 0 {
        lemma_sort_total_seg_len(s.drop_last(), n);
        lemma_insert_total_seg_len(s.last(), sort_by_start(s.drop_last()), n);
    }
}

/// A single well-formed range covers exactly its clamped segment length.
pub proof fn lemma_count_covers(r: LineRange, n: int)
    requires
        r.wf(),
        n >= 0,
    ensures
        count_covers(r, n) == seg_len(r, n),
    decreases n,
{
    if n > 0 {
        lemma_count_covers(r, n - 1);
    }
}

/// When the last range shares no line with the others, the excluded
/// count splits into the two parts' counts.
pub proof fn lemma_count_last_split(m: Seq<LineRange>, n: int)
    requires
        m.len() > 0,
        forall|i: int| !(line_excluded(m.drop_last(), i) && covers(m.last(), i)),
    ensures
        count_excluded(m, n) == count_excluded(m.drop_last(), n) + count_covers(m.last(), n),
    decreases n,
{
    let t = m.drop_last();
    let r = m.last();
    if n > 0 {
        lemma_count_last_split(m, n - 1);
        let i = n - 1;
        assert(line_excluded(m, i) <==> (line_excluded(t, i) || covers(r, i))) by {
            if line_excluded(m, i) {
                let k = choose|k: int| 0 <= k < m.len() && covers(m[k], i);
                if k < t.len() {
                    assert(t[k] == m[k]);
                    assert(line_excluded(t, i));
                }
            }
            if line_excluded(t, i) {
                let k = choose|k: int| 0 <= k < t.len() && covers(t[k], i);
                assert(m[k] == t[k]);
                assert(line_excluded(m, i));
            }
            if covers(r, i) {
                assert(covers(m[m.len() - 1], i));
                assert(line_excluded(m, i));
            }
        }
    }
}

/// With pairwise non-overlapping ranges, the excluded indices number
/// exactly the ranges' total segment length.
pub proof fn lemma_count_excluded_sum(m: Seq<LineRange>, n: int)
    requires
        forall|j: int| 0 <= j < m.len() ==> (#[trigger] m[j]).wf(),
        pairwise_disjoint(m),
        n >= 0,
    ensures
        count_excluded(m, n) == total_seg_len(m, n),
    decreases m.len(),
{
    if m.len() == 0 {
        lemma_count_excluded_empty(m, n);
    } else {
        let t = m.drop_last();
        let r = m.last();
        assert(forall|j: int| 0 <= j < t.len() ==> (#[trigger] t[j]).wf());
        assert(pairwise_disjoint(t)) by {
            assert forall|k1: int, k2: int, i: int|
                #![trigger covers(t[k1], i), covers(t[k2], i)]
                0 <= k1 < k2 < t.len() implies !(covers(t[k1], i) && covers(t[k2], i)) by {
                assert(t[k1] == m[k1] && t[k2] == m[k2]);
            }
        }
        lemma_count_excluded_sum(t, n);
        assert forall|i: int| !(line_excluded(t, i) && covers(r, i)) by {
            if line_excluded(t, i) && covers(r, i) {
                let k = choose|k: int| 0 <= k < t.len() && covers(t[k], i);
                assert(m[k] == t[k]);
                assert(covers(m[k], i) && covers(m[m.len() - 1], i));
            }
        }
        lemma_count_last_split(m, n);
        lemma_count_covers(r, n);
    }
}

/// No range, nothing excluded.
pub proof fn lemma_count_excluded_empty(m: Seq<LineRange>, n: int)
    requires
        m.len() == 0,
    ensures
        count_excluded(m, n) == 0,
    decreases n,
{
    if n > 0 {
        lemma_count_excluded_empty(m, n - 1);
        assert(!line_excluded(m, n - 1));
    }
}

/// With pairwise non-overlapping matching ranges, the selected lines and
/// the kept lines partition the original lines exactly: their counts add
/// up to the line count, and a line index is selected precisely when it
/// is not kept.
pub proof fn lemma_select_complement_partition(
    content: Seq<u8>,
    rs: Seq<LineRange>,
    path: Seq<char>,
)
    requires
        forall|i: int| 0 <= i < rs.len() ==> (#[trigger] rs[i]).wf(),
        pairwise_disjoint(matching_ranges(rs, path)),
    ensures
        selected_lines(sort_by_start(matching_ranges(rs, path)), spec_lines(content)).len()
            + kept_lines(matching_ranges(rs, path), spec_lines(content)).len() == spec_lines(
            content,
        ).len(),
        forall|i: int|
            0 <= i < spec_lines(content).len() ==> (#[trigger] line_excluded(
                matching_ranges(rs, path),
                i,
            ) <==> !kept_index(matching_ranges(rs, path), i)),
{
    let m = matching_ranges(rs, path);
    let sorted = sort_by_start(m);
    let lines = spec_lines(content);
    let n = lines.len() as int;
    lemma_matching_wf(rs, path);
    lemma_selected_len(sorted, lines);
    lemma_sort_total_seg_len(m, n);
    lemma_count_excluded_sum(m, n);
    lemma_kept_len(m, lines);
}

/// A line index the complement keeps: one no matching range covers.
pub open spec fn kept_index(m: Seq<LineRange>, i: int) -> bool {
    !line_excluded(m, i)
}

/// A matching range that spans every line of the file leaves the
/// complement empty.
pub proof fn lemma_complement_full_cover(
    content: Seq<u8>,
    rs: Seq<LineRange>,
    path: Seq<char>,
    k: int,
)
    requires
        0 <= k < matching_ranges(rs, path).len(),
        matching_ranges(rs, path)[k].start == 1,
        matching_ranges(rs, path)[k].end >= spec_lines(content).len(),
    ensures
        spec_complement(content, rs, path) == Seq::<u8>::empty(),
{
    let m = matching_ranges(rs, path);
    let lines = spec_lines(content);
    assert forall|i: int| 0 <= i < lines.len() implies line_excluded(m, i) by {
        assert(covers(m[k], i));
    }
    lemma_kept_all_excluded(m, lines);
    assert(kept_lines(m, lines) =~= Seq::<Seq<u8>>::empty());
}

/// When every line is excluded, nothing is kept.
pub proof fn lemma_kept_all_excluded(m: Seq<LineRange>, lines: Seq<Seq<u8>>)
    requires
        forall|i: int| 0 <= i < lines.len() ==> line_excluded(m, i),
    ensures
        kept_lines(m, lines).len() == 0,
    decreases lines.len(),
{
    if lines.len() > 0 {
        lemma_kept_all_excluded(m, lines.drop_last());
    }
}

/// Relies on itertools' `sorted_by_key`: it collects the iterator into a
/// vector and sorts it with the standard library's stable slice sort, so
/// the result is the stable ascending reordering of the input by the key,
/// here the start line.
#[verifier::external_body]
fn sorted_by_start_exec(rs: Vec<LineRange>) -> (r: Vec<LineRange>)
    ensures
        r@ == sort_by_start(rs@),
{
    rs.into_iter().sorted_by_key(|lr| lr.start).collect()
}

/// The ranges of `ranges` whose path equals `file_path`, in order.
fn filter_matching(ranges: &[LineRange], file_path: &str) -> (r: Vec<LineRange>)
    ensures
        r@ == matching_ranges(ranges@, file_path@),
{
    let path_string = file_path.to_owned();
    let mut r: Vec<LineRange> = Vec::new();
    let mut i: usize = 0;
    while i < ranges.len()
        invariant
            i <= ranges@.len(),
            path_string@ == file_path@,
            r@ == matching_ranges(ranges@.subrange(0, i as int), file_path@),
        decreases ranges@.len() - i,
    {
        let rk = vstd::slice::slice_index_get(ranges, i);
        proof {
            assert(ranges@.subrange(0, i + 1).drop_last() =~= ranges@.subrange(0, i as int));
            assert(ranges@.subrange(0, i + 1).last() == ranges@[i as int]);
        }
        if rk.path == path_string {
            r.push(rk.clone());
        }
        i = i + 1;
    }
    proof {
        assert(ranges@.subrange(0, ranges@.len() as int) =~= ranges@);
    }
    r
}

/// Returns the lines of `content` selected by the ranges that match
/// `file_path`, joined with line feeds; an empty byte vector when no
/// range matches. Slices are clamped to the file's length and emitted in
/// ascending order of start line; overlapping ranges emit shared lines
/// once per range.
pub fn extract_lines_from_content(content: &[u8], ranges: &[LineRange], file_path: &str) -> (r:
    Vec<u8>)
    requires
        forall|i: int| 0 <= i < ranges@.len() ==> (#[trigger] ranges@[i]).wf(),
    ensures
        r@ == spec_select(content@, ranges@, file_path@),
{
    let m0 = filter_matching(ranges, file_path);
    proof {
        lemma_sort_len(m0@);
    }
    if m0.len() == 0 {
        let r: Vec<u8> = Vec::new();
        return r;
    }
    let m = sorted_by_start_exec(m0);
    proof {
        lemma_matching_wf(ranges@, file_path@);
        lemma_sort_elts(matching_ranges(ranges@, file_path@));
        assert forall|k: int| 0 <= k < m@.len() implies (#[trigger] m@[k]).wf() by {
            let mm = matching_ranges(ranges@, file_path@);
            assert(mm.contains(m@[k]));
            let w = choose|w: int| 0 <= w < mm.len() && mm[w] == m@[k];
        }
    }
    let lines = split_lines(content);
    let ghost linesd = lines.deep_view();
    let n = lines.len();
    proof {
        assert(linesd.len() == lines@.len());
    }
    let mut out: Vec<Vec<u8>> = Vec::new();
    let mut k: usize = 0;
    proof {
        assert(out.deep_view() =~= selected_lines(m@.subrange(0, 0), linesd));
    }
    while k < m.len()
        invariant
            k <= m@.len(),
            forall|j: int| 0 <= j < m@.len() ==> (#[trigger] m@[j]).wf(),
            n == lines@.len(),
            linesd == lines.deep_view(),
            linesd.len() == n,
            out.deep_view() == selected_lines(m@.subrange(0, k as int), linesd),
        decreases m@.len() - k,
    {
        let rk = &m[k];
        let lo = rk.start - 1;
        let hi = if rk.end <= n {
            rk.end
        } else {
            n
        };
        proof {
            assert(m@.subrange(0, k + 1).drop_last() =~= m@.subrange(0, k as int));
            assert(m@.subrange(0, k + 1).last() == m@[k as int]);
        }
        if lo < n {
            assert(lo < hi <= n);
            let mut j = lo;
            let ghost base = out.deep_view();
            proof {
                assert(base + linesd.subrange(lo as int, lo as int) =~= base);
            }
            while j < hi
                invariant
                    lo <= j <= hi <= n,
                    n == lines@.len(),
                    linesd == lines.deep_view(),
                    linesd.len() == n,
                    out.deep_view() == base + linesd.subrange(lo as int, j as int),
                decreases hi - j,
            {
                let line = copy_bytes(&lines[j]);
                let ghost prev = out@;
                let ghost prevd = out.deep_view();
                proof {
                    assert forall|w: int|
                        0 <= w < prev.len() implies prevd[w] == #[trigger] prev[w].deep_view() by {}
                }
                out.push(line);
                proof {
                    lemma_deep_view_push(&out, prev, prevd);
                    lemma_deep_view_index(&lines, j as int);
                    assert(out.deep_view() == prevd.push(linesd[j as int]));
                    assert(base + linesd.subrange(lo as int, j + 1) =~= prevd.push(
                        linesd[j as int],
                    ));
                }
                j = j + 1;
            }
            proof {
                assert(clamped_segment(m@[k as int], linesd) == linesd.subrange(
                    lo as int,
                    hi as int,
                ));
                assert(out.deep_view() =~= selected_lines(m@.subrange(0, k + 1), linesd));
            }
        } else {
            proof {
                assert(clamped_segment(m@[k as int], linesd) =~= Seq::<Seq<u8>>::empty());
                assert(out.deep_view() =~= selected_lines(m@.subrange(0, k + 1), linesd));
            }
        }
        k = k + 1;
    }
    proof {
        assert(m@.subrange(0, m@.len() as int) =~= m@);
    }
    join_lines_exec(&out)
}

/// Whether any range of `m` covers the 0-indexed line `i`.
fn is_excluded(m: &Vec<LineRange>, i: usize) -> (b: bool)
    requires
        i < usize::MAX,
    ensures
        b == line_excluded(m@, i as int),
{
    let mut k: usize = 0;
    while k < m.len()
        invariant
            k <= m@.len(),
            i < usize::MAX,
            forall|j: int| 0 <= j < k ==> !covers(m@[j], i as int),
        decreases m@.len() - k,
    {
        let rk = &m[k];
        if rk.start <= i + 1 && i < rk.end {
            assert(covers(m@[k as int], i as int));
            return true;
        }
        k = k + 1;
    }
    false
}

/// Returns every line of `content` not covered by a matching range,
/// in original order, joined with line feeds; the original bytes,
/// unchanged, when no range matches `file_path`. Overlapping ranges
/// exclude a line only once: exclusion is a set-membership test.
pub fn extract_complement_lines(content: &[u8], ranges: &[LineRange], file_path: &str) -> (r: Vec<
    u8,
>)
    requires
        forall|i: int| 0 <= i < ranges@.len() ==> (#[trigger] ranges@[i]).wf(),
    ensures
        r@ == spec_complement(content@, ranges@, file_path@),
        matching_ranges(ranges@, file_path@).len() == 0 ==> r@ == content@,
{
    let m0 = filter_matching(ranges, file_path);
    if m0.len() == 0 {
        return vstd::slice::slice_to_vec(content);
    }
    let lines = split_lines(content);
    let ghost linesd = lines.deep_view();
    let n = lines.len();
    proof {
        assert(linesd.len() == lines@.len());
    }
    let mut out: Vec<Vec<u8>> = Vec::new();
    let mut i: usize = 0;
    proof {
        assert(out.deep_view() =~= kept_lines(m0@, linesd.subrange(0, 0)));
    }
    while i < n
        invariant
            i <= n,
            n == lines@.len(),
            linesd == lines.deep_view(),
            linesd.len() == n,
            m0@ == matching_ranges(ranges@, file_path@),
            out.deep_view() == kept_lines(m0@, linesd.subrange(0, i as int)),
        decreases n - i,
    {
        proof {
            assert(linesd.subrange(0, i + 1).drop_last() =~= linesd.subrange(0, i as int));
            assert(linesd.subrange(0, i + 1).last() == linesd[i as int]);
        }
        if !is_excluded(&m0, i) {
            let line = copy_bytes(&lines[i]);
            let ghost prev = out@;
            let ghost prevd = out.deep_view();
            proof {
                assert forall|w: int|
                    0 <= w < prev.len() implies prevd[w] == #[trigger] prev[w].deep_view() by {}
            }
            out.push(line);
            proof {
                lemma_deep_view_push(&out, prev, prevd);
                lemma_deep_view_index(&lines, i as int);
                assert(out.deep_view() == prevd.push(linesd[i as int]));
            }
        }
        i = i + 1;
    }
    proof {
        assert(linesd.subrange(0, n as int) =~= linesd);
    }
    join_lines_exec(&out)
}

} // verus!

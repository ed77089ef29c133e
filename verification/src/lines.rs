//! Splitting file content into lines and joining lines back together.
//!
//! Content is treated as text: a line ends at a line feed, and a carriage
//! return immediately before a line feed belongs to the line ending, not to
//! the line. The final line needs no ending; a lone trailing carriage
//! return on the final line is kept. Joining always uses a single line
//! feed, which is the one deliberate normalization of the partitioner.

use vstd::prelude::*;

verus! {

/// The line-feed byte, `\n`.
pub const LF: u8 = 10;

/// The carriage-return byte, `\r`.
pub const CR: u8 = 13;

/// Index of the first line feed in `s`, or `s.len()` if there is none.
pub open spec fn find_lf(s: Seq<u8>) -> nat
    decreases s.len(),
{
    if s.len() == 0 {
        0
    } else if s[0] == LF {
        0
    } else {
        1 + find_lf(s.drop_first())
    }
}

/// A line with a trailing carriage return removed, if it has one.
pub open spec fn strip_cr(l: Seq<u8>) -> Seq<u8> {
    if l.len() > 0 && l[l.len() - 1] == CR {
        l.drop_last()
    } else {
        l
    }
}

/// The lines of `s`: split at each line feed, strip the carriage return
/// of a `\r\n` ending, keep a final unterminated line as it stands, and
/// drop nothing else. An empty input has no lines.
pub open spec fn spec_lines(s: Seq<u8>) -> Seq<Seq<u8>>
    decreases s.len(),
{
    if s.len() == 0 {
        Seq::empty()
    } else {
        let i = find_lf(s) as int;
        if i >= s.len() {
            seq![s]
        } else {
            seq![strip_cr(s.subrange(0, i))] + spec_lines(s.subrange(i + 1, s.len() as int))
        }
    }
}

/// Lines joined with a single line feed between them, and none at the end.
pub open spec fn join_lines(ls: Seq<Seq<u8>>) -> Seq<u8>
    decreases ls.len(),
{
    if ls.len() == 0 {
        Seq::empty()
    } else if ls.len() == 1 {
        ls[0]
    } else {
        ls[0] + seq![LF] + join_lines(ls.drop_first())
    }
}

/// `find_lf` returns exactly the position of the first line feed.
pub proof fn lemma_find_lf_at(s: Seq<u8>, j: int)
    requires
        0 <= j < s.len(),
        s[j] == LF,
        forall|k: int| 0 <= k < j ==> s[k] != LF,
    ensures
        find_lf(s) == j,
    decreases s.len(),
{
    if j > 0 {
        let t = s.drop_first();
        assert forall|k: int| 0 <= k < j - 1 implies t[k] != LF by {
            assert(t[k] == s[k + 1]);
        }
        lemma_find_lf_at(t, j - 1);
    }
}

/// When `s` holds no line feed, `find_lf` runs off the end.
pub proof fn lemma_find_lf_none(s: Seq<u8>)
    requires
        forall|k: int| 0 <= k < s.len() ==> s[k] != LF,
    ensures
        find_lf(s) == s.len(),
    decreases s.len(),
{
    if s.len() > 0 {
        let t = s.drop_first();
        assert forall|k: int| 0 <= k < t.len() implies t[k] != LF by {
            assert(t[k] == s[k + 1]);
        }
        lemma_find_lf_none(t);
    }
}

/// Appending one more line to a joined sequence appends a separator and
/// the line, except on the very first line.
pub proof fn lemma_join_push(ls: Seq<Seq<u8>>, x: Seq<u8>)
    ensures
        join_lines(ls.push(x)) == if ls.len() == 0 {
            x
        } else {
            join_lines(ls) + seq![LF] + x
        },
    decreases ls.len(),
{
    let p = ls.push(x);
    if ls.len() == 0 {
        assert(p.len() == 1);
        assert(join_lines(p) == p[0]);
        assert(p[0] == x);
    } else {
        lemma_join_push(ls.drop_first(), x);
        assert(p.drop_first() =~= ls.drop_first().push(x));
        if ls.len() == 1 {
            assert(join_lines(p) == p[0] + seq![LF] + join_lines(p.drop_first()));
            assert(join_lines(p.drop_first()) == x);
            assert(p[0] == ls[0]);
            assert(join_lines(ls) == ls[0]);
        } else {
            assert(join_lines(p) == p[0] + seq![LF] + join_lines(p.drop_first()));
            assert(join_lines(ls) == ls[0] + seq![LF] + join_lines(ls.drop_first()));
            assert(p[0] == ls[0]);
            assert(ls[0] + seq![LF] + (join_lines(ls.drop_first()) + seq![LF] + x) =~= join_lines(
                ls,
            ) + seq![LF] + x);
        }
    }
}

/// After a push, the deep view of a vector of byte vectors is the old
/// deep view with the new element's view appended.
pub proof fn lemma_deep_view_push(w: &Vec<Vec<u8>>, prev: Seq<Vec<u8>>, prevd: Seq<Seq<u8>>)
    requires
        w@.len() == prev.len() + 1,
        forall|k: int| 0 <= k < prev.len() ==> w@[k] == prev[k],
        prevd.len() == prev.len(),
        forall|k: int| 0 <= k < prev.len() ==> prevd[k] == #[trigger] prev[k].deep_view(),
    ensures
        w.deep_view() == prevd.push(w@[prev.len() as int]@),
{
    let x = w@[prev.len() as int]@;
    assert(w.deep_view() =~= prevd.push(x)) by {
        assert forall|k: int| 0 <= k < w@.len() implies w.deep_view()[k] == prevd.push(x)[k] by {
            assert(w.deep_view()[k] == w@[k].deep_view());
            if k < prev.len() {
                assert(w@[k] == prev[k]);
            } else {
                assert(w@[k].deep_view() =~= w@[k]@);
            }
        }
    }
}

/// The deep view of a vector of byte vectors indexes to the views of its
/// elements.
pub proof fn lemma_deep_view_index(w: &Vec<Vec<u8>>, k: int)
    requires
        0 <= k < w@.len(),
    ensures
        w.deep_view()[k] == w@[k]@,
        w.deep_view().len() == w@.len(),
{
    assert(w.deep_view()[k] == w@[k].deep_view());
    assert(w@[k].deep_view() =~= w@[k]@);
}

/// Copies a byte vector.
pub fn copy_bytes(v: &Vec<u8>) -> (r: Vec<u8>)
    ensures
        r@ == v@,
{
    let mut r: Vec<u8> = Vec::new();
    let mut i: usize = 0;
    while i < v.len()
        invariant
            i <= v.len(),
            r@ == v@.subrange(0, i as int),
        decreases v.len() - i,
    {
        r.push(v[i]);
        assert(r@ =~= v@.subrange(0, i + 1));
        i = i + 1;
    }
    assert(r@ =~= v@);
    r
}

/// Splits content into its lines, as `spec_lines` describes them.
pub fn split_lines(content: &[u8]) -> (r: Vec<Vec<u8>>)
    ensures
        r.deep_view() == spec_lines(content@),
{
    let n = content.len();
    let mut r: Vec<Vec<u8>> = Vec::new();
    let mut cur: Vec<u8> = Vec::new();
    let mut pos: usize = 0;
    let ghost whole = content@;
    proof {
        assert(whole.subrange(0, n as int) =~= whole);
        assert(r.deep_view() =~= Seq::<Seq<u8>>::empty());
        assert(Seq::<Seq<u8>>::empty() + spec_lines(whole) =~= spec_lines(whole));
    }
    while pos < n
        invariant
            n == content@.len(),
            whole == content@,
            pos <= n,
            cur@.len() <= pos,
            cur@ == whole.subrange(pos - cur@.len(), pos as int),
            forall|k: int| 0 <= k < cur@.len() ==> cur@[k] != LF,
            spec_lines(whole) == r.deep_view() + spec_lines(
                whole.subrange(pos - cur@.len(), n as int),
            ),
        decreases n - pos,
    {
        let b = content[pos];
        if b == LF {
            let ghost curv = cur@;
            let ghost suffix = whole.subrange(pos - curv.len(), n as int);
            let ghost old_r = r.deep_view();
            proof {
                assert(suffix.len() > 0);
                assert(suffix[curv.len() as int] == whole[pos as int]);
                assert forall|k: int| 0 <= k < curv.len() implies suffix[k] != LF by {
                    assert(suffix[k] == curv[k]);
                }
                lemma_find_lf_at(suffix, curv.len() as int);
                assert(suffix.subrange(0, curv.len() as int) =~= curv);
                assert(suffix.subrange(curv.len() as int + 1, suffix.len() as int) =~= whole.subrange(
                    pos + 1,
                    n as int,
                ));
                assert(spec_lines(suffix) == seq![strip_cr(curv)] + spec_lines(
                    whole.subrange(pos + 1, n as int),
                ));
            }
            let mut line = cur;
            if line.len() > 0 && line[line.len() - 1] == CR {
                line.pop();
            }
            assert(line@ == strip_cr(curv));
            let ghost prev = r@;
            proof {
                assert forall|k: int| 0 <= k < prev.len() implies old_r[k] == #[trigger] prev[k].deep_view() by {}
            }
            r.push(line);
            cur = Vec::new();
            proof {
                lemma_deep_view_push(&r, prev, old_r);
                assert(r.deep_view() == old_r.push(strip_cr(curv)));
                assert(old_r + spec_lines(suffix) =~= r.deep_view() + spec_lines(
                    whole.subrange(pos + 1, n as int),
                ));
                assert(cur@ =~= whole.subrange(pos + 1 - cur@.len(), pos + 1));
            }
        } else {
            cur.push(b);
            assert(cur@ =~= whole.subrange(pos + 1 - cur@.len(), pos + 1));
        }
        pos = pos + 1;
    }
    let ghost tail = whole.subrange(pos - cur@.len(), n as int);
    proof {
        assert(tail =~= cur@);
        if cur@.len() == 0 {
            assert(spec_lines(tail) =~= Seq::<Seq<u8>>::empty());
            assert(r.deep_view() + spec_lines(tail) =~= r.deep_view());
        } else {
            lemma_find_lf_none(tail);
            assert(spec_lines(tail) =~= seq![cur@]);
        }
    }
    let ghost old_r = r.deep_view();
    let ghost prev = r@;
    let ghost curv = cur@;
    if cur.len() > 0 {
        proof {
            assert forall|k: int| 0 <= k < prev.len() implies old_r[k] == #[trigger] prev[k].deep_view() by {}
        }
        r.push(cur);
        proof {
            lemma_deep_view_push(&r, prev, old_r);
            assert(r.deep_view() == old_r.push(curv));
            assert(old_r + seq![curv] =~= r.deep_view());
        }
    }
    proof {
        assert(r.deep_view() =~= spec_lines(content@));
    }
    r
}

/// Joins lines with a single line feed, as `join_lines` describes.
pub fn join_lines_exec(ls: &Vec<Vec<u8>>) -> (r: Vec<u8>)
    ensures
        r@ == join_lines(ls.deep_view()),
{
    let mut r: Vec<u8> = Vec::new();
    let mut i: usize = 0;
    while i < ls.len()
        invariant
            i <= ls.len(),
            ls.deep_view().len() == ls@.len(),
            r@ == join_lines(ls.deep_view().subrange(0, i as int)),
        decreases ls.len() - i,
    {
        proof {
            lemma_join_push(ls.deep_view().subrange(0, i as int), ls.deep_view()[i as int]);
            assert(ls.deep_view().subrange(0, i as int).push(ls.deep_view()[i as int])
                =~= ls.deep_view().subrange(0, i + 1));
        }
        if i > 0 {
            r.push(LF);
        }
        let line = &ls[i];
        let mut j: usize = 0;
        let ghost before = r@;
        while j < line.len()
            invariant
                j <= line@.len(),
                r@ == before + line@.subrange(0, j as int),
            decreases line@.len() - j,
        {
            r.push(line[j]);
            assert(r@ =~= before + line@.subrange(0, j + 1));
            j = j + 1;
        }
        proof {
            assert(line@.subrange(0, line@.len() as int) =~= line@);
            lemma_deep_view_index(ls, i as int);
        }
        i = i + 1;
    }
    proof {
        assert(ls.deep_view().subrange(0, ls.deep_view().len() as int) =~= ls.deep_view());
    }
    r
}

} // verus!

//! Line-range specifications of the form `path:start-end`.
//!
//! The input splits at its last colon, so paths containing colons (drive
//! letters, for instance) are supported. The part after that colon must
//! be exactly two hyphen-separated line numbers, 1-indexed, inclusive and
//! not inverted.

use vstd::prelude::*;
use vstd::string::*;

verus! {

/// A validated, 1-indexed, inclusive range of lines within one file.
#[derive(Debug)]
pub struct LineRange {
    pub path: String,
    pub start: usize,
    pub end: usize,
}

impl Clone for LineRange {
    fn clone(&self) -> (r: Self)
        ensures
            r == *self,
    {
        LineRange { path: self.path.clone(), start: self.start, end: self.end }
    }
}

/// Why a `path:start-end` specification was rejected.
#[derive(PartialEq, Eq, Structural, Clone, Copy, Debug)]
pub enum ParseError {
    /// No colon separator: the input cannot be split into a path and a range.
    MissingColon,
    /// The part after the last colon is not two hyphen-separated tokens.
    BadRangePart,
    /// The start token is not a non-negative integer that fits in `usize`.
    BadStartNumber,
    /// The end token is not a non-negative integer that fits in `usize`.
    BadEndNumber,
    /// A line number of zero was given; line numbers are 1-indexed.
    ZeroLineNumber,
    /// The start line is greater than the end line.
    InvertedRange,
}

/// Index of the last occurrence of `c` in `s`, or `-1` if there is none.
pub open spec fn rfind(s: Seq<char>, c: char) -> int
    decreases s.len(),
{
    if s.len() == 0 {
        -1
    } else if s.last() == c {
        s.len() - 1
    } else {
        rfind(s.drop_last(), c)
    }
}

/// How many times `c` occurs in `s`.
pub open spec fn count_char(s: Seq<char>, c: char) -> int
    decreases s.len(),
{
    if s.len() == 0 {
        0
    } else {
        count_char(s.drop_last(), c) + if s.last() == c {
            1int
        } else {
            0int
        }
    }
}

/// An ASCII decimal digit.
pub open spec fn is_digit(c: char) -> bool {
    '0' <= c <= '9'
}

/// The value of one digit.
pub open spec fn digit_val(c: char) -> int {
    c as int - 48
}

/// Every character is a digit; an empty sequence passes vacuously.
pub open spec fn digits_only(s: Seq<char>) -> bool {
    forall|k: int| 0 <= k < s.len() ==> is_digit(#[trigger] s[k])
}

/// A non-empty, all-digit sequence.
pub open spec fn all_digits(s: Seq<char>) -> bool {
    s.len() > 0 && digits_only(s)
}

/// The decimal value of a digit sequence.
pub open spec fn digits_val(s: Seq<char>) -> int
    decreases s.len(),
{
    if s.len() == 0 {
        0
    } else {
        digits_val(s.drop_last()) * 10 + digit_val(s.last())
    }
}

/// The number a token denotes: an optional leading plus sign, then one
/// or more decimal digits; `None` for anything else. The value is exact,
/// unbounded by the machine.
pub open spec fn spec_parse_num(s: Seq<char>) -> Option<int> {
    let t = if s.len() > 0 && s[0] == '+' {
        s.drop_first()
    } else {
        s
    };
    if all_digits(t) {
        Some(digits_val(t))
    } else {
        None
    }
}

/// What `LineRange::parse` accepts and rejects: the exact outcome of
/// parsing `s` as `path:start-end`.
pub open spec fn spec_parse(s: Seq<char>) -> Result<(Seq<char>, int, int), ParseError> {
    let ci = rfind(s, ':');
    if ci < 0 {
        Err(ParseError::MissingColon)
    } else {
        let path = s.subrange(0, ci);
        let rest = s.subrange(ci + 1, s.len() as int);
        if count_char(rest, '-') != 1 {
            Err(ParseError::BadRangePart)
        } else {
            let hi = rfind(rest, '-');
            let st = spec_parse_num(rest.subrange(0, hi));
            let en = spec_parse_num(rest.subrange(hi + 1, rest.len() as int));
            if st is None || st->0 > usize::MAX as int {
                Err(ParseError::BadStartNumber)
            } else if en is None || en->0 > usize::MAX as int {
                Err(ParseError::BadEndNumber)
            } else if st->0 == 0 || en->0 == 0 {
                Err(ParseError::ZeroLineNumber)
            } else if st->0 > en->0 {
                Err(ParseError::InvertedRange)
            } else {
                Ok((path, st->0, en->0))
            }
        }
    }
}

/// The character for one digit value.
pub open spec fn digit_char(d: int) -> char {
    if d == 0 {
        '0'
    } else if d == 1 {
        '1'
    } else if d == 2 {
        '2'
    } else if d == 3 {
        '3'
    } else if d == 4 {
        '4'
    } else if d == 5 {
        '5'
    } else if d == 6 {
        '6'
    } else if d == 7 {
        '7'
    } else if d == 8 {
        '8'
    } else {
        '9'
    }
}

/// The canonical decimal rendering of `n`: no sign, no leading zeros.
pub open spec fn spec_digits(n: int) -> Seq<char>
    decreases n,
{
    if n < 10 {
        seq![digit_char(n)]
    } else {
        spec_digits(n / 10).push(digit_char(n % 10))
    }
}

/// The canonical `path:start-end` rendering of a range.
pub open spec fn spec_display(r: LineRange) -> Seq<char> {
    r.path@ + seq![':'] + spec_digits(r.start as int) + seq!['-'] + spec_digits(r.end as int)
}

/// `rfind` returns exactly the position of the last occurrence.
pub proof fn lemma_rfind_at(s: Seq<char>, c: char, j: int)
    requires
        0 <= j < s.len(),
        s[j] == c,
        forall|k: int| j < k < s.len() ==> s[k] != c,
    ensures
        rfind(s, c) == j,
    decreases s.len(),
{
    if j == s.len() - 1 {
    } else {
        assert(s.last() != c);
        let t = s.drop_last();
        assert(t[j] == c);
        lemma_rfind_at(t, c, j);
    }
}

/// When `c` does not occur, `rfind` reports `-1`.
pub proof fn lemma_rfind_none(s: Seq<char>, c: char)
    requires
        forall|k: int| 0 <= k < s.len() ==> s[k] != c,
    ensures
        rfind(s, c) == -1,
    decreases s.len(),
{
    if s.len() > 0 {
        lemma_rfind_none(s.drop_last(), c);
    }
}

/// A digit sequence's value never falls below zero.
pub proof fn lemma_digits_val_nonneg(s: Seq<char>)
    requires
        digits_only(s),
    ensures
        digits_val(s) >= 0,
    decreases s.len(),
{
    if s.len() > 0 {
        lemma_digits_val_nonneg(s.drop_last());
    }
}

/// Extending a digit sequence never shrinks its value.
pub proof fn lemma_digits_val_prefix_le(s: Seq<char>, k: int)
    requires
        digits_only(s),
        0 <= k <= s.len(),
    ensures
        digits_val(s.subrange(0, k)) <= digits_val(s),
    decreases s.len() - k,
{
    if k == s.len() {
        assert(s.subrange(0, k) =~= s);
    } else {
        lemma_digits_val_prefix_le(s, k + 1);
        let p1 = s.subrange(0, k + 1);
        assert(p1.drop_last() =~= s.subrange(0, k));
        lemma_digits_val_nonneg(s.subrange(0, k));
        assert(digits_val(p1) == digits_val(s.subrange(0, k)) * 10 + digit_val(p1.last()));
    }
}

/// A rendered number is one or more digit characters.
pub proof fn lemma_digits_shape(n: int)
    requires
        n >= 0,
    ensures
        spec_digits(n).len() >= 1,
        digits_only(spec_digits(n)),
    decreases n,
{
    if n < 10 {
        assert(is_digit(digit_char(n)));
        assert forall|k: int| 0 <= k < spec_digits(n).len() implies is_digit(
            #[trigger] spec_digits(n)[k],
        ) by {
            assert(spec_digits(n)[k] == digit_char(n));
        }
    } else {
        lemma_digits_shape(n / 10);
        let prev = spec_digits(n / 10);
        assert(is_digit(digit_char(n % 10)));
        assert forall|k: int| 0 <= k < spec_digits(n).len() implies is_digit(
            #[trigger] spec_digits(n)[k],
        ) by {
            if k < prev.len() {
                assert(spec_digits(n)[k] == prev[k]);
            } else {
                assert(spec_digits(n)[k] == digit_char(n % 10));
            }
        }
    }
}

/// Rendering then evaluating a number gives the number back.
pub proof fn lemma_digits_val_round(n: int)
    requires
        n >= 0,
    ensures
        digits_val(spec_digits(n)) == n,
    decreases n,
{
    if n < 10 {
        let s = spec_digits(n);
        assert(s.drop_last() =~= Seq::<char>::empty());
        assert(digits_val(s) == digits_val(s.drop_last()) * 10 + digit_val(s.last()));
        assert(digit_val(digit_char(n)) == n);
    } else {
        lemma_digits_val_round(n / 10);
        let prev = spec_digits(n / 10);
        let s = spec_digits(n);
        assert(s == prev.push(digit_char(n % 10)));
        assert(s.drop_last() =~= prev);
        assert(digits_val(s) == digits_val(prev) * 10 + digit_val(digit_char(n % 10)));
        assert(digit_val(digit_char(n % 10)) == n % 10);
        vstd::arithmetic::div_mod::lemma_fundamental_div_mod(n, 10);
    }
}

/// Counting over a concatenation adds the parts' counts.
pub proof fn lemma_count_concat(a: Seq<char>, b: Seq<char>, c: char)
    ensures
        count_char(a + b, c) == count_char(a, c) + count_char(b, c),
    decreases b.len(),
{
    if b.len() == 0 {
        assert(a + b =~= a);
    } else {
        lemma_count_concat(a, b.drop_last(), c);
        assert((a + b).drop_last() =~= a + b.drop_last());
        assert((a + b).last() == b.last());
        assert(count_char(a + b, c) == count_char((a + b).drop_last(), c) + if (a + b).last()
            == c {
            1int
        } else {
            0int
        });
        assert(count_char(b, c) == count_char(b.drop_last(), c) + if b.last() == c {
            1int
        } else {
            0int
        });
    }
}

/// A sequence without the character counts zero of it.
pub proof fn lemma_count_none(s: Seq<char>, c: char)
    requires
        forall|k: int| 0 <= k < s.len() ==> s[k] != c,
    ensures
        count_char(s, c) == 0,
    decreases s.len(),
{
    if s.len() > 0 {
        lemma_count_none(s.drop_last(), c);
    }
}

/// Parsing the canonical rendering of a well-formed range recovers its
/// path, start and end exactly: display and parse round-trip.
pub proof fn lemma_display_parse_round_trip(r: LineRange)
    requires
        r.wf(),
    ensures
        spec_parse(spec_display(r)) == Ok::<(Seq<char>, int, int), ParseError>(
            (r.path@, r.start as int, r.end as int),
        ),
{
    let d1 = spec_digits(r.start as int);
    let d2 = spec_digits(r.end as int);
    let s = spec_display(r);
    let pl = r.path@.len() as int;
    lemma_digits_shape(r.start as int);
    lemma_digits_shape(r.end as int);
    lemma_digits_val_round(r.start as int);
    lemma_digits_val_round(r.end as int);
    assert(s.len() == pl + 1 + d1.len() + 1 + d2.len());
    assert(s[pl] == ':');
    assert forall|k: int| pl < k < s.len() implies s[k] != ':' by {
        if pl < k <= pl + d1.len() {
            assert(s[k] == d1[k - pl - 1]);
            assert(is_digit(d1[k - pl - 1]));
        } else if k == pl + 1 + d1.len() {
            assert(s[k] == '-');
        } else {
            assert(s[k] == d2[k - pl - d1.len() - 2]);
            assert(is_digit(d2[k - pl - d1.len() - 2]));
        }
    }
    lemma_rfind_at(s, ':', pl);
    assert(s.subrange(0, pl) =~= r.path@);
    let rest = s.subrange(pl + 1, s.len() as int);
    assert(rest =~= d1 + seq!['-'] + d2);
    assert forall|k: int| 0 <= k < d1.len() implies rest[k] != '-' by {
        assert(rest[k] == d1[k]);
        assert(is_digit(d1[k]));
    }
    assert forall|k: int| d1.len() < k < rest.len() implies rest[k] != '-' by {
        assert(rest[k] == d2[k - d1.len() - 1]);
        assert(is_digit(d2[k - d1.len() - 1]));
    }
    assert(count_char(rest, '-') == 1) by {
        lemma_count_concat(d1 + seq!['-'], d2, '-');
        lemma_count_concat(d1, seq!['-'], '-');
        lemma_count_none(d1, '-');
        lemma_count_none(d2, '-');
        assert(seq!['-'].drop_last() =~= Seq::<char>::empty());
        assert(count_char(Seq::<char>::empty(), '-') == 0);
        assert(seq!['-'].last() == '-');
        assert(count_char(seq!['-'], '-') == count_char(seq!['-'].drop_last(), '-') + 1);
        assert(count_char(seq!['-'], '-') == 1);
        assert(rest == (d1 + seq!['-']) + d2);
    }
    assert(rest[d1.len() as int] == '-');
    lemma_rfind_at(rest, '-', d1.len() as int);
    assert(rest.subrange(0, d1.len() as int) =~= d1);
    assert(rest.subrange(d1.len() as int + 1, rest.len() as int) =~= d2);
    assert(spec_parse_num(d1) == Some(r.start as int)) by {
        assert(is_digit(d1[0]));
        assert(d1[0] != '+');
        assert(all_digits(d1));
    }
    assert(spec_parse_num(d2) == Some(r.end as int)) by {
        assert(is_digit(d2[0]));
        assert(d2[0] != '+');
        assert(all_digits(d2));
    }
}

/// The one-character string for a digit value.
fn digit_str(d: usize) -> (r: &'static str)
    requires
        d < 10,
    ensures
        r@ == seq![digit_char(d as int)],
{
    proof {
        reveal_strlit("0");
        reveal_strlit("1");
        reveal_strlit("2");
        reveal_strlit("3");
        reveal_strlit("4");
        reveal_strlit("5");
        reveal_strlit("6");
        reveal_strlit("7");
        reveal_strlit("8");
        reveal_strlit("9");
    }
    let r = match d {
        0 => "0",
        1 => "1",
        2 => "2",
        3 => "3",
        4 => "4",
        5 => "5",
        6 => "6",
        7 => "7",
        8 => "8",
        _ => "9",
    };
    assert(r@ =~= seq![digit_char(d as int)]);
    r
}

/// Appends the decimal rendering of `n` to `out`.
fn push_digits(out: &mut String, n: usize)
    ensures
        final(out)@ == old(out)@ + spec_digits(n as int),
    decreases n,
{
    if n < 10 {
        out.append(digit_str(n));
        assert(out@ =~= old(out)@ + spec_digits(n as int));
    } else {
        push_digits(out, n / 10);
        let ghost mid = out@;
        out.append(digit_str(n % 10));
        proof {
            assert(out@ == mid + seq![digit_char((n % 10) as int)]);
            assert(spec_digits(n as int) == spec_digits(n as int / 10).push(
                digit_char(n as int % 10),
            ));
            assert(out@ =~= old(out)@ + spec_digits(n as int));
        }
    }
}

/// The number a token denotes, where it fits the machine.
fn parse_num(t: &str) -> (r: Option<usize>)
    ensures
        match r {
            Some(v) => spec_parse_num(t@) == Some(v as int),
            None => spec_parse_num(t@) is None || spec_parse_num(t@)->0 > usize::MAX as int,
        },
{
    let n = t.unicode_len();
    let mut off: usize = 0;
    if n > 0 && t.get_char(0) == '+' {
        off = 1;
    }
    let ghost digits = if off == 1 {
        t@.drop_first()
    } else {
        t@
    };
    proof {
        assert(digits =~= t@.subrange(off as int, n as int));
    }
    if off >= n {
        assert(spec_parse_num(t@) is None);
        return None;
    }
    let mut val: usize = 0;
    let mut i: usize = off;
    while i < n
        invariant
            off <= i <= n,
            n == t@.len(),
            off <= 1,
            off == 1 <==> (n > 0 && t@[0] == '+'),
            digits == (if off == 1 {
                t@.drop_first()
            } else {
                t@
            }),
            digits == t@.subrange(off as int, n as int),
            digits_only(t@.subrange(off as int, i as int)),
            val as int == digits_val(t@.subrange(off as int, i as int)),
        decreases n - i,
    {
        let c = t.get_char(i);
        proof {
            assert(t@.subrange(off as int, i + 1).drop_last() =~= t@.subrange(
                off as int,
                i as int,
            ));
            assert(t@.subrange(off as int, i + 1).last() == t@[i as int]);
        }
        if !('0' <= c && c <= '9') {
            proof {
                assert(digits[i - off] == c);
                assert(!is_digit(digits[i - off]));
                assert(!digits_only(digits));
                assert(!all_digits(digits));
                assert(spec_parse_num(t@) is None);
            }
            return None;
        }
        let d = (c as u32 - 48) as usize;
        assert(d as int == digit_val(c));
        if val > (usize::MAX - d) / 10 {
            proof {
                vstd::arithmetic::div_mod::lemma_fundamental_div_mod(
                    (usize::MAX - d) as int,
                    10,
                );
                assert(val * 10 + d > usize::MAX);
                assert(digits_val(t@.subrange(off as int, i + 1)) == val * 10 + d);
                if digits_only(digits) {
                    lemma_digits_val_prefix_le(digits, i + 1 - off);
                    assert(digits.subrange(0, i + 1 - off) =~= t@.subrange(off as int, i + 1));
                    assert(digits_val(digits) > usize::MAX as int);
                    assert(all_digits(digits));
                    assert(spec_parse_num(t@)->0 > usize::MAX as int);
                } else {
                    assert(!all_digits(digits));
                    assert(spec_parse_num(t@) is None);
                }
            }
            return None;
        }
        proof {
            vstd::arithmetic::div_mod::lemma_fundamental_div_mod((usize::MAX - d) as int, 10);
            assert(val * 10 + d <= usize::MAX);
        }
        val = val * 10 + d;
        i = i + 1;
    }
    proof {
        assert(t@.subrange(off as int, n as int) =~= digits);
        assert(all_digits(digits));
        assert(spec_parse_num(t@) == Some(digits_val(digits)));
    }
    Some(val)
}

impl LineRange {
    /// The invariant every validated range satisfies: line numbers are
    /// 1-indexed and the range is not inverted.
    pub open spec fn wf(self) -> bool {
        1 <= self.start <= self.end
    }

    /// Parses a `path:start-end` specification, splitting at the last
    /// colon, and validates the bounds; the outcome is exactly what
    /// `spec_parse` says for this input.
    #[verifier::rlimit(100)]
    pub fn parse(s: &str) -> (r: Result<LineRange, ParseError>)
        ensures
            match r {
                Ok(lr) => lr.wf() && spec_parse(s@) == Ok::<(Seq<char>, int, int), ParseError>(
                    (lr.path@, lr.start as int, lr.end as int),
                ),
                Err(e) => spec_parse(s@) == Err::<(Seq<char>, int, int), ParseError>(e),
            },
    {
        let n = s.unicode_len();
        let mut has_colon = false;
        let mut ci: usize = 0;
        let mut i: usize = 0;
        while i < n
            invariant
                i <= n,
                n == s@.len(),
                !has_colon ==> forall|k: int| 0 <= k < i ==> s@[k] != ':',
                has_colon ==> ci < i && s@[ci as int] == ':' && forall|k: int|
                    ci < k < i ==> s@[k] != ':',
            decreases n - i,
        {
            if s.get_char(i) == ':' {
                has_colon = true;
                ci = i;
            }
            i = i + 1;
        }
        if !has_colon {
            proof {
                lemma_rfind_none(s@, ':');
            }
            return Err(ParseError::MissingColon);
        }
        proof {
            lemma_rfind_at(s@, ':', ci as int);
        }
        let path_str = s.substring_char(0, ci);
        let rest = s.substring_char(ci + 1, n);
        let rn = rest.unicode_len();
        let ghost restv = s@.subrange(ci + 1, n as int);
        let mut dash_count: usize = 0;
        let mut has_dash = false;
        let mut hi: usize = 0;
        let mut j: usize = 0;
        while j < rn
            invariant
                j <= rn,
                rn == restv.len(),
                rest@ == restv,
                dash_count <= j,
                dash_count as int == count_char(restv.subrange(0, j as int), '-'),
                has_dash <==> dash_count > 0,
                has_dash ==> hi < j && restv[hi as int] == '-' && forall|k: int|
                    hi < k < j ==> restv[k] != '-',
                !has_dash ==> forall|k: int| 0 <= k < j ==> restv[k] != '-',
            decreases rn - j,
        {
            proof {
                assert(restv.subrange(0, j + 1).drop_last() =~= restv.subrange(0, j as int));
                assert(restv.subrange(0, j + 1).last() == restv[j as int]);
            }
            if rest.get_char(j) == '-' {
                dash_count = dash_count + 1;
                has_dash = true;
                hi = j;
            }
            j = j + 1;
        }
        proof {
            assert(restv.subrange(0, rn as int) =~= restv);
        }
        if dash_count != 1 {
            return Err(ParseError::BadRangePart);
        }
        proof {
            lemma_rfind_at(restv, '-', hi as int);
        }
        let start_str = rest.substring_char(0, hi);
        let end_str = rest.substring_char(hi + 1, rn);
        proof {
            assert(start_str@ =~= restv.subrange(0, hi as int));
            assert(end_str@ =~= restv.subrange(hi + 1, restv.len() as int));
        }
        let sv = match parse_num(start_str) {
            Some(v) => v,
            None => {
                return Err(ParseError::BadStartNumber);
            },
        };
        let ev = match parse_num(end_str) {
            Some(v) => v,
            None => {
                return Err(ParseError::BadEndNumber);
            },
        };
        if sv == 0 || ev == 0 {
            return Err(ParseError::ZeroLineNumber);
        }
        if sv > ev {
            return Err(ParseError::InvertedRange);
        }
        let path = path_str.to_owned();
        proof {
            assert(path@ =~= s@.subrange(0, ci as int));
        }
        Ok(LineRange { path, start: sv, end: ev })
    }

    /// The canonical `path:start-end` rendering of this range.
    pub fn display(&self) -> (r: String)
        ensures
            r@ == spec_display(*self),
    {
        proof {
            reveal_strlit(":");
            reveal_strlit("-");
        }
        let mut out = self.path.clone();
        out.append(":");
        push_digits(&mut out, self.start);
        out.append("-");
        push_digits(&mut out, self.end);
        proof {
            assert(":"@ =~= seq![':']);
            assert("-"@ =~= seq!['-']);
            assert(out@ =~= spec_display(*self));
        }
        out
    }
}

} // verus!

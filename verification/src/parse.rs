//! Best-effort parsing of the run parameters out of an input file name stem.
//!
//! A stem names its run parameters when it has at least three `-`-separated
//! segments and the first is `preflop`: the second segment is the stack size
//! text and the third the iteration count. Each field degrades to absent on
//! its own; nothing here fails.

use vstd::prelude::*;
use vstd::string::StrSliceExecFns;

use crate::text::digit_of_char;
use crate::text::digit_val;
use crate::text::digits_val;
use crate::text::is_digit_char;

verus! {

/// Index of the first `-` in `s`, or the length of `s` if there is none.
pub open spec fn first_dash(s: Seq<char>) -> int
    decreases s.len(),
{
    if s.len() == 0 {
        0
    } else if s[0] == '-' {
        0
    } else {
        1 + first_dash(s.drop_first())
    }
}

/// `first_dash` finds a `-`, and nothing before it is one.
proof fn lemma_first_dash(s: Seq<char>)
    ensures
        0 <= first_dash(s) <= s.len(),
        first_dash(s) < s.len() ==> s[first_dash(s)] == '-',
        forall|m: int| 0 <= m < first_dash(s) ==> s[m] != '-',
    decreases s.len(),
{
    if s.len() > 0 && s[0] != '-' {
        lemma_first_dash(s.drop_first());
        let d = s.drop_first();
        assert(first_dash(s) == 1 + first_dash(d));
        if first_dash(s) < s.len() {
            assert(s[first_dash(s)] == d[first_dash(d)]);
        }
        assert forall|m: int| 0 <= m < first_dash(s) implies s[m] != '-' by {
            if m > 0 {
                assert(s[m] == d[m - 1]);
            }
        }
    }
}

/// The segments of `s` between its `-` separators, in order. A separator at
/// either end, or two adjacent ones, yields an empty segment.
pub open spec fn split_dash(s: Seq<char>) -> Seq<Seq<char>>
    decreases s.len(),
{
    let i = first_dash(s);
    if 0 <= i < s.len() {
        seq![s.take(i)] + split_dash(s.skip(i + 1))
    } else {
        seq![s]
    }
}

/// Split `s` into its `-`-separated segments.
pub fn split_dash_exec(s: &str) -> (r: Vec<String>)
    ensures
        r.deep_view() == split_dash(s@),
{
    let len = s.unicode_len();
    let mut r: Vec<String> = Vec::new();
    let mut start: usize = 0;
    let mut i: usize = 0;
    proof {
        assert(s@.skip(0) =~= s@);
    }
    while i < len
        invariant
            0 <= start <= i <= len,
            len == s@.len(),
            forall|m: int| start <= m < i ==> s@[m] != '-',
            split_dash(s@) == r.deep_view() + split_dash(s@.skip(start as int)),
        decreases len - i,
    {
        let c = s.get_char(i);
        if c == '-' {
            let tok = s.substring_char(start, i);
            r.push(tok.to_owned());
            proof {
                let u = s@.skip(start as int);
                lemma_first_dash(u);
                assert(u[i - start] == s@[i as int]);
                assert forall|m: int| 0 <= m < i - start implies u[m] != '-' by {
                    assert(u[m] == s@[start + m]);
                }
                if first_dash(u) < i - start {
                    assert(u[first_dash(u)] == '-');
                    assert(false);
                }
                if first_dash(u) > i - start {
                    assert(u[i - start] != '-');
                    assert(false);
                }
                assert(first_dash(u) == i - start);
                assert(u.take(i - start) =~= s@.subrange(start as int, i as int));
                assert(u.skip(i - start + 1) =~= s@.skip(i + 1));
                assert(split_dash(u) == seq![s@.subrange(start as int, i as int)] + split_dash(
                    s@.skip(i + 1),
                ));
                assert(r.deep_view() + split_dash(s@.skip(i + 1)) =~= split_dash(s@));
            }
            start = i + 1;
        }
        i = i + 1;
    }
    let tok = s.substring_char(start, len);
    r.push(tok.to_owned());
    proof {
        let u = s@.skip(start as int);
        lemma_first_dash(u);
        assert forall|m: int| 0 <= m < u.len() implies u[m] != '-' by {
            assert(u[m] == s@[start + m]);
        }
        if first_dash(u) < u.len() {
            assert(u[first_dash(u)] == '-');
            assert(false);
        }
        assert(split_dash(u) == seq![u]);
        assert(s@.subrange(start as int, len as int) =~= u);
        assert(r.deep_view() =~= split_dash(s@));
    }
    r
}

/// Every character is a decimal digit.
pub open spec fn all_digits(s: Seq<char>) -> bool {
    forall|i: int| 0 <= i < s.len() ==> is_digit_char(#[trigger] s[i])
}

/// The digit part of a decimal count: what follows an optional leading `+`.
pub open spec fn dec_body(s: Seq<char>) -> Seq<char> {
    if s.len() >= 1 && s[0] == '+' {
        s.drop_first()
    } else {
        s
    }
}

/// What parsing `s` as an unsigned decimal count yields: its value, when `s`
/// is an optional `+` followed by one or more digits and the value fits the
/// machine word; nothing otherwise.
pub open spec fn usize_dec_of(s: Seq<char>) -> Option<int> {
    if dec_body(s).len() >= 1 && all_digits(dec_body(s)) && digits_val(dec_body(s))
        <= usize::MAX as int {
        Option::Some(digits_val(dec_body(s)))
    } else {
        Option::None
    }
}

/// A digit string has a non-negative value.
proof fn lemma_digits_val_nonneg(s: Seq<char>)
    requires
        forall|i: int| 0 <= i < s.len() ==> is_digit_char(#[trigger] s[i]),
    ensures
        digits_val(s) >= 0,
    decreases s.len(),
{
    if s.len() > 0 {
        assert forall|i: int| 0 <= i < s.drop_last().len() implies is_digit_char(
            #[trigger] s.drop_last()[i],
        ) by {
            assert(s.drop_last()[i] == s[i]);
        }
        lemma_digits_val_nonneg(s.drop_last());
        assert(is_digit_char(s.last()));
    }
}

/// A digit string's value only grows as digits are appended.
proof fn lemma_digits_val_prefix(s: Seq<char>, t: int)
    requires
        0 <= t <= s.len(),
        forall|i: int| 0 <= i < s.len() ==> is_digit_char(#[trigger] s[i]),
    ensures
        digits_val(s.take(t)) <= digits_val(s),
    decreases s.len() - t,
{
    if t == s.len() {
        assert(s.take(t) =~= s);
    } else {
        assert forall|i: int| 0 <= i < s.take(t).len() implies is_digit_char(
            #[trigger] s.take(t)[i],
        ) by {
            assert(s.take(t)[i] == s[i]);
        }
        lemma_digits_val_nonneg(s.take(t));
        assert(s.take(t + 1).drop_last() =~= s.take(t));
        assert(s.take(t + 1).last() == s[t]);
        assert(is_digit_char(s[t]));
        assert(digits_val(s.take(t + 1)) == digits_val(s.take(t)) * 10 + digit_val(s[t]));
        assert(digits_val(s.take(t)) <= digits_val(s.take(t + 1)));
        lemma_digits_val_prefix(s, t + 1);
    }
}

/// Parse `s` as an unsigned decimal count: an optional `+` followed by one
/// or more digits, whose value fits the machine word.
pub fn parse_usize(s: &str) -> (r: Option<usize>)
    ensures
        (match r {
            Option::Some(v) => usize_dec_of(s@) == Option::Some(v as int),
            Option::None => usize_dec_of(s@) is None,
        }),
{
    let len = s.unicode_len();
    let mut i: usize = 0;
    if len >= 1 && s.get_char(0) == '+' {
        i = 1;
    }
    let ghost body = dec_body(s@);
    proof {
        assert(body =~= s@.skip(i as int));
    }
    if i >= len {
        return Option::None;
    }
    let mut acc: usize = 0;
    let mut j: usize = i;
    while j < len
        invariant
            i <= j <= len,
            len == s@.len(),
            body == s@.skip(i as int),
            body == dec_body(s@),
            body.len() == len - i,
            forall|m: int| 0 <= m < j - i ==> is_digit_char(#[trigger] body[m]),
            acc as int == digits_val(body.take(j - i)),
        decreases len - j,
    {
        let c = s.get_char(j);
        proof {
            assert(body[j - i] == s@[j as int]);
        }
        let d: usize = match digit_of_char(c) {
            Option::Some(d) => d as usize,
            Option::None => {
                proof {
                    assert(0 <= j - i < body.len());
                    assert(!is_digit_char(body[j - i]));
                    assert(!all_digits(body));
                    assert(usize_dec_of(s@) is None);
                }
                return Option::None;
            },
        };
        let next = match acc.checked_mul(10) {
            Option::Some(a) => a.checked_add(d),
            Option::None => Option::None,
        };
        match next {
            Option::Some(b) => {
                proof {
                    assert(body.take(j - i + 1).drop_last() =~= body.take(j - i));
                    assert(body.take(j - i + 1).last() == body[j - i]);
                    assert(digit_val(body[j - i]) == d as int);
                }
                acc = b;
            },
            Option::None => {
                proof {
                    assert(acc as int * 10 + d as int > usize::MAX as int);
                    assert(body.take(j - i + 1).drop_last() =~= body.take(j - i));
                    assert(body.take(j - i + 1).last() == body[j - i]);
                    assert(digit_val(body[j - i]) == d as int);
                    assert(digits_val(body.take(j - i + 1)) > usize::MAX as int);
                    if all_digits(body) {
                        lemma_digits_val_prefix(body, j - i + 1);
                        assert(digits_val(body) > usize::MAX as int);
                    }
                    assert(usize_dec_of(s@) is None);
                }
                return Option::None;
            },
        }
        j = j + 1;
    }
    proof {
        assert(body.take((len - i) as int) =~= body);
    }
    Option::Some(acc)
}

/// Read the stack size text and the iteration count out of a file name stem.
///
/// Both fields are present only when the stem splits on `-` into at least
/// three segments and the first is `preflop`; then the stack size text is
/// the second segment, taken verbatim for the caller to interpret as a
/// number, and the iteration count is the third segment parsed as an
/// unsigned decimal count. Each field degrades to absent on its own.
pub fn parse_stack_and_iterations(stem: &str) -> (r: (Option<String>, Option<usize>))
    ensures
        ({
            let parts = split_dash(stem@);
            if parts.len() >= 3 && parts[0] == "preflop"@ {
                &&& (match r.0 {
                    Option::Some(t) => t@ == parts[1],
                    Option::None => false,
                })
                &&& (match r.1 {
                    Option::Some(v) => usize_dec_of(parts[2]) == Option::Some(v as int),
                    Option::None => usize_dec_of(parts[2]) is None,
                })
            } else {
                r.0 is None && r.1 is None
            }
        }),
{
    let parts = split_dash_exec(stem);
    proof {
        assert(parts.deep_view().len() == parts@.len());
    }
    if parts.len() < 3 {
        return (Option::None, Option::None);
    }
    let prefix = "preflop".to_owned();
    let matches_prefix = parts[0] == prefix;
    proof {
        assert(parts.deep_view()[0] == parts@[0]@);
    }
    if !matches_prefix {
        return (Option::None, Option::None);
    }
    let stack_text = parts[1].clone();
    proof {
        assert(parts.deep_view()[1] == parts@[1]@);
        assert(parts.deep_view()[2] == parts@[2]@);
    }
    let iterations = parse_usize(parts[2].as_str());
    (Option::Some(stack_text), iterations)
}

} // verus!

//! Decimal rendering of unsigned integers, shared by the key canonicalizer
//! and the document encoder.

use vstd::prelude::*;
use vstd::string::StringExecFns;

verus! {

/// The character standing for decimal digit `d`.
pub open spec fn digit_char(d: int) -> char {
    if d == 0 {
        '0'
    } else if d == 1 {
        '1'
    } else if d == 2 {
        '2'
    } else if d == 3 {
        '3'
    } else if d == 4 {
        '4'
    } else if d == 5 {
        '5'
    } else if d == 6 {
        '6'
    } else if d == 7 {
        '7'
    } else if d == 8 {
        '8'
    } else {
        '9'
    }
}

/// Decimal rendering of `n`, most significant digit first, no sign and no
/// leading zeros.
pub open spec fn dec_rep(n: nat) -> Seq<char>
    decreases n,
{
    if n < 10 {
        seq![digit_char(n as int)]
    } else {
        dec_rep(n / 10) + seq![digit_char((n % 10) as int)]
    }
}

/// A decimal digit character.
pub open spec fn is_digit_char(c: char) -> bool {
    c == '0' || c == '1' || c == '2' || c == '3' || c == '4' || c == '5' || c == '6' || c == '7'
        || c == '8' || c == '9'
}

/// The decimal digit a character stands for, if any.
pub fn digit_of_char(c: char) -> (r: Option<u64>)
    ensures
        (match r {
            Option::Some(d) => is_digit_char(c) && d < 10 && d as int == digit_val(c),
            Option::None => !is_digit_char(c),
        }),
{
    match c {
        '0' => Option::Some(0),
        '1' => Option::Some(1),
        '2' => Option::Some(2),
        '3' => Option::Some(3),
        '4' => Option::Some(4),
        '5' => Option::Some(5),
        '6' => Option::Some(6),
        '7' => Option::Some(7),
        '8' => Option::Some(8),
        '9' => Option::Some(9),
        _ => Option::None,
    }
}

/// The numeric value of a digit character.
pub open spec fn digit_val(c: char) -> int {
    c as int - '0' as int
}

/// The numeric value of a digit string, read most significant digit first.
pub open spec fn digits_val(s: Seq<char>) -> int
    decreases s.len(),
{
    if s.len() == 0 {
        0
    } else {
        digits_val(s.drop_last()) * 10 + digit_val(s.last())
    }
}

/// A decimal rendering is never empty and consists of digit characters only.
pub proof fn lemma_dec_rep_digits(n: nat)
    ensures
        dec_rep(n).len() >= 1,
        forall|i: int| 0 <= i < dec_rep(n).len() ==> is_digit_char(#[trigger] dec_rep(n)[i]),
    decreases n,
{
    if n >= 10 {
        lemma_dec_rep_digits(n / 10);
    }
}

/// Reading the rendering of `n` back as a number yields `n`, so rendering is
/// injective.
pub proof fn lemma_dec_rep_value(n: nat)
    ensures
        digits_val(dec_rep(n)) == n,
    decreases n,
{
    if n < 10 {
        assert(dec_rep(n).drop_last() =~= Seq::<char>::empty());
        assert(digit_val(digit_char(n as int)) == n);
        assert(dec_rep(n).last() == digit_char(n as int));
        assert(dec_rep(n).len() == 1);
        assert(digits_val(dec_rep(n)) == digits_val(dec_rep(n).drop_last()) * 10 + digit_val(
            dec_rep(n).last(),
        ));
        assert(digits_val(Seq::<char>::empty()) == 0);
    } else {
        lemma_dec_rep_value(n / 10);
        assert(dec_rep(n).drop_last() =~= dec_rep(n / 10));
        assert(dec_rep(n).len() >= 1);
        assert(digits_val(dec_rep(n)) == digits_val(dec_rep(n).drop_last()) * 10 + digit_val(
            dec_rep(n).last(),
        ));
        assert(dec_rep(n).last() == digit_char((n % 10) as int));
        assert(digit_val(digit_char((n % 10) as int)) == n % 10);
        assert(digits_val(dec_rep(n)) == (n / 10) * 10 + n % 10);
        assert((n / 10) * 10 + n % 10 == n);
    }
}

/// Distinct numbers render distinctly.
pub proof fn lemma_dec_rep_injective(a: nat, b: nat)
    requires
        dec_rep(a) == dec_rep(b),
    ensures
        a == b,
{
    lemma_dec_rep_value(a);
    lemma_dec_rep_value(b);
}

/// Append the character of decimal digit `d` to `s`.
fn push_digit(s: &mut String, d: u64)
    requires
        d < 10,
    ensures
        final(s)@ == old(s)@ + seq![digit_char(d as int)],
{
    match d {
        0 => {
            s.append("0");
            proof {
                reveal_strlit("0");
                assert("0"@ =~= seq![digit_char(0)]);
            }
        },
        1 => {
            s.append("1");
            proof {
                reveal_strlit("1");
                assert("1"@ =~= seq![digit_char(1)]);
            }
        },
        2 => {
            s.append("2");
            proof {
                reveal_strlit("2");
                assert("2"@ =~= seq![digit_char(2)]);
            }
        },
        3 => {
            s.append("3");
            proof {
                reveal_strlit("3");
                assert("3"@ =~= seq![digit_char(3)]);
            }
        },
        4 => {
            s.append("4");
            proof {
                reveal_strlit("4");
                assert("4"@ =~= seq![digit_char(4)]);
            }
        },
        5 => {
            s.append("5");
            proof {
                reveal_strlit("5");
                assert("5"@ =~= seq![digit_char(5)]);
            }
        },
        6 => {
            s.append("6");
            proof {
                reveal_strlit("6");
                assert("6"@ =~= seq![digit_char(6)]);
            }
        },
        7 => {
            s.append("7");
            proof {
                reveal_strlit("7");
                assert("7"@ =~= seq![digit_char(7)]);
            }
        },
        8 => {
            s.append("8");
            proof {
                reveal_strlit("8");
                assert("8"@ =~= seq![digit_char(8)]);
            }
        },
        _ => {
            s.append("9");
            proof {
                reveal_strlit("9");
                assert("9"@ =~= seq![digit_char(9)]);
            }
        },
    }
}

/// Append the decimal rendering of `n` to `s`.
pub fn push_dec_u64(s: &mut String, n: u64)
    ensures
        final(s)@ == old(s)@ + dec_rep(n as nat),
    decreases n,
{
    if n < 10 {
        push_digit(s, n);
    } else {
        push_dec_u64(s, n / 10);
        push_digit(s, n % 10);
        proof {
            assert(s@ =~= old(s)@ + dec_rep(n as nat));
        }
    }
}

/// The decimal rendering of `n` as a fresh string.
pub fn dec_string_u64(n: u64) -> (r: String)
    ensures
        r@ == dec_rep(n as nat),
{
    let mut s = String::new();
    push_dec_u64(&mut s, n);
    proof {
        assert(s@ =~= dec_rep(n as nat));
    }
    s
}

} // verus!

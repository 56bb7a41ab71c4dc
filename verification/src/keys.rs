//! Canonicalization of information-set keys.
//!
//! A key is an ordered sequence of bytes naming a decision point by its
//! action-history path. The empty key canonicalizes to `"root"`; a non-empty
//! key renders each byte in decimal, joined with `-`, in original order.
//! Canonicalization is injective: distinct keys yield distinct strings.

use vstd::prelude::*;
use vstd::string::StringExecFns;

use crate::text::dec_rep;
use crate::text::dec_string_u64;
use crate::text::is_digit_char;
use crate::text::lemma_dec_rep_digits;
use crate::text::lemma_dec_rep_injective;
use crate::text::push_dec_u64;

verus! {

/// The canonical string of a key: `"root"` for the empty key, else the
/// decimal renderings of its bytes joined with `-`.
pub open spec fn state_key_of(k: Seq<u8>) -> Seq<char>
    decreases k.len(),
{
    if k.len() == 0 {
        "root"@
    } else if k.len() == 1 {
        dec_rep(k[0] as nat)
    } else {
        state_key_of(k.drop_last()) + seq!['-'] + dec_rep(k.last() as nat)
    }
}

/// A canonical key string is never empty.
pub proof fn lemma_state_key_len(k: Seq<u8>)
    ensures
        state_key_of(k).len() >= 1,
    decreases k.len(),
{
    if k.len() == 0 {
        reveal_strlit("root");
    } else if k.len() == 1 {
        lemma_dec_rep_digits(k[0] as nat);
    } else {
        lemma_dec_rep_digits(k.last() as nat);
    }
}

/// Equal canonical strings come only from equal keys.
proof fn lemma_state_key_eq(k1: Seq<u8>, k2: Seq<u8>)
    requires
        state_key_of(k1) == state_key_of(k2),
    ensures
        k1 =~= k2,
    decreases k1.len() + k2.len(),
{
    let s = state_key_of(k1);
    if k1.len() <= 1 && k2.len() <= 1 {
        if k1.len() == 0 && k2.len() == 0 {
        } else if k1.len() == 0 && k2.len() == 1 {
            lemma_root_not_dec(k2[0] as nat);
        } else if k1.len() == 1 && k2.len() == 0 {
            lemma_root_not_dec(k1[0] as nat);
        } else {
            lemma_dec_rep_injective(k1[0] as nat, k2[0] as nat);
            assert(k1 =~= k2);
        }
    } else if k1.len() <= 1 && k2.len() >= 2 {
        lemma_short_not_joined(k1, k2);
    } else if k2.len() <= 1 && k1.len() >= 2 {
        lemma_short_not_joined(k2, k1);
    } else {
        let a1 = state_key_of(k1.drop_last());
        let a2 = state_key_of(k2.drop_last());
        let d1 = dec_rep(k1.last() as nat);
        let d2 = dec_rep(k2.last() as nat);
        lemma_dec_rep_digits(k1.last() as nat);
        lemma_dec_rep_digits(k2.last() as nat);
        assert(s == a1 + seq!['-'] + d1);
        assert(s == a2 + seq!['-'] + d2);
        assert(s.len() == a1.len() + 1 + d1.len());
        assert(s.len() == a2.len() + 1 + d2.len());
        assert(s[a1.len() as int] == '-');
        assert(s[a2.len() as int] == '-');
        if d1.len() < d2.len() {
            assert(a1.len() > a2.len());
            let p = a1.len() as int;
            assert(s[p] == d2[p - a2.len() - 1]);
            assert(is_digit_char(d2[p - a2.len() - 1]));
            assert(false);
        } else if d2.len() < d1.len() {
            let p = a2.len() as int;
            assert(s[p] == d1[p - a1.len() - 1]);
            assert(is_digit_char(d1[p - a1.len() - 1]));
            assert(false);
        } else {
            assert(a1.len() == a2.len());
            assert(d1 =~= d2) by {
                assert forall|i: int| 0 <= i < d1.len() implies d1[i] == d2[i] by {
                    assert(d1[i] == s[a1.len() + 1 + i]);
                    assert(d2[i] == s[a2.len() + 1 + i]);
                }
            }
            lemma_dec_rep_injective(k1.last() as nat, k2.last() as nat);
            assert(a1 =~= a2) by {
                assert forall|i: int| 0 <= i < a1.len() implies a1[i] == a2[i] by {
                    assert(a1[i] == s[i]);
                    assert(a2[i] == s[i]);
                }
            }
            lemma_state_key_eq(k1.drop_last(), k2.drop_last());
            assert(k1.len() == k2.len());
            assert forall|i: int| 0 <= i < k1.len() implies k1[i] == k2[i] by {
                if i < k1.len() - 1 {
                    assert(k1[i] == k1.drop_last()[i]);
                    assert(k2[i] == k2.drop_last()[i]);
                }
            }
        }
    }
}

/// `"root"` is not the rendering of any byte: it does not start with a digit.
proof fn lemma_root_not_dec(n: nat)
    ensures
        "root"@ != dec_rep(n),
{
    reveal_strlit("root");
    lemma_dec_rep_digits(n);
    if "root"@ == dec_rep(n) {
        assert(is_digit_char(dec_rep(n)[0]));
        assert(dec_rep(n)[0] == 'r');
        assert(false);
    }
}

/// A key of at most one byte never canonicalizes like a key of two or more:
/// the longer key's string holds a `-` where the shorter one holds none.
proof fn lemma_short_not_joined(k1: Seq<u8>, k2: Seq<u8>)
    requires
        k1.len() <= 1,
        k2.len() >= 2,
    ensures
        state_key_of(k1) != state_key_of(k2),
{
    if state_key_of(k1) == state_key_of(k2) {
        let s = state_key_of(k2);
        let a2 = state_key_of(k2.drop_last());
        lemma_state_key_len(k2.drop_last());
        lemma_dec_rep_digits(k2.last() as nat);
        let p = a2.len() as int;
        assert(s[p] == '-');
        if k1.len() == 0 {
            reveal_strlit("root");
            assert(s.len() == 4);
            assert(s[0] != '-' && s[1] != '-' && s[2] != '-' && s[3] != '-');
            assert(0 <= p < 4);
            assert(false);
        } else {
            lemma_dec_rep_digits(k1[0] as nat);
            assert(is_digit_char(s[p]));
            assert(false);
        }
    }
}

/// Canonicalization is injective: distinct keys yield distinct strings.
pub proof fn lemma_state_key_injective(k1: Seq<u8>, k2: Seq<u8>)
    requires
        k1 != k2,
    ensures
        state_key_of(k1) != state_key_of(k2),
{
    if state_key_of(k1) == state_key_of(k2) {
        lemma_state_key_eq(k1, k2);
        assert(false);
    }
}

/// Canonicalize a key: `"root"` for the empty key, else decimal renderings
/// of its bytes joined with `-` in original order.
pub fn to_state_key(info_set: &Vec<u8>) -> (r: String)
    ensures
        r@ == state_key_of(info_set@),
{
    if info_set.len() == 0 {
        let r = "root".to_owned();
        return r;
    }
    let mut s = dec_string_u64(info_set[0] as u64);
    proof {
        assert(info_set@.take(1).len() == 1);
        assert(info_set@.take(1)[0] == info_set@[0]);
    }
    let mut i: usize = 1;
    while i < info_set.len()
        invariant
            1 <= i <= info_set@.len(),
            s@ == state_key_of(info_set@.take(i as int)),
        decreases info_set@.len() - i,
    {
        s.append("-");
        push_dec_u64(&mut s, info_set[i] as u64);
        proof {
            reveal_strlit("-");
            let t = info_set@.take(i as int + 1);
            assert(t.drop_last() =~= info_set@.take(i as int));
            assert(t.last() == info_set@[i as int]);
            assert("-"@ =~= seq!['-']);
            assert(s@ =~= state_key_of(t));
        }
        i = i + 1;
    }
    proof {
        assert(info_set@.take(info_set@.len() as int) =~= info_set@);
    }
    s
}

} // verus!

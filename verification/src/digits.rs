//! Decimal digit strings: rendering a workspace number as its digit string
//! and reading the leading digit prefix of a workspace name.

use vstd::prelude::*;
use vstd::string::StrSliceExecFns;
use vstd::string::StringExecFns;

verus! {

/// The character for a single decimal digit value.
pub open spec fn digit_char(d: nat) -> char {
    if d == 0 {
        '0'
    } else if d == 1 {
        '1'
    } else if d == 2 {
        '2'
    } else if d == 3 {
        '3'
    } else if d == 4 {
        '4'
    } else if d == 5 {
        '5'
    } else if d == 6 {
        '6'
    } else if d == 7 {
        '7'
    } else if d == 8 {
        '8'
    } else {
        '9'
    }
}

/// The decimal digit characters of `n`, most significant first, with no sign
/// and no leading zeros (`0` itself is the single character `'0'`).
pub open spec fn dec_digits(n: nat) -> Seq<char>
    decreases n,
{
    if n < 10 {
        seq![digit_char(n)]
    } else {
        dec_digits(n / 10).push(digit_char(n % 10))
    }
}

/// True iff `c` is an ascii decimal digit.
pub open spec fn is_digit_char(c: char) -> bool {
    48 <= c as u32 && c as u32 <= 57
}

/// The numeric value of a single digit character.
pub open spec fn digit_value(c: char) -> nat
    recommends
        is_digit_char(c),
{
    (c as u32 - 48) as nat
}

/// `k` is the length of the maximal digit prefix of `s`: everything before
/// position `k` is a digit and position `k` (if it exists) is not.
pub open spec fn is_digit_prefix_len(s: Seq<char>, k: int) -> bool {
    &&& 0 <= k <= s.len()
    &&& forall|i: int| 0 <= i < k ==> is_digit_char(#[trigger] s[i])
    &&& k < s.len() ==> !is_digit_char(s[k])
}

/// The number denoted by the first `k` characters of `s`, read in decimal.
pub open spec fn digits_value(s: Seq<char>, k: int) -> nat
    decreases k,
{
    if k <= 0 {
        0
    } else {
        digits_value(s, k - 1) * 10 + digit_value(s[k - 1])
    }
}

/// Every character sequence has a maximal digit prefix.
pub proof fn lemma_digit_prefix_exists(s: Seq<char>)
    ensures
        exists|k: int| is_digit_prefix_len(s, k),
    decreases s.len(),
{
    if s.len() == 0 {
        assert(is_digit_prefix_len(s, 0));
    } else if !is_digit_char(s[0]) {
        assert(is_digit_prefix_len(s, 0));
    } else {
        lemma_digit_prefix_exists(s.drop_first());
        let k = choose|k: int| is_digit_prefix_len(s.drop_first(), k);
        assert forall|i: int| 0 <= i < k + 1 implies is_digit_char(#[trigger] s[i]) by {
            if i > 0 {
                assert(s[i] == s.drop_first()[i - 1]);
            }
        }
        if k + 1 < s.len() {
            assert(s[k + 1] == s.drop_first()[k]);
        }
        assert(is_digit_prefix_len(s, k + 1));
    }
}

/// The length of the maximal digit prefix of `s`.
pub open spec fn digit_prefix_len(s: Seq<char>) -> int {
    choose|k: int| is_digit_prefix_len(s, k)
}

/// The maximal digit prefix length is unique.
pub proof fn lemma_digit_prefix_len_unique(s: Seq<char>, k1: int, k2: int)
    requires
        is_digit_prefix_len(s, k1),
        is_digit_prefix_len(s, k2),
    ensures
        k1 == k2,
{
    if k1 < k2 {
        assert(is_digit_char(s[k1]));
    }
    if k2 < k1 {
        assert(is_digit_char(s[k2]));
    }
}

/// When `k` is a maximal digit prefix length of `s`, it is the one.
pub proof fn lemma_digit_prefix_len_is(s: Seq<char>, k: int)
    requires
        is_digit_prefix_len(s, k),
    ensures
        digit_prefix_len(s) == k,
{
    lemma_digit_prefix_len_unique(s, k, digit_prefix_len(s));
}

/// Reading more digits never makes the value smaller.
pub proof fn lemma_digits_value_monotonic(s: Seq<char>, k1: int, k2: int)
    requires
        0 <= k1 <= k2,
    ensures
        digits_value(s, k1) <= digits_value(s, k2),
    decreases k2,
{
    if k1 < k2 {
        lemma_digits_value_monotonic(s, k1, k2 - 1);
    }
}

fn digit_str(d: u64) -> (r: &'static str)
    requires
        d < 10,
    ensures
        r@ == seq![digit_char(d as nat)],
{
    let r: &'static str = if d == 0 {
        "0"
    } else if d == 1 {
        "1"
    } else if d == 2 {
        "2"
    } else if d == 3 {
        "3"
    } else if d == 4 {
        "4"
    } else if d == 5 {
        "5"
    } else if d == 6 {
        "6"
    } else if d == 7 {
        "7"
    } else if d == 8 {
        "8"
    } else {
        "9"
    };
    proof {
        reveal_strlit("0");
        reveal_strlit("1");
        reveal_strlit("2");
        reveal_strlit("3");
        reveal_strlit("4");
        reveal_strlit("5");
        reveal_strlit("6");
        reveal_strlit("7");
        reveal_strlit("8");
        reveal_strlit("9");
        assert(r@ =~= seq![digit_char(d as nat)]);
    }
    r
}

/// Renders `n` in decimal, with no sign and no leading zeros.
pub fn format_number(n: u64) -> (r: String)
    ensures
        r@ == dec_digits(n as nat),
    decreases n,
{
    if n < 10 {
        let mut s = String::new();
        s.append(digit_str(n));
        proof {
            assert(s@ =~= dec_digits(n as nat));
        }
        s
    } else {
        let mut s = format_number(n / 10);
        s.append(digit_str(n % 10));
        proof {
            assert(s@ =~= dec_digits(n as nat));
        }
        s
    }
}

/// The decimal rendering of a possibly negative integer.
pub open spec fn signed_dec_digits(n: int) -> Seq<char> {
    if n >= 0 {
        dec_digits(n as nat)
    } else {
        seq!['-'] + dec_digits((-n) as nat)
    }
}

/// Renders `n` in decimal, with a leading minus sign when it is negative.
pub fn format_signed(n: i64) -> (r: String)
    ensures
        r@ == signed_dec_digits(n as int),
{
    if n >= 0 {
        format_number(n as u64)
    } else {
        let mut s = String::new();
        s.append("-");
        let m: u64 = ((-(n + 1)) as u64) + 1;
        let digits = format_number(m);
        s.append(digits.as_str());
        proof {
            reveal_strlit("-");
            assert(s@ =~= signed_dec_digits(n as int));
        }
        s
    }
}

/// Reads the maximal digit prefix of `s` and returns its numeric value
/// together with its length. Returns `None` when `s` has no leading digit or
/// when the denoted number does not fit in an `i32`.
pub fn split_leading_number(s: &str) -> (r: Option<(i64, usize)>)
    ensures
        match r {
            Some(p) => {
                &&& is_digit_prefix_len(s@, p.1 as int)
                &&& p.1 >= 1
                &&& p.0 as int == digits_value(s@, p.1 as int)
                &&& 0 <= p.0 <= i32::MAX as int
            },
            None => forall|k: int|
                is_digit_prefix_len(s@, k) ==> k == 0 || digits_value(s@, k) > i32::MAX as int,
        },
{
    let len = s.unicode_len();
    let mut k: usize = 0;
    loop
        invariant
            k <= len,
            len == s@.len(),
            forall|i: int| 0 <= i < k ==> is_digit_char(#[trigger] s@[i]),
        ensures
            is_digit_prefix_len(s@, k as int),
            k <= len == s@.len(),
        decreases len - k,
    {
        if k >= len {
            break;
        }
        let c = s.get_char(k);
        let u = c as u32;
        if u < 48 || u > 57 {
            break;
        }
        k = k + 1;
    }
    if k == 0 {
        proof {
            assert forall|j: int| is_digit_prefix_len(s@, j) implies j == 0 || digits_value(
                s@,
                j,
            ) > i32::MAX as int by {
                lemma_digit_prefix_len_unique(s@, j, k as int);
            }
        }
        return None;
    }
    let mut acc: i64 = 0;
    let mut i: usize = 0;
    while i < k
        invariant
            i <= k,
            k <= s@.len(),
            is_digit_prefix_len(s@, k as int),
            forall|j: int| 0 <= j < k ==> is_digit_char(#[trigger] s@[j]),
            acc as int == digits_value(s@, i as int),
            0 <= acc <= i32::MAX as int,
        decreases k - i,
    {
        let c = s.get_char(i);
        let d = (c as u32 - 48) as i64;
        acc = acc * 10 + d;
        i = i + 1;
        if acc > i32::MAX as i64 {
            proof {
                assert forall|j: int| is_digit_prefix_len(s@, j) implies j == 0 || digits_value(
                    s@,
                    j,
                ) > i32::MAX as int by {
                    lemma_digit_prefix_len_unique(s@, j, k as int);
                    lemma_digits_value_monotonic(s@, i as int, k as int);
                }
            }
            return None;
        }
    }
    Some((acc, k))
}

} // verus!

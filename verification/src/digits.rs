//! Decimal digit strings and their numeric values: the spec-level model of
//! a decimal numeral, and verified parsing of digit strings into `usize`
//! with exact overflow reporting.

use vstd::arithmetic::mul::*;
use vstd::prelude::*;

verus! {

/// 10 raised to `n`: the weight of a decimal digit position.
pub open spec fn pow10(n: nat) -> nat
    decreases n,
{
    if n == 0 {
        1
    } else {
        10 * pow10((n - 1) as nat)
    }
}

/// `c` is a decimal digit `'0'..='9'`.
pub open spec fn is_digit(c: char) -> bool {
    48 <= c as u32 <= 57
}

/// Numeric value of a single decimal digit.
pub open spec fn digit_val(c: char) -> nat {
    (c as u32 - 48) as nat
}

/// Every character of `s` is a decimal digit.
pub open spec fn all_digits(s: Seq<char>) -> bool {
    forall|i: int| 0 <= i < s.len() ==> is_digit(#[trigger] s[i])
}

/// Value of a digit string read as a decimal numeral, most significant
/// digit first.
pub open spec fn digits_val(s: Seq<char>) -> nat
    decreases s.len(),
{
    if s.len() == 0 {
        0
    } else {
        digits_val(s.drop_last()) * 10 + digit_val(s.last())
    }
}

/// Value of the numeral `s` appended to an accumulator that already holds
/// the digits read so far.
pub open spec fn ext_val(acc: nat, s: Seq<char>) -> nat {
    acc * pow10(s.len()) + digits_val(s)
}

pub proof fn lemma_pow10_pos(n: nat)
    ensures
        pow10(n) >= 1,
    decreases n,
{
    if n > 0 {
        lemma_pow10_pos((n - 1) as nat);
    }
}

pub proof fn lemma_pow10_add(a: nat, b: nat)
    ensures
        pow10(a + b) == pow10(a) * pow10(b),
    decreases a,
{
    if a == 0 {
        assert(pow10(a + b) == pow10(b));
        assert(pow10(a) * pow10(b) == 1 * pow10(b));
        assert(1 * pow10(b) == pow10(b)) by (nonlinear_arith);
    } else {
        lemma_pow10_add((a - 1) as nat, b);
        assert(pow10(a + b) == 10 * pow10((a + b - 1) as nat));
        assert((a + b - 1) as nat == (a - 1) as nat + b);
        assert(pow10(a + b) == 10 * (pow10((a - 1) as nat) * pow10(b)));
        assert(pow10(a) == 10 * pow10((a - 1) as nat));
        assert(pow10(a + b) == pow10(a) * pow10(b)) by (nonlinear_arith)
            requires
                pow10(a + b) == 10 * (pow10((a - 1) as nat) * pow10(b)),
                pow10(a) == 10 * pow10((a - 1) as nat),
        ;
    }
}

pub proof fn lemma_pow10_mono(a: nat, b: nat)
    requires
        a <= b,
    ensures
        pow10(a) <= pow10(b),
    decreases b,
{
    if a < b {
        lemma_pow10_mono(a, (b - 1) as nat);
        lemma_pow10_pos((b - 1) as nat);
    }
}

/// Reading `x` followed by `y` is reading `x`, shifting it left by the
/// length of `y`, and adding the value of `y`.
pub proof fn lemma_digits_val_append(x: Seq<char>, y: Seq<char>)
    ensures
        digits_val(x + y) == digits_val(x) * pow10(y.len()) + digits_val(y),
    decreases y.len(),
{
    if y.len() == 0 {
        assert(x + y =~= x);
        assert(pow10(y.len()) == 1);
        assert(digits_val(x) * 1 == digits_val(x)) by (nonlinear_arith);
    } else {
        let y0 = y.drop_last();
        lemma_digits_val_append(x, y0);
        assert((x + y).drop_last() =~= x + y0);
        assert((x + y).last() == y.last());
        assert(digits_val(x + y) == (digits_val(x) * pow10(y0.len()) + digits_val(y0)) * 10
            + digit_val(y.last()));
        assert(pow10(y.len()) == 10 * pow10(y0.len()));
        assert(digits_val(y) == digits_val(y0) * 10 + digit_val(y.last()));
        assert(digits_val(x + y) == digits_val(x) * pow10(y.len()) + digits_val(y))
            by (nonlinear_arith)
            requires
                digits_val(x + y) == (digits_val(x) * pow10(y0.len()) + digits_val(y0)) * 10
                    + digit_val(y.last()),
                pow10(y.len()) == 10 * pow10(y0.len()),
                digits_val(y) == digits_val(y0) * 10 + digit_val(y.last()),
        ;
    }
}

/// Splitting an accumulated read at position `j`.
pub proof fn lemma_ext_val_split(acc: nat, s: Seq<char>, j: int)
    requires
        0 <= j <= s.len(),
    ensures
        ext_val(acc, s) == ext_val(acc, s.take(j)) * pow10((s.len() - j) as nat) + digits_val(
            s.skip(j),
        ),
{
    let a = s.take(j);
    let b = s.skip(j);
    assert(s =~= a + b);
    lemma_digits_val_append(a, b);
    lemma_pow10_add(j as nat, (s.len() - j) as nat);
    assert(acc * (pow10(j as nat) * pow10((s.len() - j) as nat)) == (acc * pow10(j as nat))
        * pow10((s.len() - j) as nat)) by {
        lemma_mul_is_associative(
            acc as int,
            pow10(j as nat) as int,
            pow10((s.len() - j) as nat) as int,
        );
    }
    lemma_mul_is_distributive_add_other_way(
        pow10((s.len() - j) as nat) as int,
        (acc * pow10(j as nat)) as int,
        digits_val(a) as int,
    );
}

/// A longer read never has a smaller value than what was accumulated so far.
pub proof fn lemma_ext_val_lower_bound(acc: nat, s: Seq<char>, j: int)
    requires
        0 <= j <= s.len(),
    ensures
        ext_val(acc, s) >= ext_val(acc, s.take(j)),
{
    lemma_ext_val_split(acc, s, j);
    lemma_pow10_pos((s.len() - j) as nat);
    lemma_mul_inequality(1, pow10((s.len() - j) as nat) as int, ext_val(acc, s.take(j)) as int);
    lemma_mul_is_commutative(ext_val(acc, s.take(j)) as int, pow10((s.len() - j) as nat) as int);
}

/// Extends `acc` by the decimal digits of `s`, returning
/// `acc * 10^|s| + value(s)`, or `None` when `s` holds a non-digit or the
/// result does not fit in `usize`.
pub fn append_digits(acc: usize, s: &str) -> (r: Option<usize>)
    ensures
        r is Some <==> all_digits(s@) && ext_val(acc as nat, s@) <= usize::MAX,
        r matches Some(v) ==> v as nat == ext_val(acc as nat, s@),
{
    let n = s.unicode_len();
    let mut cur = acc;
    let mut i: usize = 0;
    proof {
        assert(s@.take(0) =~= Seq::<char>::empty());
        assert(pow10(s@.take(0).len()) == 1);
        assert((acc as nat) * 1 == acc as nat) by (nonlinear_arith);
    }
    while i < n
        invariant
            i <= n,
            n == s@.len(),
            all_digits(s@.take(i as int)),
            cur as nat == ext_val(acc as nat, s@.take(i as int)),
        decreases n - i,
    {
        let c = s.get_char(i);
        let u = c as u32;
        if u < 48 || u > 57 {
            proof {
                assert(!is_digit(s@[i as int]));
            }
            return None;
        }
        let d = (u - 48) as usize;
        let stepped = match cur.checked_mul(10) {
            Some(m) => m.checked_add(d),
            None => None,
        };
        proof {
            assert(s@.take(i + 1).drop_last() =~= s@.take(i as int));
            assert(s@.take(i + 1).last() == s@[i as int]);
            assert(digits_val(s@.take(i + 1)) == digits_val(s@.take(i as int)) * 10 + digit_val(
                s@[i as int],
            ));
            assert(pow10((i + 1) as nat) == 10 * pow10(i as nat));
            assert(acc * (10 * pow10(i as nat)) == (acc * pow10(i as nat)) * 10) by {
                lemma_mul_is_associative(acc as int, 10, pow10(i as nat) as int);
                lemma_mul_is_commutative(acc as int, 10);
                lemma_mul_is_associative(10, acc as int, pow10(i as nat) as int);
            }
            assert(ext_val(acc as nat, s@.take(i + 1)) == (cur as nat) * 10 + digit_val(
                s@[i as int],
            )) by {
                lemma_mul_is_distributive_add_other_way(
                    10,
                    (acc * pow10(i as nat)) as int,
                    digits_val(s@.take(i as int)) as int,
                );
            }
        }
        match stepped {
            Some(x) => {
                cur = x;
                i = i + 1;
            },
            None => {
                proof {
                    lemma_ext_val_lower_bound(acc as nat, s@, i + 1);
                }
                return None;
            },
        }
    }
    proof {
        assert(s@.take(n as int) =~= s@);
    }
    Some(cur)
}

/// 10 to the power of `exp` as a `usize`, or `None` when it does not fit.
pub fn ten_to_the_power_of(exp: usize) -> (r: Option<usize>)
    ensures
        r is Some <==> pow10(exp as nat) <= usize::MAX,
        r matches Some(v) ==> v as nat == pow10(exp as nat),
{
    let mut acc: usize = 1;
    let mut i: usize = 0;
    while i < exp
        invariant
            i <= exp,
            acc as nat == pow10(i as nat),
        decreases exp - i,
    {
        match acc.checked_mul(10) {
            Some(x) => {
                acc = x;
                i = i + 1;
            },
            None => {
                proof {
                    lemma_pow10_mono((i + 1) as nat, exp as nat);
                }
                return None;
            },
        }
    }
    Some(acc)
}

} // verus!

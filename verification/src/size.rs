//! The size resolver: parses a magnitude string such as `"123.4k"` into a
//! byte count, scaling by the unit suffix and filling the digit positions
//! the user left unspecified, either with zeros or with a bounded random
//! perturbation.
//!
//! A magnitude string is a decimal number, integer and fraction separated
//! by `.` or `,`, followed by an optional unit letter `k`, `m` or `g`
//! (case-insensitive).

use crate::digits::{
    all_digits, append_digits, digits_val, ext_val, is_digit, lemma_digits_val_append,
    lemma_pow10_add, lemma_pow10_mono, lemma_pow10_pos, pow10, ten_to_the_power_of,
};
use rand::Rng;
use vstd::arithmetic::div_mod::lemma_div_multiples_vanish;
use vstd::arithmetic::mul::{lemma_mul_inequality, lemma_mul_is_commutative};
use vstd::prelude::*;

verus! {

/// A unit suffix of a magnitude string.
#[derive(Clone, Copy, Debug, PartialEq, Eq, Structural)]
pub enum Unit {
    Kilo,
    Mega,
    Giga,
}

/// Why a magnitude string was rejected.
#[derive(Clone, Copy, Debug, PartialEq, Eq, Structural)]
pub enum ParseFailure {
    /// The input does not match the magnitude grammar.
    InvalidFormat,
    /// The fraction holds more digits than the unit has trailing zeros.
    FractionTooPrecise,
    /// The digits given resolve to zero bytes.
    ZeroSize,
    /// The size does not fit in `usize`.
    Overflow,
    /// The deviation factor lies outside `[0, 1)`; reported by callers
    /// that validate the deviation before resolving.
    InvalidDeviation,
}

/// The exact outcome of parsing a magnitude string: the byte count implied
/// by the explicit digits, and the weight of one unspecified digit
/// position.
#[derive(Clone, Copy, Debug, PartialEq, Eq, Structural)]
pub struct SizeParts {
    /// Byte count with every unspecified trailing position set to zero.
    pub base: usize,
    /// `10^u` where `u` is the number of unspecified trailing positions:
    /// the granularity at which the base may be perturbed.
    pub granularity: usize,
}

/// `c` separates the integer from the fraction part.
pub open spec fn is_sep(c: char) -> bool {
    c == '.' || c == ','
}

/// The unit a trailing letter stands for, case-insensitively.
pub open spec fn unit_of_char(c: char) -> Option<Unit> {
    if c == 'k' || c == 'K' {
        Some(Unit::Kilo)
    } else if c == 'm' || c == 'M' {
        Some(Unit::Mega)
    } else if c == 'g' || c == 'G' {
        Some(Unit::Giga)
    } else {
        None
    }
}

/// The multiplier a unit stands for.
pub open spec fn factor_of(unit: Option<Unit>) -> nat {
    match unit {
        Some(Unit::Kilo) => 1000,
        Some(Unit::Mega) => 1000000,
        Some(Unit::Giga) => 1000000000,
        None => 1,
    }
}

/// How many trailing decimal digits the unit leaves unspecified when no
/// fraction is given: one less than the digit count of its factor.
pub open spec fn offset_of(unit: Option<Unit>) -> nat {
    match unit {
        Some(Unit::Kilo) => 3,
        Some(Unit::Mega) => 6,
        Some(Unit::Giga) => 9,
        None => 0,
    }
}

/// The unit suffix of `s`, if its last character is a unit letter.
pub open spec fn spec_unit(s: Seq<char>) -> Option<Unit> {
    if s.len() > 0 {
        unit_of_char(s.last())
    } else {
        None
    }
}

/// `s` with its unit suffix removed.
pub open spec fn spec_body(s: Seq<char>) -> Seq<char> {
    if s.len() > 0 && unit_of_char(s.last()) is Some {
        s.drop_last()
    } else {
        s
    }
}

/// Index of the first separator at or after `i`, or `-1` if there is none.
pub open spec fn sep_index_from(s: Seq<char>, i: int) -> int
    decreases s.len() - i,
{
    if i >= s.len() {
        -1
    } else if is_sep(s[i]) {
        i
    } else {
        sep_index_from(s, i + 1)
    }
}

/// Index of the first separator of a body, or `-1`.
pub open spec fn spec_sep(b: Seq<char>) -> int {
    sep_index_from(b, 0)
}

/// Digits left of the separator, or the whole body when there is none.
pub open spec fn spec_int_part(b: Seq<char>) -> Seq<char> {
    if spec_sep(b) >= 0 {
        b.take(spec_sep(b))
    } else {
        b
    }
}

/// Digits right of the separator, absent when there is no separator.
pub open spec fn spec_frac_part(b: Seq<char>) -> Option<Seq<char>> {
    if spec_sep(b) >= 0 {
        Some(b.skip(spec_sep(b) + 1))
    } else {
        None
    }
}

/// The body matches the numeric grammar: with a separator, digits on its
/// left (possibly none) and at least one digit on its right and nothing
/// else; without one, at least one digit and nothing else.
pub open spec fn body_valid(b: Seq<char>) -> bool {
    let j = spec_sep(b);
    if j >= 0 {
        all_digits(b.take(j)) && b.len() > j + 1 && all_digits(b.skip(j + 1))
    } else {
        b.len() > 0 && all_digits(b)
    }
}

/// The whole input matches the magnitude grammar.
pub open spec fn grammar_ok(s: Seq<char>) -> bool {
    body_valid(spec_body(s))
}

/// Integer and fraction digits joined into one numeral.
pub open spec fn combined_digits(ip: Seq<char>, fp: Option<Seq<char>>) -> Seq<char> {
    match fp {
        Some(f) => ip + f,
        None => ip,
    }
}

/// Length of the fraction part, zero when absent.
pub open spec fn frac_len(fp: Option<Seq<char>>) -> nat {
    match fp {
        Some(f) => f.len(),
        None => 0,
    }
}

/// What parsing a magnitude string must yield: either the base byte count
/// paired with the granularity of the unspecified positions, or the exact
/// failure. The base is the combined digits shifted left onto the unit's
/// remaining zero positions.
pub open spec fn spec_outcome(s: Seq<char>) -> Result<(nat, nat), ParseFailure> {
    let u = spec_unit(s);
    let b = spec_body(s);
    if !body_valid(b) {
        Err(ParseFailure::InvalidFormat)
    } else {
        let ip = spec_int_part(b);
        let fp = spec_frac_part(b);
        let fl = frac_len(fp);
        let off = offset_of(u);
        if fl > off {
            Err(ParseFailure::FractionTooPrecise)
        } else {
            let g = pow10((off - fl) as nat);
            let v = digits_val(combined_digits(ip, fp)) * g;
            if v > usize::MAX {
                Err(ParseFailure::Overflow)
            } else if v == 0 {
                Err(ParseFailure::ZeroSize)
            } else {
                Ok((v, g))
            }
        }
    }
}

/// The first-separator index is either `-1` or a separator position in
/// range.
pub proof fn lemma_sep_index_bounds(s: Seq<char>, i: int)
    requires
        0 <= i,
    ensures
        sep_index_from(s, i) == -1 || (i <= sep_index_from(s, i) < s.len() && is_sep(
            s[sep_index_from(s, i)],
        )),
    decreases s.len() - i,
{
    if i < s.len() && !is_sep(s[i]) {
        lemma_sep_index_bounds(s, i + 1);
    }
}

/// A scan that saw no separator before `j`, and one at `j` unless `j` is
/// the length, has found the first separator.
proof fn lemma_sep_index_from_scan(s: Seq<char>, i: int, j: int)
    requires
        0 <= i <= j <= s.len(),
        forall|k: int| i <= k < j ==> !is_sep(#[trigger] s[k]),
        j == s.len() || is_sep(s[j]),
    ensures
        sep_index_from(s, i) == if j == s.len() {
            -1
        } else {
            j
        },
    decreases j - i,
{
    if i < j {
        lemma_sep_index_from_scan(s, i + 1, j);
    }
}

/// Whether each character of `s` in `[from, to)` is a decimal digit.
fn check_digits(s: &str, from: usize, to: usize) -> (r: bool)
    requires
        from <= to <= s@.len(),
    ensures
        r <==> all_digits(s@.subrange(from as int, to as int)),
{
    let mut i = from;
    while i < to
        invariant
            from <= i <= to <= s@.len(),
            forall|k: int| from <= k < i ==> is_digit(#[trigger] s@[k]),
        decreases to - i,
    {
        let c = s.get_char(i);
        let u = c as u32;
        if u < 48 || u > 57 {
            proof {
                assert(s@.subrange(from as int, to as int)[i - from] == s@[i as int]);
            }
            return false;
        }
        i = i + 1;
    }
    proof {
        assert forall|k: int| 0 <= k < to - from implies is_digit(
            #[trigger] s@.subrange(from as int, to as int)[k],
        ) by {
            assert(s@.subrange(from as int, to as int)[k] == s@[from + k]);
        }
    }
    true
}

/// Matches the input against the magnitude grammar: an optional digit
/// string followed by a separator, a digit string, and an optional unit
/// letter. On a match, returns what stood left of the separator (absent
/// when there was none), the main digit capture (the fraction when a
/// separator was present, the whole number otherwise), and the unit.
pub fn capture_parts(input: &str) -> (r: Option<(Option<String>, String, Option<Unit>)>)
    ensures
        r is Some <==> grammar_ok(input@),
        r matches Some(t) ==> ({
            let b = spec_body(input@);
            &&& t.2 == spec_unit(input@)
            &&& t.1@ == (match spec_frac_part(b) {
                Some(f) => f,
                None => spec_int_part(b),
            })
            &&& (match spec_frac_part(b) {
                Some(f) => t.0 matches Some(l) && l@ == spec_int_part(b),
                None => t.0 is None,
            })
        }),
{
    let n = input.unicode_len();
    let mut body_end = n;
    let mut unit: Option<Unit> = None;
    if n > 0 {
        let c = input.get_char(n - 1);
        if c == 'k' || c == 'K' {
            unit = Some(Unit::Kilo);
            body_end = n - 1;
        } else if c == 'm' || c == 'M' {
            unit = Some(Unit::Mega);
            body_end = n - 1;
        } else if c == 'g' || c == 'G' {
            unit = Some(Unit::Giga);
            body_end = n - 1;
        }
    }
    let ghost b = spec_body(input@);
    proof {
        assert(unit == spec_unit(input@));
        assert(b =~= input@.take(body_end as int));
    }
    let mut j: usize = 0;
    let mut sep_found = false;
    while j < body_end && !sep_found
        invariant
            j <= body_end <= input@.len(),
            b =~= input@.take(body_end as int),
            forall|k: int| 0 <= k < j ==> !is_sep(#[trigger] b[k]),
            sep_found ==> j < body_end && is_sep(b[j as int]),
        decreases (if sep_found {
            0int
        } else {
            1int
        }), body_end - j,
    {
        let c = input.get_char(j);
        if c == '.' || c == ',' {
            sep_found = true;
        } else {
            j = j + 1;
        }
    }
    if sep_found {
        proof {
            lemma_sep_index_from_scan(b, 0, j as int);
            assert(spec_sep(b) == j as int);
        }
        if body_end == j + 1 {
            return None;
        }
        if !check_digits(input, 0, j) {
            proof {
                assert(b.take(j as int) =~= input@.subrange(0, j as int));
            }
            return None;
        }
        if !check_digits(input, j + 1, body_end) {
            proof {
                assert(b.skip(j + 1) =~= input@.subrange(j + 1, body_end as int));
            }
            return None;
        }
        proof {
            assert(b.take(j as int) =~= input@.subrange(0, j as int));
            assert(b.skip(j + 1) =~= input@.subrange(j + 1, body_end as int));
        }
        let left = String::from_str(input.substring_char(0, j));
        let main = String::from_str(input.substring_char(j + 1, body_end));
        Some((Some(left), main, unit))
    } else {
        proof {
            lemma_sep_index_from_scan(b, 0, body_end as int);
            assert(spec_sep(b) == -1);
        }
        if body_end == 0 {
            return None;
        }
        if !check_digits(input, 0, body_end) {
            proof {
                assert(b =~= input@.subrange(0, body_end as int));
            }
            return None;
        }
        proof {
            assert(b =~= input@.subrange(0, body_end as int));
        }
        let main = String::from_str(input.substring_char(0, body_end));
        Some((None, main, unit))
    }
}

/// Turns the unit capture into its factor: `k` is 1000, `m` is 1000000,
/// `g` is 1000000000, and no unit is 1.
pub fn get_factor(capture_opt: Option<Unit>) -> (r: usize)
    ensures
        r as nat == factor_of(capture_opt),
{
    match capture_opt {
        Some(Unit::Kilo) => 1000,
        Some(Unit::Mega) => 1000000,
        Some(Unit::Giga) => 1000000000,
        None => 1,
    }
}

/// How many trailing digit positions the unit leaves unspecified.
fn unit_offset(capture_opt: Option<Unit>) -> (r: usize)
    ensures
        r as nat == offset_of(capture_opt),
{
    match capture_opt {
        Some(Unit::Kilo) => 3,
        Some(Unit::Mega) => 6,
        Some(Unit::Giga) => 9,
        None => 0,
    }
}

/// Rearranges the grammar captures into the integer part and the optional
/// fraction part of the number: when a part left of the separator was
/// captured, the main capture is the fraction; otherwise the main capture
/// is the integer part and there is no fraction.
pub fn convert_to_num_parts(left_capture: Option<String>, right_capture: String) -> (r: (
    String,
    Option<String>,
))
    ensures
        match left_capture {
            Some(l) => r.0@ == l@ && (r.1 matches Some(f) && f@ == right_capture@),
            None => r.0@ == right_capture@ && r.1 is None,
        },
{
    let mut number_str = right_capture;
    let mut decimal_str_opt: Option<String> = None;
    if let Some(left_of_dot) = left_capture {
        decimal_str_opt = Some(number_str);
        number_str = left_of_dot;
    }
    (number_str, decimal_str_opt)
}

/// Reads the integer and fraction digit strings as one decimal numeral and
/// pads it on the right up to `offset` positions, so that the fraction
/// digits land on the unit's trailing zeros. Fails when a string holds a
/// non-digit, when both are empty, when the fraction is longer than
/// `offset`, or when the padded value does not fit in `usize`.
pub fn parse_to_usize_with_offset(
    int_part_str: &String,
    fraction_part_str_opt: &Option<String>,
    offset: usize,
) -> (r: Option<usize>)
    ensures
        ({
            let fl = match *fraction_part_str_opt {
                Some(ref f) => f@.len(),
                None => 0,
            };
            let combined = match *fraction_part_str_opt {
                Some(ref f) => int_part_str@ + f@,
                None => int_part_str@,
            };
            &&& (r is Some <==> all_digits(combined) && combined.len() > 0 && fl <= offset
                && pow10((offset - fl) as nat) <= usize::MAX && digits_val(combined) * pow10(
                (offset - fl) as nat,
            ) <= usize::MAX)
            &&& (r matches Some(v) ==> v as nat == digits_val(combined) * pow10(
                (offset - fl) as nat,
            ))
        }),
{
    match fraction_part_str_opt {
        Some(fraction_part_str) => {
            let ghost combined = int_part_str@ + fraction_part_str@;
            let fl = fraction_part_str.as_str().unicode_len();
            let adjusted_offset = match offset.checked_sub(fl) {
                Some(a) => a,
                None => {
                    return None;
                },
            };
            if int_part_str.as_str().unicode_len() == 0 && fl == 0 {
                proof {
                    assert(combined.len() == 0);
                }
                return None;
            }
            let int_value = match append_digits(0, int_part_str.as_str()) {
                Some(v) => v,
                None => {
                    proof {
                        lemma_combined_rejected(
                            int_part_str@,
                            fraction_part_str@,
                            (offset - fl) as nat,
                        );
                    }
                    return None;
                },
            };
            proof {
                assert((0 as nat) * pow10(int_part_str@.len()) == 0)
                    by (nonlinear_arith);
            }
            let combined_number = match append_digits(int_value, fraction_part_str.as_str()) {
                Some(v) => v,
                None => {
                    proof {
                        lemma_combined_tail_rejected(
                            int_part_str@,
                            fraction_part_str@,
                            (offset - fl) as nat,
                        );
                    }
                    return None;
                },
            };
            proof {
                lemma_digits_val_append(int_part_str@, fraction_part_str@);
                assert(combined_number as nat == digits_val(combined));
            }
            let p = match ten_to_the_power_of(adjusted_offset) {
                Some(v) => v,
                None => {
                    return None;
                },
            };
            combined_number.checked_mul(p)
        },
        None => {
            if int_part_str.as_str().unicode_len() == 0 {
                return None;
            }
            let n = match append_digits(0, int_part_str.as_str()) {
                Some(v) => v,
                None => {
                    proof {
                        lemma_zero_acc_overflow(int_part_str@, (offset - 0) as nat);
                    }
                    return None;
                },
            };
            proof {
                assert((0 as nat) * pow10(int_part_str@.len()) == 0)
                    by (nonlinear_arith);
            }
            let p = match ten_to_the_power_of(offset) {
                Some(v) => v,
                None => {
                    return None;
                },
            };
            n.checked_mul(p)
        },
    }
}

/// Each unit's factor is ten raised to its offset.
proof fn lemma_factor_pow10(u: Option<Unit>)
    ensures
        factor_of(u) == pow10(offset_of(u)),
{
    reveal_with_fuel(pow10, 10);
}

/// Parses a magnitude string into the base byte count implied by its
/// explicit digits and the granularity of the digit positions it leaves
/// unspecified, or reports exactly why the string is rejected.
pub fn size_parts(input: &str) -> (r: Result<SizeParts, ParseFailure>)
    ensures
        match spec_outcome(input@) {
            Ok(t) => r matches Ok(p) && p.base as nat == t.0 && p.granularity as nat == t.1,
            Err(e) => r == Err::<SizeParts, ParseFailure>(e),
        },
{
    let ghost b = spec_body(input@);
    let ghost sip = spec_int_part(b);
    let ghost sfp = spec_frac_part(b);
    let caps = match capture_parts(input) {
        Some(c) => c,
        None => {
            return Err(ParseFailure::InvalidFormat);
        },
    };
    let (left, main, unit) = caps;
    let (int_part, frac_opt) = convert_to_num_parts(left, main);
    proof {
        assert(int_part@ == sip);
        match sfp {
            Some(f) => {
                assert(frac_opt matches Some(fs) && fs@ == f);
            },
            None => {
                assert(frac_opt is None);
            },
        }
        if spec_sep(b) >= 0 {
            let j = spec_sep(b);
            assert forall|i: int| 0 <= i < (sip + b.skip(j + 1)).len() implies is_digit(
                #[trigger] (sip + b.skip(j + 1))[i],
            ) by {
                if i < sip.len() {
                    assert((sip + b.skip(j + 1))[i] == sip[i]);
                } else {
                    assert((sip + b.skip(j + 1))[i] == b.skip(j + 1)[i - sip.len()]);
                }
            }
        }
    }
    let factor = get_factor(unit);
    let offset = unit_offset(unit);
    let fl = match &frac_opt {
        Some(f) => f.as_str().unicode_len(),
        None => 0,
    };
    if fl > offset {
        return Err(ParseFailure::FractionTooPrecise);
    }
    proof {
        lemma_factor_pow10(unit);
        lemma_pow10_mono((offset - fl) as nat, 9);
        lemma_pow10_mono(fl as nat, 9);
        reveal_with_fuel(pow10, 10);
        assert(pow10(9) == 1000000000);
    }
    let base = match parse_to_usize_with_offset(&int_part, &frac_opt, offset) {
        Some(v) => v,
        None => {
            return Err(ParseFailure::Overflow);
        },
    };
    if base == 0 {
        return Err(ParseFailure::ZeroSize);
    }
    let p10 = match ten_to_the_power_of(fl) {
        Some(v) => v,
        None => {
            proof {
                assert(false);
            }
            return Err(ParseFailure::Overflow);
        },
    };
    let granularity = match factor.checked_div(p10) {
        Some(v) => v,
        None => {
            proof {
                lemma_pow10_pos(fl as nat);
                assert(false);
            }
            return Err(ParseFailure::Overflow);
        },
    };
    proof {
        lemma_pow10_pos(fl as nat);
        lemma_pow10_add(fl as nat, (offset - fl) as nat);
        assert(factor as int == pow10(fl as nat) as int * pow10((offset - fl) as nat) as int);
        lemma_div_multiples_vanish(pow10((offset - fl) as nat) as int, pow10(fl as nat) as int);
        assert(granularity as nat == pow10((offset - fl) as nat));
    }
    Ok(SizeParts { base, granularity })
}

/// Relies on rand's `thread_rng` and `Rng::gen_range` over the inclusive
/// range `lo..=hi`: the draw is a uniformly sampled value within the
/// bounds, and panics only on an empty range, which the precondition
/// rules out.
#[verifier::external_body]
fn gen_range_i64(lo: i64, hi: i64) -> (r: i64)
    requires
        lo <= hi,
    ensures
        lo <= r <= hi,
{
    rand::thread_rng().gen_range(lo..=hi)
}

/// Resolves a magnitude string with every unspecified digit position set
/// to zero: the deterministic outcome of a zero deviation.
pub fn resolve_exact(input: &str) -> (r: Result<usize, ParseFailure>)
    ensures
        match spec_outcome(input@) {
            Ok(t) => r matches Ok(n) && n as nat == t.0,
            Err(e) => r == Err::<usize, ParseFailure>(e),
        },
{
    match size_parts(input) {
        Ok(p) => Ok(p.base),
        Err(e) => Err(e),
    }
}

/// Resolves a magnitude string and perturbs the base byte count by a
/// uniformly drawn delta in `[-delta_bound, +delta_bound]`. Parsing
/// failures are exactly those of the grammar; the perturbed result stays
/// within the window around the base, and is owed whenever no draw can
/// leave `usize` (which holds for every bound below the granularity, since
/// the base is then at least the granularity).
pub fn resolve_randomized(input: &str, delta_bound: usize) -> (r: Result<usize, ParseFailure>)
    ensures
        match spec_outcome(input@) {
            Err(e) => r == Err::<usize, ParseFailure>(e),
            Ok(t) => {
                &&& (r matches Ok(n) ==> t.0 - delta_bound <= n as int <= t.0 + delta_bound)
                &&& (delta_bound <= t.0 && t.0 + delta_bound <= usize::MAX ==> r is Ok)
                &&& (r is Err ==> r == Err::<usize, ParseFailure>(ParseFailure::Overflow))
            },
        },
{
    let parts = match size_parts(input) {
        Ok(p) => p,
        Err(e) => {
            return Err(e);
        },
    };
    if delta_bound > usize::MAX / 2 {
        return Err(ParseFailure::Overflow);
    }
    let hi = delta_bound as i64;
    let lo = -hi;
    let delta = gen_range_i64(lo, hi);
    if delta >= 0 {
        match parts.base.checked_add(delta as usize) {
            Some(n) => Ok(n),
            None => Err(ParseFailure::Overflow),
        }
    } else {
        let m = (-delta) as usize;
        match parts.base.checked_sub(m) {
            Some(n) => Ok(n),
            None => Err(ParseFailure::Overflow),
        }
    }
}

/// If the integer digits alone are malformed or already overflow, the
/// combined, shifted numeral is rejected too.
proof fn lemma_combined_rejected(ip: Seq<char>, fp: Seq<char>, shift: nat)
    requires
        !(all_digits(ip) && ext_val(0, ip) <= usize::MAX),
    ensures
        !(all_digits(ip + fp) && digits_val(ip + fp) * pow10(shift) <= usize::MAX),
{
    assert((0 as nat) * pow10(ip.len()) == 0) by (nonlinear_arith);
    if all_digits(ip + fp) {
        assert forall|i: int| 0 <= i < ip.len() implies is_digit(#[trigger] ip[i]) by {
            assert(ip[i] == (ip + fp)[i]);
        }
        assert(digits_val(ip) > usize::MAX);
        lemma_digits_val_append(ip, fp);
        lemma_pow10_pos(fp.len());
        lemma_mul_inequality(1, pow10(fp.len()) as int, digits_val(ip) as int);
        lemma_mul_is_commutative(digits_val(ip) as int, pow10(fp.len()) as int);
        lemma_combined_overflow_rejected(ip + fp, shift);
    }
}

/// If the fraction digits are malformed, or extending the integer value by
/// them overflows, the combined, shifted numeral is rejected too.
proof fn lemma_combined_tail_rejected(ip: Seq<char>, fp: Seq<char>, shift: nat)
    requires
        all_digits(ip),
        !(all_digits(fp) && ext_val(digits_val(ip), fp) <= usize::MAX),
    ensures
        !(all_digits(ip + fp) && digits_val(ip + fp) * pow10(shift) <= usize::MAX),
{
    lemma_digits_val_append(ip, fp);
    if all_digits(fp) {
        assert(digits_val(ip + fp) > usize::MAX);
        lemma_combined_overflow_rejected(ip + fp, shift);
    } else {
        let i = choose|i: int| 0 <= i < fp.len() && !is_digit(fp[i]);
        assert((ip + fp)[ip.len() + i] == fp[i]);
        assert(!all_digits(ip + fp));
    }
}

/// A numeral whose value exceeds `usize::MAX` still exceeds it after the
/// left shift onto the unit's trailing positions.
proof fn lemma_combined_overflow_rejected(combined: Seq<char>, shift: nat)
    requires
        digits_val(combined) > usize::MAX,
    ensures
        digits_val(combined) * pow10(shift) > usize::MAX,
{
    lemma_pow10_pos(shift);
    lemma_mul_inequality(1, pow10(shift) as int, digits_val(combined) as int);
    lemma_mul_is_commutative(digits_val(combined) as int, pow10(shift) as int);
}

/// As above, for a read that starts from an empty accumulator.
proof fn lemma_zero_acc_overflow(s: Seq<char>, shift: nat)
    requires
        !(all_digits(s) && ext_val(0, s) <= usize::MAX),
    ensures
        !(all_digits(s) && digits_val(s) * pow10(shift) <= usize::MAX),
{
    assert((0 as nat) * pow10(s.len()) == 0) by (nonlinear_arith);
    if all_digits(s) {
        lemma_combined_overflow_rejected(s, shift);
    }
}

} // verus!

//! Laws the size resolver obeys over every input: renaming a character in
//! a way the grammar cannot distinguish never changes the outcome, and
//! resolution itself is a function of the input alone.

use crate::digits::is_digit;
use crate::size::{
    body_valid, is_sep, sep_index_from, spec_body, spec_outcome, spec_sep, spec_unit, unit_of_char,
    ParseFailure,
};
use vstd::prelude::*;

verus! {

/// `c` with an ASCII capital letter mapped to its lowercase form.
pub open spec fn ascii_lowercase_char(c: char) -> char {
    if 65 <= c as u32 <= 90 {
        ((c as u32 + 32) as char)
    } else {
        c
    }
}

/// `c` with the comma separator normalized to a dot.
pub open spec fn normalize_separator_char(c: char) -> char {
    if c == ',' {
        '.'
    } else {
        c
    }
}

/// The first separator is found at the same index after a map that
/// preserves what counts as a separator.
proof fn lemma_sep_index_map(b: Seq<char>, f: spec_fn(char) -> char, i: int)
    requires
        0 <= i,
        forall|c: char| is_sep(#[trigger] f(c)) == is_sep(c),
    ensures
        sep_index_from(b.map_values(f), i) == sep_index_from(b, i),
    decreases b.len() - i,
{
    let m = b.map_values(f);
    if i >= b.len() {
    } else {
        assert(m[i] == f(b[i]));
        if !is_sep(b[i]) {
            lemma_sep_index_map(b, f, i + 1);
        }
    }
}

/// Taking a prefix commutes with mapping each character.
proof fn lemma_map_take(x: Seq<char>, f: spec_fn(char) -> char, j: int)
    requires
        0 <= j <= x.len(),
    ensures
        x.map_values(f).take(j) =~= x.take(j).map_values(f),
{
    assert forall|k: int| 0 <= k < j implies x.map_values(f).take(j)[k] == x.take(j).map_values(
        f,
    )[k] by {
        assert(x.map_values(f).take(j)[k] == f(x[k]));
        assert(x.take(j)[k] == x[k]);
    }
}

/// Dropping a prefix commutes with mapping each character.
proof fn lemma_map_skip(x: Seq<char>, f: spec_fn(char) -> char, j: int)
    requires
        0 <= j <= x.len(),
    ensures
        x.map_values(f).skip(j) =~= x.skip(j).map_values(f),
{
    assert forall|k: int| 0 <= k < x.len() - j implies x.map_values(f).skip(j)[k] == x.skip(
        j,
    ).map_values(f)[k] by {
        assert(x.map_values(f).skip(j)[k] == f(x[j + k]));
        assert(x.skip(j)[k] == x[j + k]);
    }
}

/// Parsing is unchanged by any character map that fixes digits and
/// preserves separators and unit letters.
proof fn lemma_outcome_char_map(s: Seq<char>, f: spec_fn(char) -> char)
    requires
        forall|c: char| is_digit(#[trigger] f(c)) == is_digit(c),
        forall|c: char| is_digit(c) ==> #[trigger] f(c) == c,
        forall|c: char| is_sep(#[trigger] f(c)) == is_sep(c),
        forall|c: char| unit_of_char(#[trigger] f(c)) == unit_of_char(c),
    ensures
        spec_outcome(s.map_values(f)) == spec_outcome(s),
{
    let m = s.map_values(f);
    assert(m.len() == s.len());
    if s.len() > 0 {
        assert(m.last() == f(s.last()));
    }
    assert(spec_unit(m) == spec_unit(s));
    let b = spec_body(s);
    let bm = spec_body(m);
    assert(bm =~= b.map_values(f)) by {
        if s.len() > 0 && unit_of_char(s.last()) is Some {
            assert forall|k: int| 0 <= k < s.len() - 1 implies m.drop_last()[k] == f(
                b[k],
            ) by {
                assert(m[k] == f(s[k]));
            }
        }
    }
    assert(forall|k: int| 0 <= k < b.len() ==> bm[k] == f(#[trigger] b[k]));
    lemma_sep_index_map(b, f, 0);
    crate::size::lemma_sep_index_bounds(b, 0);
    let j = spec_sep(b);
    assert(spec_sep(bm) == j);
    if j >= 0 {
        let ti = b.take(j);
        let tf = b.skip(j + 1);
        let mi = bm.take(j);
        let mf = bm.skip(j + 1);
        lemma_map_take(b, f, j);
        lemma_map_skip(b, f, j + 1);
        assert(mi =~= ti.map_values(f));
        assert(mf =~= tf.map_values(f));
        lemma_digit_seq_map(ti, f);
        lemma_digit_seq_map(tf, f);
        assert(body_valid(bm) == body_valid(b));
        if body_valid(b) {
            assert(mi =~= ti && mf =~= tf) by {
                lemma_digit_seq_fixed(ti, f);
                lemma_digit_seq_fixed(tf, f);
            }
            assert(spec_outcome(m) == spec_outcome(s));
        }
    } else {
        lemma_digit_seq_map(b, f);
        assert(body_valid(bm) == body_valid(b));
        if body_valid(b) {
            lemma_digit_seq_fixed(b, f);
            assert(bm =~= b);
            assert(spec_outcome(m) == spec_outcome(s));
        }
    }
}

/// A digit-class-preserving map keeps a sequence's digit-only property.
proof fn lemma_digit_seq_map(x: Seq<char>, f: spec_fn(char) -> char)
    requires
        forall|c: char| is_digit(#[trigger] f(c)) == is_digit(c),
    ensures
        crate::digits::all_digits(x.map_values(f)) == crate::digits::all_digits(x),
{
    let xm = x.map_values(f);
    assert(forall|k: int| 0 <= k < x.len() ==> xm[k] == f(#[trigger] x[k]));
    if crate::digits::all_digits(x) {
        assert forall|k: int| 0 <= k < xm.len() implies is_digit(#[trigger] xm[k]) by {
            assert(xm[k] == f(x[k]));
        }
    } else {
        let k = choose|k: int| 0 <= k < x.len() && !is_digit(x[k]);
        assert(!is_digit(xm[k]));
    }
}

/// A map that fixes digits leaves a digit string unchanged.
proof fn lemma_digit_seq_fixed(x: Seq<char>, f: spec_fn(char) -> char)
    requires
        crate::digits::all_digits(x),
        forall|c: char| is_digit(c) ==> #[trigger] f(c) == c,
    ensures
        x.map_values(f) =~= x,
{
    assert forall|k: int| 0 <= k < x.len() implies x.map_values(f)[k] == x[k] by {
        assert(is_digit(x[k]));
    }
}

/// Lowercasing the input never changes the outcome: the grammar reads
/// `k`, `m` and `g` case-insensitively and touches no other letter.
pub proof fn lemma_case_insensitive(s: Seq<char>)
    ensures
        spec_outcome(s.map_values(|c: char| ascii_lowercase_char(c))) == spec_outcome(s),
{
    let f = |c: char| ascii_lowercase_char(c);
    assert forall|c: char| is_digit(#[trigger] f(c)) == is_digit(c) by {
        lemma_lowercase_char_facts(c);
    }
    assert forall|c: char| is_digit(c) implies #[trigger] f(c) == c by {
        lemma_lowercase_char_facts(c);
    }
    assert forall|c: char| is_sep(#[trigger] f(c)) == is_sep(c) by {
        lemma_lowercase_char_facts(c);
    }
    assert forall|c: char| unit_of_char(#[trigger] f(c)) == unit_of_char(c) by {
        lemma_lowercase_char_facts(c);
    }
    lemma_outcome_char_map(s, f);
}

/// Replacing each comma with a dot never changes the outcome: the grammar
/// accepts either as the decimal separator.
pub proof fn lemma_separator_equivalence(s: Seq<char>)
    ensures
        spec_outcome(s.map_values(|c: char| normalize_separator_char(c))) == spec_outcome(s),
{
    let f = |c: char| normalize_separator_char(c);
    assert forall|c: char| is_digit(#[trigger] f(c)) == is_digit(c) by {
        if c == ',' {
        }
    }
    lemma_outcome_char_map(s, f);
}

/// What lowercasing does to each character class of the grammar.
proof fn lemma_lowercase_char_facts(c: char)
    ensures
        is_digit(ascii_lowercase_char(c)) == is_digit(c),
        is_digit(c) ==> ascii_lowercase_char(c) == c,
        is_sep(ascii_lowercase_char(c)) == is_sep(c),
        unit_of_char(ascii_lowercase_char(c)) == unit_of_char(c),
{
    if 65 <= c as u32 <= 90 {
        let l = ascii_lowercase_char(c);
        assert(l as u32 == c as u32 + 32);
        if c as u32 == 75 {
            assert(l == 'k');
        } else if c as u32 == 77 {
            assert(l == 'm');
        } else if c as u32 == 71 {
            assert(l == 'g');
        } else {
            assert(l != 'k' && l != 'm' && l != 'g');
            assert(l != 'K' && l != 'M' && l != 'G');
        }
    }
}

/// Resolution consumes no randomness when the deviation window is empty:
/// the outcome is a function of the input string alone, so any two results
/// that satisfy it on the same input agree.
pub proof fn lemma_resolution_deterministic(
    s: Seq<char>,
    r1: Result<(nat, nat), ParseFailure>,
    r2: Result<(nat, nat), ParseFailure>,
)
    requires
        r1 == spec_outcome(s),
        r2 == spec_outcome(s),
    ensures
        r1 == r2,
{
}

} // verus!

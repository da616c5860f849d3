//! Conditions of database macro and command variants: the arg-count form
//! (`1 arg`, `2 args`, `3 arg(s)`) is recognised here; other conditions are C
//! expressions evaluated by the caller.

use vstd::prelude::*;

use crate::database::ParamDef;
use crate::text::{all_digits, digits_value, is_ascii_digit, str_chars};

verus! {

/// A variant condition could not be evaluated.
#[derive(Debug, Clone, Copy)]
pub struct MacroConditionEvalError;

/// What the first capture group of the regular expression `pattern` matches
/// in `text` (`regex::Regex::captures`), `None` when there is no match or the
/// pattern is invalid.
pub uninterp spec fn regex_first_group(pattern: Seq<char>, text: Seq<char>) -> Option<Seq<char>>;

/// `regex::Regex::new(pattern)` and the first capture group of its first
/// match in `text`. The result is a function of the two strings, named
/// `regex_first_group`; regular-expression semantics are not restated here.
#[verifier::external_body]
fn first_capture(pattern: &str, text: &str) -> (r: Option<String>)
    ensures
        match regex_first_group(pattern@, text@) {
            Some(g) => r matches Some(s) && s@ == g,
            None => r is None,
        },
{
    match regex::Regex::new(pattern) {
        Ok(re) => match re.captures(text) {
            Some(caps) => caps.get(1).map(|m| m.as_str().to_string()),
            None => None,
        },
        Err(_) => None,
    }
}

/// What `str::parse::<usize>` gives on a string of decimal digits, or 0 when
/// it fails (a digit outside ASCII, or a value above `usize::MAX`).
pub open spec fn usize_or_zero(d: Seq<char>) -> nat {
    if d.len() > 0 && all_digits(d) && digits_value(d, 10) <= usize::MAX {
        digits_value(d, 10) as nat
    } else {
        0
    }
}

/// The pattern of arg-count conditions: digits, whitespace, then `arg`,
/// `args` or `arg(s)`.
pub open spec fn arg_count_pattern() -> Seq<char> {
    "^(\\d+)\\s+args?\\(?s?\\)?$"@
}

/// The number of arguments an arg-count condition such as `2 args` names,
/// or `None` when `condition` is not of that form.
pub fn arg_count_condition(condition: &str) -> (r: Option<usize>)
    ensures
        match regex_first_group(arg_count_pattern(), condition@) {
            Some(d) => r == Some(usize_or_zero(d) as usize),
            None => r is None,
        },
{
    match first_capture("^(\\d+)\\s+args?\\(?s?\\)?$", condition) {
        Some(digits) => Some(parse_usize_or_zero(digits.as_str())),
        None => None,
    }
}

fn parse_usize_or_zero(s: &str) -> (r: usize)
    ensures
        r == usize_or_zero(s@),
{
    let d = str_chars(s);
    if d.len() == 0 {
        return 0;
    }
    let mut acc: usize = 0;
    let mut i: usize = 0;
    while i < d.len()
        invariant
            i <= d@.len(),
            d@ == s@,
            d@.len() > 0,
            all_digits(d@.take(i as int)),
            acc == digits_value(d@.take(i as int), 10),
        decreases d.len() - i,
    {
        assert(d@.take(i + 1).drop_last() =~= d@.take(i as int));
        if !is_ascii_digit(d[i]) {
            assert(!all_digits(s@)) by {
                assert(!crate::text::spec_is_digit(s@[i as int]));
            }
            return 0;
        }
        let digit = (d[i] as u32 - 48) as usize;
        match acc.checked_mul(10) {
            Some(m) => match m.checked_add(digit) {
                Some(v) => {
                    acc = v;
                },
                None => {
                    proof {
                        lemma_digits_prefix_bound(d@, (i + 1) as int);
                    }
                    return 0;
                },
            },
            None => {
                proof {
                    lemma_digits_prefix_bound(d@, (i + 1) as int);
                }
                return 0;
            },
        }
        i = i + 1;
        assert(all_digits(d@.take(i as int))) by {
            assert forall|j: int| 0 <= j < i implies crate::text::spec_is_digit(#[trigger] d@.take(i as int)[j]) by {
                if j < i - 1 {
                    assert(d@.take(i as int)[j] == d@.take(i - 1)[j]);
                }
            }
        }
    }
    assert(d@.take(d@.len() as int) =~= d@);
    acc
}

/// A digit string is worth at least any prefix of it.
proof fn lemma_digits_prefix_bound(d: Seq<char>, k: int)
    requires
        0 <= k <= d.len(),
        all_digits(d.take(k)),
    ensures
        all_digits(d) ==> digits_value(d, 10) >= digits_value(d.take(k), 10),
{
    if all_digits(d) {
        assert(crate::text::all_hex_digits(d)) by {
            assert forall|j: int| 0 <= j < d.len() implies crate::text::spec_is_hex_digit(#[trigger] d[j]) by {
                assert(crate::text::spec_is_digit(d[j]));
            }
        }
        crate::text::lemma_digits_value_monotone(d, 10, k);
    }
}


/// The names a condition expression may use for a call's arguments: each
/// parameter name paired with the integer its argument resolved to, in
/// parameter order; parameters without an argument, or whose argument did
/// not resolve, are left out.
pub open spec fn spec_condition_bindings(arg_values: Seq<Option<i32>>, params: Seq<ParamDef>) -> Seq<(Seq<char>, i64)>
    decreases params.len(),
{
    if params.len() == 0 {
        Seq::empty()
    } else {
        let k = params.len() - 1;
        let rest = spec_condition_bindings(arg_values, params.drop_last());
        if k < arg_values.len() && arg_values[k] is Some {
            rest.push((params[k].name@, arg_values[k]->0 as i64))
        } else {
            rest
        }
    }
}

/// Pairs each parameter name with the resolved value of its argument, for
/// the evaluation of a variant condition: see `spec_condition_bindings`.
pub fn condition_bindings(arg_values: &[Option<i32>], params: &[ParamDef]) -> (r: Vec<(String, i64)>)
    ensures
        r@.map_values(|b: (String, i64)| (b.0@, b.1)) == spec_condition_bindings(arg_values@, params@),
{
    let mut out: Vec<(String, i64)> = Vec::new();
    let mut i: usize = 0;
    while i < params.len()
        invariant
            i <= params@.len(),
            out@.map_values(|b: (String, i64)| (b.0@, b.1)) == spec_condition_bindings(arg_values@, params@.take(i as int)),
        decreases params.len() - i,
    {
        assert(params@.take(i + 1).drop_last() =~= params@.take(i as int));
        let ghost prev = out@;
        if i < arg_values.len() {
            match arg_values[i] {
                Some(v) => {
                    out.push((params[i].name.clone(), v as i64));
                    assert(out@.map_values(|b: (String, i64)| (b.0@, b.1)) =~= prev.map_values(
                        |b: (String, i64)| (b.0@, b.1),
                    ).push((params@[i as int].name@, v as i64)));
                },
                None => {},
            }
        }
        i = i + 1;
    }
    assert(params@.take(params@.len() as int) =~= params@);
    out
}

} // verus!

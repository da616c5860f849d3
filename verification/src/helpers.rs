//! Small shared helpers: number parsing and rendering for script text, and
//! enum-name lookup for parameters.

use vstd::prelude::*;

use crate::text::{
    chars_to_string, concat, concat3, hex_padded, i32_to_string, int_to_decimal, is_prefix,
    lemma_nat_digits_read_back, nat_to_decimal, nat_to_hex, parse_i32, parse_i32_spec,
    signed_digits, spec_is_digit, spec_is_hex_digit, str_chars, str_eq, u64_to_hex_padded,
};

verus! {

/// Which way a tool runs: text to binary, or binary to text.
#[derive(Debug, Clone, Copy, PartialEq, Eq)]
pub enum Directive {
    Assemble,
    Disassemble,
}

/// `s` with every leading `"0x"` removed (`str::trim_start_matches("0x")`).
pub open spec fn strip_hex_prefixes(s: Seq<char>) -> Seq<char>
    decreases s.len(),
{
    if s.len() >= 2 && s[0] == '0' && s[1] == 'x' {
        strip_hex_prefixes(s.subrange(2, s.len() as int))
    } else {
        s
    }
}

/// The message of a number that does not parse.
pub open spec fn bad_number_message(hex: bool, s: Seq<char>) -> Seq<char> {
    if hex {
        "Invalid hex number: '"@ + s + "'"@
    } else {
        "Invalid decimal number: '"@ + s + "'"@
    }
}

/// What `number_from_str` gives: a `0x` literal is read as hexadecimal
/// (after every leading `0x`), anything else as decimal.
pub open spec fn number_from_str_spec(s: Seq<char>) -> Result<int, Seq<char>> {
    if is_prefix("0x"@, s) {
        match parse_i32_spec(strip_hex_prefixes(s), 16) {
            Some(v) => Ok(v),
            None => Err(bad_number_message(true, s)),
        }
    } else {
        match parse_i32_spec(s, 10) {
            Some(v) => Ok(v),
            None => Err(bad_number_message(false, s)),
        }
    }
}

fn strip_hex_prefix_chars(s: &Vec<char>) -> (r: Vec<char>)
    ensures
        r@ == strip_hex_prefixes(s@),
{
    let mut start: usize = 0;
    assert(s@.subrange(0, s@.len() as int) =~= s@);
    while s.len() - start >= 2 && s[start] == '0' && s[start + 1] == 'x'
        invariant
            start <= s@.len(),
            strip_hex_prefixes(s@) == strip_hex_prefixes(s@.subrange(start as int, s@.len() as int)),
        decreases s.len() - start,
    {
        let ghost t = s@.subrange(start as int, s@.len() as int);
        assert(t.subrange(2, t.len() as int) =~= s@.subrange(start + 2, s@.len() as int));
        start = start + 2;
    }
    let mut out: Vec<char> = Vec::new();
    let mut i: usize = start;
    while i < s.len()
        invariant
            start <= i <= s@.len(),
            out@ == s@.subrange(start as int, i as int),
        decreases s.len() - i,
    {
        out.push(s[i]);
        i = i + 1;
        assert(out@ =~= s@.subrange(start as int, i as int));
    }
    out
}

/// Reads a number of script text: `0x` followed by hexadecimal digits, or a
/// decimal number, either with an optional sign.
pub fn number_from_str(s: &str) -> (r: Result<i32, String>)
    ensures
        match number_from_str_spec(s@) {
            Ok(v) => r == Ok::<i32, String>(v as i32),
            Err(m) => r matches Err(e) && e@ == m,
        },
{
    let chars = str_chars(s);
    proof {
        reveal_strlit("0x");
    }
    if chars.len() >= 2 && chars[0] == '0' && chars[1] == 'x' {
        assert(s@.take(2) =~= "0x"@);
        let digits = strip_hex_prefix_chars(&chars);
        match parse_i32(&digits, 16) {
            Some(v) => Ok(v),
            None => Err(concat3("Invalid hex number: '", s, "'")),
        }
    } else {
        assert(!is_prefix("0x"@, s@)) by {
            if is_prefix("0x"@, s@) {
                assert(s@.take(2)[0] == '0');
                assert(s@.take(2)[1] == 'x');
            }
        }
        match parse_i32(&chars, 10) {
            Some(v) => Ok(v),
            None => Err(concat3("Invalid decimal number: '", s, "'")),
        }
    }
}

/// How script text writes a number: above `0x4000` in upper-case hexadecimal
/// with a `0x` prefix, otherwise in decimal.
pub open spec fn number_text(n: int) -> Seq<char> {
    if n > 0x4000 {
        "0x"@ + nat_to_hex(n as nat)
    } else {
        int_to_decimal(n)
    }
}

/// Renders a number as script text writes it.
pub fn number_to_str(num: &i32) -> (r: String)
    ensures
        r@ == number_text(*num as int),
{
    if *num > 0x4000 {
        let hex = u64_to_hex_padded(*num as u64, 0);
        concat("0x", hex.as_str())
    } else {
        i32_to_string(*num)
    }
}

/// A number written as script text (`number_to_str`) reads back
/// (`number_from_str`) as the same number.
pub proof fn lemma_number_text_round_trip(n: i32)
    ensures
        number_from_str_spec(number_text(n as int)) == Ok::<int, Seq<char>>(n as int),
{
    reveal_strlit("0x");
    let px = "0x"@;
    if n > 0x4000 {
        let d = nat_to_hex(n as nat);
        lemma_nat_digits_read_back(n as nat, 16);
        let s = px + d;
        assert(s.take(2) =~= px);
        assert(s.subrange(2, s.len() as int) =~= d);
        assert(strip_hex_prefixes(s) == strip_hex_prefixes(d));
        assert(spec_is_hex_digit(d[0]));
        if d.len() >= 2 {
            assert(spec_is_hex_digit(d[1]));
        }
        assert(strip_hex_prefixes(d) == d);
        assert(signed_digits(d) == d);
    } else if n >= 0 {
        let d = nat_to_decimal(n as nat);
        lemma_nat_digits_read_back(n as nat, 10);
        assert(spec_is_digit(d[0]));
        if d.len() >= 2 {
            assert(spec_is_digit(d[1]));
            assert(d.take(2)[1] == d[1]);
        }
        assert(!is_prefix(px, d));
        assert(signed_digits(d) == d);
    } else {
        let m = (-(n as int)) as nat;
        let d = nat_to_decimal(m);
        lemma_nat_digits_read_back(m, 10);
        let s = seq!['-'] + d;
        assert(s[0] == '-');
        assert(!is_prefix(px, s)) by {
            if is_prefix(px, s) {
                assert(s.take(2)[0] == s[0]);
            }
        }
        assert(signed_digits(s) =~= d);
        assert(number_text(n as int) == s);
    }
}

/// The value stored under the first entry whose key is `key`.
pub open spec fn lookup_first(entries: Seq<(String, String)>, key: Seq<char>) -> Option<Seq<char>>
    decreases entries.len(),
{
    if entries.len() == 0 {
        None
    } else if entries[0].0@ == key {
        Some(entries[0].1@)
    } else {
        lookup_first(entries.subrange(1, entries.len() as int), key)
    }
}

/// The key under which a parameter's enum name may be stored in hexadecimal
/// form: `0x` and at least four upper-case hex digits of its 32-bit pattern.
pub open spec fn hex_key(parameter: i32) -> Seq<char> {
    "0x"@ + hex_padded((parameter as u32) as nat, 4)
}

/// What `format_parameter_enum` gives: the name stored under the decimal
/// form of the parameter, else the one stored under its hexadecimal form,
/// else the number itself.
pub open spec fn parameter_enum_text(entries: Seq<(String, String)>, parameter: i32) -> Seq<char> {
    match lookup_first(entries, int_to_decimal(parameter as int)) {
        Some(name) => name,
        None => match lookup_first(entries, hex_key(parameter)) {
            Some(name) => name,
            None => number_text(parameter as int),
        },
    }
}

fn find_value(entries: &Vec<(String, String)>, key: &str) -> (r: Option<String>)
    ensures
        match lookup_first(entries@, key@) {
            Some(v) => r matches Some(x) && x@ == v,
            None => r is None,
        },
{
    let mut i: usize = 0;
    assert(entries@.subrange(0, entries@.len() as int) =~= entries@);
    while i < entries.len()
        invariant
            i <= entries@.len(),
            lookup_first(entries@, key@) == lookup_first(
                entries@.subrange(i as int, entries@.len() as int),
                key@,
            ),
        decreases entries.len() - i,
    {
        let ghost rest = entries@.subrange(i as int, entries@.len() as int);
        assert(rest[0] == entries@[i as int]);
        if str_eq(entries[i].0.as_str(), key) {
            return Some(string_copy(&entries[i].1));
        }
        assert(rest.subrange(1, rest.len() as int) =~= entries@.subrange(
            i + 1,
            entries@.len() as int,
        ));
        i = i + 1;
    }
    None
}

fn string_copy(s: &String) -> (r: String)
    ensures
        r@ == s@,
{
    let c = str_chars(s.as_str());
    chars_to_string(&c)
}

/// Names a parameter by the enum entries `entries` (pairs of key and name):
/// by its decimal form, else by its hexadecimal form, else the number itself.
pub fn format_parameter_enum(entries: &Vec<(String, String)>, parameter: i32) -> (r: String)
    ensures
        r@ == parameter_enum_text(entries@, parameter),
{
    let decimal = i32_to_string(parameter);
    match find_value(entries, decimal.as_str()) {
        Some(name) => name,
        None => {
            let hex = u64_to_hex_padded((parameter as u32) as u64, 4);
            let key = concat("0x", hex.as_str());
            match find_value(entries, key.as_str()) {
                Some(name) => name,
                None => number_to_str(&parameter),
            }
        },
    }
}

} // verus!

//! Character and text utilities shared by the lexer, the formatters and the
//! binary decoders: ASCII classification, UTF-8/UTF-16 widths, decimal and
//! hexadecimal rendering and parsing.

use vstd::prelude::*;

verus! {

// ---------------------------------------------------------------------------
// Character classes
// ---------------------------------------------------------------------------

/// Whether `c` is an ASCII decimal digit.
pub open spec fn spec_is_digit(c: char) -> bool {
    '0' <= c && c <= '9'
}

/// Whether `c` is an ASCII hexadecimal digit (either case).
pub open spec fn spec_is_hex_digit(c: char) -> bool {
    ||| spec_is_digit(c)
    ||| ('a' <= c && c <= 'f')
    ||| ('A' <= c && c <= 'F')
}

/// Whether `c` is an ASCII upper-case letter.
pub open spec fn spec_is_upper(c: char) -> bool {
    'A' <= c && c <= 'Z'
}

/// Whether `c` is an ASCII lower-case letter.
pub open spec fn spec_is_lower(c: char) -> bool {
    'a' <= c && c <= 'z'
}

/// ASCII lower-casing of one character; other characters are unchanged.
pub open spec fn spec_to_lower(c: char) -> char {
    if spec_is_upper(c) {
        ((c as int) + 32) as char
    } else {
        c
    }
}

/// ASCII upper-casing of one character; other characters are unchanged.
pub open spec fn spec_to_upper(c: char) -> char {
    if spec_is_lower(c) {
        ((c as int) - 32) as char
    } else {
        c
    }
}

/// ASCII lower-casing of a whole character sequence.
pub open spec fn seq_to_lower(s: Seq<char>) -> Seq<char> {
    s.map_values(|c: char| spec_to_lower(c))
}

/// ASCII upper-casing of a whole character sequence.
pub open spec fn seq_to_upper(s: Seq<char>) -> Seq<char> {
    s.map_values(|c: char| spec_to_upper(c))
}

/// Number of bytes of the UTF-8 encoding of `c`.
pub open spec fn utf8_width(c: char) -> nat {
    if (c as int) < 0x80 {
        1
    } else if (c as int) < 0x800 {
        2
    } else if (c as int) < 0x10000 {
        3
    } else {
        4
    }
}

/// Number of UTF-16 code units of `c`.
pub open spec fn utf16_width(c: char) -> nat {
    if (c as int) < 0x10000 {
        1
    } else {
        2
    }
}

/// Number of bytes of the UTF-8 encoding of a character sequence.
pub open spec fn utf8_len(s: Seq<char>) -> nat
    decreases s.len(),
{
    if s.len() == 0 {
        0
    } else {
        utf8_len(s.drop_last()) + utf8_width(s.last())
    }
}

/// Number of UTF-16 code units of a character sequence.
pub open spec fn utf16_len(s: Seq<char>) -> nat
    decreases s.len(),
{
    if s.len() == 0 {
        0
    } else {
        utf16_len(s.drop_last()) + utf16_width(s.last())
    }
}

/// Returns true when `c` is an ASCII decimal digit.
pub fn is_ascii_digit(c: char) -> (r: bool)
    ensures
        r == spec_is_digit(c),
{
    '0' <= c && c <= '9'
}

/// Returns true when `c` is an ASCII hexadecimal digit.
pub fn is_ascii_hexdigit(c: char) -> (r: bool)
    ensures
        r == spec_is_hex_digit(c),
{
    ('0' <= c && c <= '9') || ('a' <= c && c <= 'f') || ('A' <= c && c <= 'F')
}

/// ASCII lower-casing of one character.
pub fn to_lower(c: char) -> (r: char)
    ensures
        r == spec_to_lower(c),
{
    if 'A' <= c && c <= 'Z' {
        let b: u32 = c as u32;
        ((b + 32) as u8) as char
    } else {
        c
    }
}

/// ASCII upper-casing of one character.
pub fn to_upper(c: char) -> (r: char)
    ensures
        r == spec_to_upper(c),
{
    if 'a' <= c && c <= 'z' {
        let b: u32 = c as u32;
        ((b - 32) as u8) as char
    } else {
        c
    }
}

/// Number of bytes of the UTF-8 encoding of `c`.
pub fn len_utf8(c: char) -> (r: usize)
    ensures
        r == utf8_width(c),
        1 <= r <= 4,
{
    let v: u32 = c as u32;
    if v < 0x80 {
        1
    } else if v < 0x800 {
        2
    } else if v < 0x10000 {
        3
    } else {
        4
    }
}

/// Number of UTF-16 code units of `c`.
pub fn len_utf16(c: char) -> (r: usize)
    ensures
        r == utf16_width(c),
        1 <= r <= 2,
{
    let v: u32 = c as u32;
    if v < 0x10000 {
        1
    } else {
        2
    }
}

/// ASCII lower-casing of a character slice.
pub fn chars_to_lower(s: &[char]) -> (r: Vec<char>)
    ensures
        r@ == seq_to_lower(s@),
{
    let mut v: Vec<char> = Vec::new();
    for i in 0..s.len()
        invariant
            v@ == seq_to_lower(s@.take(i as int)),
    {
        v.push(to_lower(s[i]));
        assert(seq_to_lower(s@.take(i + 1)) =~= seq_to_lower(s@.take(i as int)).push(
            spec_to_lower(s@[i as int]),
        ));
    }
    assert(s@.take(s.len() as int) =~= s@);
    v
}

/// ASCII upper-casing of a character slice.
pub fn chars_to_upper(s: &[char]) -> (r: Vec<char>)
    ensures
        r@ == seq_to_upper(s@),
{
    let mut v: Vec<char> = Vec::new();
    for i in 0..s.len()
        invariant
            v@ == seq_to_upper(s@.take(i as int)),
    {
        v.push(to_upper(s[i]));
        assert(seq_to_upper(s@.take(i + 1)) =~= seq_to_upper(s@.take(i as int)).push(
            spec_to_upper(s@[i as int]),
        ));
    }
    assert(s@.take(s.len() as int) =~= s@);
    v
}

// ---------------------------------------------------------------------------
// Strings
// ---------------------------------------------------------------------------

/// The characters of a string slice.
pub fn str_chars(s: &str) -> (r: Vec<char>)
    ensures
        r@ == s@,
{
    let mut v: Vec<char> = Vec::new();
    for c in it: s.chars()
        invariant
            v@ == it.seq().take(it.index() as int),
    {
        v.push(c);
    }
    proof {
        broadcast use vstd::string::group_string_axioms;

    }
    assert(v@ == s@);
    v
}

/// Appends one character to a string (`String::push`).
#[verifier::external_body]
pub(crate) fn push_char(s: &mut String, c: char)
    ensures
        final(s)@ == old(s)@.push(c),
{
    s.push(c);
}

/// A fresh string holding a copy of `s`.
pub fn string_from(s: &str) -> (r: String)
    ensures
        r@ == s@,
{
    String::from_str(s)
}

/// Builds a string from a character slice.
pub fn chars_to_string(v: &[char]) -> (r: String)
    ensures
        r@ == v@,
{
    let mut s = String::new();
    for i in 0..v.len()
        invariant
            s@ == v@.take(i as int),
    {
        push_char(&mut s, v[i]);
        assert(v@.take(i + 1) =~= v@.take(i as int).push(v@[i as int]));
    }
    assert(v@.take(v.len() as int) =~= v@);
    s
}

/// Concatenation of two string views into a fresh string.
pub fn concat(a: &str, b: &str) -> (r: String)
    ensures
        r@ == a@ + b@,
{
    let mut s = String::from_str(a);
    s.append(b);
    s
}

/// Concatenation of three string views into a fresh string.
pub fn concat3(a: &str, b: &str, c: &str) -> (r: String)
    ensures
        r@ == a@ + b@ + c@,
{
    let mut s = String::from_str(a);
    s.append(b);
    s.append(c);
    s
}

/// Character-wise equality of two string slices.
pub fn str_eq(a: &str, b: &str) -> (r: bool)
    ensures
        r == (a@ == b@),
{
    let x = str_chars(a);
    let y = str_chars(b);
    chars_eq(&x, &y)
}

/// Element-wise equality of two character slices.
pub fn chars_eq(a: &[char], b: &[char]) -> (r: bool)
    ensures
        r == (a@ == b@),
{
    if a.len() != b.len() {
        return false;
    }
    let mut i: usize = 0;
    while i < a.len()
        invariant
            a.len() == b.len(),
            i <= a.len(),
            forall|j: int| 0 <= j < i ==> a@[j] == b@[j],
        decreases a.len() - i,
    {
        if a[i] != b[i] {
            return false;
        }
        i = i + 1;
    }
    assert(a@ =~= b@);
    true
}

/// Whether `p` is a prefix of `s`.
pub open spec fn is_prefix(p: Seq<char>, s: Seq<char>) -> bool {
    p.len() <= s.len() && s.take(p.len() as int) == p
}

/// Whether `p` is a prefix of `s` (character-wise).
pub fn starts_with(s: &[char], p: &[char]) -> (r: bool)
    ensures
        r == is_prefix(p@, s@),
{
    if p.len() > s.len() {
        return false;
    }
    let mut i: usize = 0;
    while i < p.len()
        invariant
            p.len() <= s.len(),
            i <= p.len(),
            forall|j: int| 0 <= j < i ==> s@[j] == p@[j],
        decreases p.len() - i,
    {
        if s[i] != p[i] {
            assert(s@.take(p.len() as int)[i as int] != p@[i as int]);
            return false;
        }
        i = i + 1;
    }
    assert(s@.take(p.len() as int) =~= p@);
    true
}

/// Whether `p` occurs as a contiguous part of `s`.
pub open spec fn contains_seq(s: Seq<char>, p: Seq<char>) -> bool {
    exists|k: int| 0 <= k <= s.len() - p.len() && #[trigger] s.subrange(k, k + p.len()) == p
}

/// Whether `p` occurs as a contiguous part of `s`.
pub fn contains_chars(s: &[char], p: &[char]) -> (r: bool)
    ensures
        r == contains_seq(s@, p@),
{
    if p.len() > s.len() {
        return false;
    }
    if p.len() == 0 {
        assert(s@.subrange(0int, 0int + p@.len()) =~= p@);
        return true;
    }
    let last = s.len() - p.len();
    let mut k: usize = 0;
    while k <= last
        invariant
            p.len() <= s.len(),
            p.len() > 0,
            last == s.len() - p.len(),
            k <= last + 1,
            forall|j: int| 0 <= j < k ==> #[trigger] s@.subrange(j, j + p.len()) != p@,
        decreases last + 1 - k,
    {
        let mut i: usize = 0;
        let mut same = true;
        while i < p.len()
            invariant
                k + p.len() <= s.len(),
                i <= p.len(),
                same ==> forall|j: int| 0 <= j < i ==> s@[k + j] == p@[j],
                !same ==> s@.subrange(k as int, k + p.len()) != p@,
            decreases p.len() - i,
        {
            if same && s[k + i] != p[i] {
                assert(s@.subrange(k as int, k + p.len())[i as int] != p@[i as int]);
                same = false;
            }
            i = i + 1;
        }
        if same {
            assert(s@.subrange(k as int, k + p.len()) =~= p@);
            return true;
        }
        k = k + 1;
    }
    assert forall|j: int| 0 <= j <= s.len() - p.len() implies #[trigger] s@.subrange(
        j,
        j + p.len(),
    ) != p@ by {}
    false
}

// ---------------------------------------------------------------------------
// Number rendering
// ---------------------------------------------------------------------------

/// The upper-case digit character for `d` (`0 <= d < 16`).
pub open spec fn digit_char(d: int) -> char {
    if d == 0 {
        '0'
    } else if d == 1 {
        '1'
    } else if d == 2 {
        '2'
    } else if d == 3 {
        '3'
    } else if d == 4 {
        '4'
    } else if d == 5 {
        '5'
    } else if d == 6 {
        '6'
    } else if d == 7 {
        '7'
    } else if d == 8 {
        '8'
    } else if d == 9 {
        '9'
    } else if d == 10 {
        'A'
    } else if d == 11 {
        'B'
    } else if d == 12 {
        'C'
    } else if d == 13 {
        'D'
    } else if d == 14 {
        'E'
    } else {
        'F'
    }
}

/// The digits of `n` in base `base` (most significant first, no leading zeros).
pub open spec fn nat_digits(n: nat, base: nat) -> Seq<char>
    recommends
        2 <= base <= 16,
    decreases n,
{
    if n < base || base < 2 {
        seq![digit_char(n as int)]
    } else {
        proof {
            assert(n / base < n) by (nonlinear_arith)
                requires
                    n >= base,
                    base >= 2,
            ;
        }
        nat_digits(n / base, base).push(digit_char((n % base) as int))
    }
}

/// Decimal rendering of a natural number.
pub open spec fn nat_to_decimal(n: nat) -> Seq<char> {
    nat_digits(n, 10)
}

/// Upper-case hexadecimal rendering of a natural number (no prefix).
pub open spec fn nat_to_hex(n: nat) -> Seq<char> {
    nat_digits(n, 16)
}

/// Decimal rendering of an integer, with a leading `-` for negatives.
pub open spec fn int_to_decimal(i: int) -> Seq<char> {
    if i < 0 {
        seq!['-'] + nat_to_decimal((-i) as nat)
    } else {
        nat_to_decimal(i as nat)
    }
}

/// `s` left-padded with `'0'` to at least `width` characters.
pub open spec fn pad_zeros(s: Seq<char>, width: nat) -> Seq<char> {
    if s.len() >= width {
        s
    } else {
        Seq::new((width - s.len()) as nat, |i: int| '0') + s
    }
}

/// Upper-case hexadecimal rendering of `n`, zero-padded to `width` digits.
pub open spec fn hex_padded(n: nat, width: nat) -> Seq<char> {
    pad_zeros(nat_to_hex(n), width)
}

/// The digit character for `d` in exec code.
pub fn digit_to_char(d: u64) -> (c: char)
    requires
        d < 16,
    ensures
        c == digit_char(d as int),
{
    if d == 0 {
        '0'
    } else if d == 1 {
        '1'
    } else if d == 2 {
        '2'
    } else if d == 3 {
        '3'
    } else if d == 4 {
        '4'
    } else if d == 5 {
        '5'
    } else if d == 6 {
        '6'
    } else if d == 7 {
        '7'
    } else if d == 8 {
        '8'
    } else if d == 9 {
        '9'
    } else if d == 10 {
        'A'
    } else if d == 11 {
        'B'
    } else if d == 12 {
        'C'
    } else if d == 13 {
        'D'
    } else if d == 14 {
        'E'
    } else {
        'F'
    }
}

/// Digits of `n` in base `base`.
pub fn u64_digits(n: u64, base: u64) -> (r: Vec<char>)
    requires
        2 <= base <= 16,
    ensures
        r@ == nat_digits(n as nat, base as nat),
        r@.len() >= 1,
    decreases n,
{
    if n < base {
        let mut v: Vec<char> = Vec::new();
        v.push(digit_to_char(n));
        assert(v@ =~= seq![digit_char(n as int)]);
        v
    } else {
        assert(n / base < n) by (nonlinear_arith)
            requires
                n >= base,
                base >= 2,
        ;
        let mut v = u64_digits(n / base, base);
        v.push(digit_to_char(n % base));
        v
    }
}

/// Decimal rendering of an `i64`.
pub fn i64_to_decimal(n: i64) -> (r: Vec<char>)
    requires
        n > i64::MIN,
    ensures
        r@ == int_to_decimal(n as int),
{
    if n < 0 {
        let m: u64 = (-n) as u64;
        let d = u64_digits(m, 10);
        let mut v: Vec<char> = Vec::new();
        v.push('-');
        let mut i: usize = 0;
        while i < d.len()
            invariant
                i <= d.len(),
                v@ == seq!['-'] + d@.take(i as int),
            decreases d.len() - i,
        {
            v.push(d[i]);
            assert(d@.take(i + 1) =~= d@.take(i as int).push(d@[i as int]));
            i = i + 1;
        }
        assert(d@.take(d.len() as int) =~= d@);
        v
    } else {
        u64_digits(n as u64, 10)
    }
}

/// Decimal rendering of an `i32` as a string (`i32::to_string`).
pub fn i32_to_string(n: i32) -> (r: String)
    ensures
        r@ == int_to_decimal(n as int),
{
    let v = i64_to_decimal(n as i64);
    chars_to_string(&v)
}

/// Decimal rendering of an `i64` as a string.
pub fn i64_to_string(n: i64) -> (r: String)
    requires
        n > i64::MIN,
    ensures
        r@ == int_to_decimal(n as int),
{
    let v = i64_to_decimal(n);
    chars_to_string(&v)
}

/// Decimal rendering of a `u64` as a string.
pub fn u64_to_string(n: u64) -> (r: String)
    ensures
        r@ == nat_to_decimal(n as nat),
{
    let v = u64_digits(n, 10);
    chars_to_string(&v)
}

/// Decimal rendering of a `usize` as a string.
pub fn usize_to_string(n: usize) -> (r: String)
    ensures
        r@ == nat_to_decimal(n as nat),
{
    u64_to_string(n as u64)
}

/// Upper-case hexadecimal rendering of `n`, zero-padded to `width` digits.
pub fn u64_to_hex_padded(n: u64, width: usize) -> (r: String)
    ensures
        r@ == hex_padded(n as nat, width as nat),
{
    let d = u64_digits(n, 16);
    let mut v: Vec<char> = Vec::new();
    if d.len() < width {
        let pad = width - d.len();
        let mut i: usize = 0;
        while i < pad
            invariant
                i <= pad,
                v@ == Seq::new(i as nat, |k: int| '0'),
            decreases pad - i,
        {
            v.push('0');
            assert(Seq::new((i + 1) as nat, |k: int| '0') =~= Seq::new(i as nat, |k: int| '0').push('0'));
            i = i + 1;
        }
    }
    let ghost prefix = v@;
    let mut i: usize = 0;
    while i < d.len()
        invariant
            i <= d.len(),
            v@ == prefix + d@.take(i as int),
        decreases d.len() - i,
    {
        v.push(d[i]);
        assert(d@.take(i + 1) =~= d@.take(i as int).push(d@[i as int]));
        i = i + 1;
    }
    assert(d@.take(d.len() as int) =~= d@);
    assert(v@ =~= hex_padded(n as nat, width as nat));
    chars_to_string(&v)
}

// ---------------------------------------------------------------------------
// Number parsing
// ---------------------------------------------------------------------------

/// Value of an ASCII digit in base 16 (decimal digits and both letter cases).
pub open spec fn hex_digit_value(c: char) -> int {
    if spec_is_digit(c) {
        (c as int) - ('0' as int)
    } else if 'a' <= c && c <= 'f' {
        (c as int) - ('a' as int) + 10
    } else {
        (c as int) - ('A' as int) + 10
    }
}

/// Value of a string of digits in base `base`.
pub open spec fn digits_value(s: Seq<char>, base: int) -> int
    decreases s.len(),
{
    if s.len() == 0 {
        0
    } else {
        digits_value(s.drop_last(), base) * base + hex_digit_value(s.last())
    }
}

/// All characters of `s` are decimal digits.
pub open spec fn all_digits(s: Seq<char>) -> bool {
    forall|i: int| 0 <= i < s.len() ==> spec_is_digit(#[trigger] s[i])
}

/// All characters of `s` are hexadecimal digits.
pub open spec fn all_hex_digits(s: Seq<char>) -> bool {
    forall|i: int| 0 <= i < s.len() ==> spec_is_hex_digit(#[trigger] s[i])
}

/// A digit character is a digit of its base and reads back as its value.
proof fn lemma_digit_char_value(d: int)
    requires
        0 <= d < 16,
    ensures
        spec_is_hex_digit(digit_char(d)),
        d < 10 ==> spec_is_digit(digit_char(d)),
        hex_digit_value(digit_char(d)) == d,
{
}

/// The digits of `n` in base 10 or 16 are digits of that base, and read
/// back as `n`.
pub proof fn lemma_nat_digits_read_back(n: nat, base: nat)
    requires
        base == 10 || base == 16,
    ensures
        nat_digits(n, base).len() >= 1,
        all_hex_digits(nat_digits(n, base)),
        base == 10 ==> all_digits(nat_digits(n, base)),
        digits_value(nat_digits(n, base), base as int) == n,
    decreases n,
{
    let s = nat_digits(n, base);
    if n < base {
        lemma_digit_char_value(n as int);
        assert(s.drop_last() =~= Seq::<char>::empty());
        assert(digits_value(s, base as int) == digits_value(s.drop_last(), base as int) * base
            + hex_digit_value(s.last()));
    } else {
        let q = n / base;
        let r = n % base;
        assert(q < n && n == q * base + r && 0 <= r < base) by (nonlinear_arith)
            requires
                n >= base,
                base >= 2,
                q == n / base,
                r == n % base,
        ;
        lemma_nat_digits_read_back(q, base);
        lemma_digit_char_value(r as int);
        let p = nat_digits(q, base);
        assert(s == p.push(digit_char(r as int)));
        assert(s.drop_last() =~= p);
        assert(s.last() == digit_char(r as int));
        assert(digits_value(s, base as int) == digits_value(p, base as int) * base
            + hex_digit_value(s.last()));
        assert forall|i: int| 0 <= i < s.len() implies spec_is_hex_digit(#[trigger] s[i]) by {
            if i < p.len() {
                assert(s[i] == p[i]);
            }
        }
        if base == 10 {
            assert forall|i: int| 0 <= i < s.len() implies spec_is_digit(#[trigger] s[i]) by {
                if i < p.len() {
                    assert(s[i] == p[i]);
                }
            }
        }
    }
}

/// The value of a digit string only grows as digits are appended.
pub proof fn lemma_digits_value_monotone(s: Seq<char>, base: int, k: int)
    requires
        2 <= base <= 16,
        all_hex_digits(s),
        0 <= k <= s.len(),
    ensures
        0 <= digits_value(s.take(k), base) <= digits_value(s, base),
    decreases s.len(),
{
    if s.len() == 0 {
        assert(s.take(k) =~= s);
    } else if k == s.len() {
        assert(s.take(k) =~= s);
        lemma_digits_value_nonneg(s, base);
    } else {
        let p = s.drop_last();
        assert(all_hex_digits(p)) by {
            assert forall|i: int| 0 <= i < p.len() implies spec_is_hex_digit(#[trigger] p[i]) by {
                assert(p[i] == s[i]);
            }
        }
        lemma_digits_value_monotone(p, base, k);
        assert(p.take(k) =~= s.take(k));
        lemma_digits_value_nonneg(p, base);
        assert(spec_is_hex_digit(s[s.len() - 1]));
        assert(digits_value(p, base) <= digits_value(p, base) * base) by (nonlinear_arith)
            requires
                digits_value(p, base) >= 0,
                base >= 2,
        ;
    }
}

/// Digit strings have non-negative values.
pub proof fn lemma_digits_value_nonneg(s: Seq<char>, base: int)
    requires
        2 <= base <= 16,
        all_hex_digits(s),
    ensures
        digits_value(s, base) >= 0,
    decreases s.len(),
{
    if s.len() > 0 {
        let p = s.drop_last();
        assert(all_hex_digits(p)) by {
            assert forall|i: int| 0 <= i < p.len() implies spec_is_hex_digit(#[trigger] p[i]) by {
                assert(p[i] == s[i]);
            }
        }
        lemma_digits_value_nonneg(p, base);
        assert(spec_is_hex_digit(s[s.len() - 1]));
        assert(digits_value(p, base) * base >= 0) by (nonlinear_arith)
            requires
                digits_value(p, base) >= 0,
                base >= 2,
        ;
    }
}

/// Value of one hexadecimal digit in exec code.
pub fn hex_digit_to_u32(c: char) -> (r: u32)
    requires
        spec_is_hex_digit(c),
    ensures
        r == hex_digit_value(c),
        r < 16,
{
    let v: u32 = c as u32;
    if '0' <= c && c <= '9' {
        v - 48
    } else if 'a' <= c && c <= 'f' {
        v - 87
    } else {
        v - 55
    }
}

/// Parses a string of digits in base `base` as an `i32`; `None` when the value
/// exceeds `i32::MAX` (`i32::from_str_radix` on a digit-only string).
pub fn parse_digits_i32(s: &[char], base: u32) -> (r: Option<i32>)
    requires
        base == 10 || base == 16,
        base == 10 ==> all_digits(s@),
        base == 16 ==> all_hex_digits(s@),
    ensures
        r matches Some(v) ==> v == digits_value(s@, base as int),
        r is None <==> digits_value(s@, base as int) > i32::MAX,
{
    assert(all_hex_digits(s@)) by {
        assert forall|i: int| 0 <= i < s@.len() implies spec_is_hex_digit(#[trigger] s@[i]) by {}
    }
    let mut acc: i64 = 0;
    let mut i: usize = 0;
    while i < s.len()
        invariant
            base == 10 || base == 16,
            all_hex_digits(s@),
            i <= s.len(),
            acc == digits_value(s@.take(i as int), base as int),
            0 <= acc <= i32::MAX,
        decreases s.len() - i,
    {
        let d = hex_digit_to_u32(s[i]);
        assert(s@.take(i + 1).drop_last() =~= s@.take(i as int));
        assert(acc * (base as i64) <= 0x7fff_ffff * 16) by (nonlinear_arith)
            requires
                0 <= acc <= 0x7fff_ffff,
                base <= 16,
        ;
        acc = acc * (base as i64) + (d as i64);
        i = i + 1;
        if acc > 0x7fff_ffff {
            proof {
                lemma_digits_value_monotone(s@, base as int, i as int);
            }
            return None;
        }
    }
    assert(s@.take(s.len() as int) =~= s@);
    Some(acc as i32)
}


/// The digits of an unsigned number literal: without its optional leading `+`.
pub open spec fn unsigned_digits(s: Seq<char>) -> Seq<char> {
    if s.len() > 0 && s[0] == '+' {
        s.subrange(1, s.len() as int)
    } else {
        s
    }
}

/// `d` is a non-empty string of digits in `base` (10 or 16).
pub open spec fn valid_digits(d: Seq<char>, base: int) -> bool {
    d.len() > 0 && if base == 16 {
        all_hex_digits(d)
    } else {
        all_digits(d)
    }
}

/// What parsing `s` as an unsigned integer in `base` with largest value
/// `max` gives (`str::parse` / `from_str_radix`): an optional `+`, then at
/// least one digit, and a value within range.
pub open spec fn parse_unsigned_spec(s: Seq<char>, base: int, max: int) -> Option<int> {
    let d = unsigned_digits(s);
    if valid_digits(d, base) && digits_value(d, base) <= max {
        Some(digits_value(d, base))
    } else {
        None
    }
}

/// Parses an unsigned integer as `str::parse` and `from_str_radix` do.
pub fn parse_unsigned(s: &[char], base: u32, max: u32) -> (r: Option<u32>)
    requires
        base == 10 || base == 16,
        max <= i32::MAX,
    ensures
        match parse_unsigned_spec(s@, base as int, max as int) {
            Some(v) => r == Some(v as u32),
            None => r is None,
        },
        r matches Some(x) ==> x <= max && parse_unsigned_spec(s@, base as int, max as int) == Some(
            x as int,
        ),
{
    let start: usize = if s.len() > 0 && s[0] == '+' {
        1
    } else {
        0
    };
    let mut d: Vec<char> = Vec::new();
    let mut i: usize = start;
    while i < s.len()
        invariant
            start <= i <= s@.len(),
            d@ == s@.subrange(start as int, i as int),
        decreases s.len() - i,
    {
        d.push(s[i]);
        i = i + 1;
        assert(d@ =~= s@.subrange(start as int, i as int));
    }
    assert(d@ =~= unsigned_digits(s@));
    if d.len() == 0 {
        return None;
    }
    let mut k: usize = 0;
    while k < d.len()
        invariant
            k <= d@.len(),
            d@ == unsigned_digits(s@),
            d@.len() > 0,
            base == 10 || base == 16,
            forall|j: int|
                0 <= j < k ==> (if base == 16 {
                    spec_is_hex_digit(#[trigger] d@[j])
                } else {
                    spec_is_digit(d@[j])
                }),
        decreases d.len() - k,
    {
        let ok = if base == 16 {
            is_ascii_hexdigit(d[k])
        } else {
            is_ascii_digit(d[k])
        };
        if !ok {
            return None;
        }
        k = k + 1;
    }
    assert(valid_digits(d@, base as int));
    assert(all_hex_digits(d@)) by {
        assert forall|j: int| 0 <= j < d@.len() implies spec_is_hex_digit(#[trigger] d@[j]) by {
            if base == 10 {
                assert(spec_is_digit(d@[j]));
            }
        }
    }
    proof {
        lemma_digits_value_nonneg(d@, base as int);
    }
    match parse_digits_i32(&d, base) {
        Some(v) => {
            if v as u32 <= max {
                Some(v as u32)
            } else {
                None
            }
        },
        None => None,
    }
}


/// The digits of a signed number literal: without its optional leading sign.
pub open spec fn signed_digits(s: Seq<char>) -> Seq<char> {
    if s.len() > 0 && (s[0] == '+' || s[0] == '-') {
        s.subrange(1, s.len() as int)
    } else {
        s
    }
}

/// What parsing `s` as an `i32` in `base` gives (`str::parse::<i32>` for
/// base 10, `i32::from_str_radix` for base 16): an optional sign, then at
/// least one digit, and a value within the range of `i32`.
pub open spec fn parse_i32_spec(s: Seq<char>, base: int) -> Option<int> {
    let d = signed_digits(s);
    let magnitude = digits_value(d, base);
    let v = if s.len() > 0 && s[0] == '-' {
        -magnitude
    } else {
        magnitude
    };
    if valid_digits(d, base) && i32::MIN <= v <= i32::MAX {
        Some(v)
    } else {
        None
    }
}

/// Parses a signed integer as `str::parse::<i32>` and `i32::from_str_radix` do.
pub fn parse_i32(s: &[char], base: u32) -> (r: Option<i32>)
    requires
        base == 10 || base == 16,
    ensures
        match parse_i32_spec(s@, base as int) {
            Some(v) => r == Some(v as i32),
            None => r is None,
        },
{
    let negative = s.len() > 0 && s[0] == '-';
    let start: usize = if s.len() > 0 && (s[0] == '+' || s[0] == '-') {
        1
    } else {
        0
    };
    let mut d: Vec<char> = Vec::new();
    let mut i: usize = start;
    while i < s.len()
        invariant
            start <= i <= s@.len(),
            d@ == s@.subrange(start as int, i as int),
        decreases s.len() - i,
    {
        d.push(s[i]);
        i = i + 1;
        assert(d@ =~= s@.subrange(start as int, i as int));
    }
    assert(d@ =~= signed_digits(s@));
    if d.len() == 0 {
        return None;
    }
    let mut k: usize = 0;
    while k < d.len()
        invariant
            k <= d@.len(),
            d@ == signed_digits(s@),
            base == 10 || base == 16,
            forall|j: int|
                0 <= j < k ==> (if base == 16 {
                    spec_is_hex_digit(#[trigger] d@[j])
                } else {
                    spec_is_digit(d@[j])
                }),
        decreases d.len() - k,
    {
        let ok = if base == 16 {
            is_ascii_hexdigit(d[k])
        } else {
            is_ascii_digit(d[k])
        };
        if !ok {
            assert(!valid_digits(d@, base as int)) by {
                if base == 16 {
                    assert(!spec_is_hex_digit(d@[k as int]));
                } else {
                    assert(!spec_is_digit(d@[k as int]));
                }
            }
            return None;
        }
        k = k + 1;
    }
    assert(valid_digits(d@, base as int));
    assert(all_hex_digits(d@)) by {
        assert forall|j: int| 0 <= j < d@.len() implies spec_is_hex_digit(#[trigger] d@[j]) by {
            if base == 10 {
                assert(spec_is_digit(d@[j]));
            }
        }
    }
    let mut acc: i64 = 0;
    let mut q: usize = 0;
    while q < d.len()
        invariant
            base == 10 || base == 16,
            all_hex_digits(d@),
            d@ == signed_digits(s@),
            q <= d@.len(),
            acc == digits_value(d@.take(q as int), base as int),
            0 <= acc <= 0x8000_0000,
        decreases d.len() - q,
    {
        let digit = hex_digit_to_u32(d[q]);
        assert(d@.take(q + 1).drop_last() =~= d@.take(q as int));
        assert(acc * (base as i64) <= 0x8000_0000 * 16) by (nonlinear_arith)
            requires
                0 <= acc <= 0x8000_0000,
                base <= 16,
        ;
        acc = acc * (base as i64) + (digit as i64);
        q = q + 1;
        if acc > 0x8000_0000 {
            proof {
                lemma_digits_value_monotone(d@, base as int, q as int);
            }
            return None;
        }
    }
    assert(d@.take(d@.len() as int) =~= d@);
    let v: i64 = if negative {
        -acc
    } else {
        acc
    };
    if v > 0x7fff_ffff {
        return None;
    }
    Some(v as i32)
}

} // verus!

verus! {

// ---------------------------------------------------------------------------
// Unicode classes
// ---------------------------------------------------------------------------

/// The result of `char::is_alphabetic` (Unicode `Alphabetic` property).
pub uninterp spec fn unicode_alphabetic(c: char) -> bool;

/// The result of `char::is_alphanumeric` (`Alphabetic` or `Numeric`).
pub uninterp spec fn unicode_alphanumeric(c: char) -> bool;

/// `char::is_alphabetic`: whether `c` has the Unicode `Alphabetic` property.
/// Its result is a function of `c` alone, named `unicode_alphabetic`; the
/// Unicode tables it consults are not restated here.
#[verifier::external_body]
pub(crate) fn is_alphabetic(c: char) -> (r: bool)
    ensures
        r == unicode_alphabetic(c),
{
    c.is_alphabetic()
}

/// `char::is_alphanumeric`: whether `c` is alphabetic or numeric in the
/// Unicode sense. Its result is a function of `c` alone, named
/// `unicode_alphanumeric`; the Unicode tables are not restated here.
#[verifier::external_body]
pub(crate) fn is_alphanumeric(c: char) -> (r: bool)
    ensures
        r == unicode_alphanumeric(c),
{
    c.is_alphanumeric()
}

/// Appending one character grows the UTF-8 length by its width.
pub proof fn lemma_utf8_len_push(s: Seq<char>, i: int)
    requires
        0 <= i < s.len(),
    ensures
        utf8_len(s.take(i + 1)) == utf8_len(s.take(i)) + utf8_width(s[i]),
{
    assert(s.take(i + 1).drop_last() =~= s.take(i));
}

/// The UTF-8 length of a prefix grows with the prefix.
pub proof fn lemma_utf8_len_mono(s: Seq<char>, i: int, j: int)
    requires
        0 <= i <= j <= s.len(),
    ensures
        utf8_len(s.take(i)) <= utf8_len(s.take(j)),
        utf8_len(s.take(j)) <= utf8_len(s),
{
    lemma_utf8_len_prefix(s, i, j);
    lemma_utf8_len_prefix(s, j, s.len() as int);
    assert(s.take(s.len() as int) =~= s);
}

proof fn lemma_utf8_len_prefix(s: Seq<char>, i: int, j: int)
    requires
        0 <= i <= j <= s.len(),
    ensures
        utf8_len(s.take(i)) <= utf8_len(s.take(j)),
    decreases j - i,
{
    if i < j {
        lemma_utf8_len_push(s, j - 1);
        lemma_utf8_len_prefix(s, i, j - 1);
    }
}


/// The result of `str::to_uppercase`: Unicode upper-casing, where one
/// character may become several.
pub uninterp spec fn unicode_uppercase(s: Seq<char>) -> Seq<char>;

/// `str::to_uppercase`: the Unicode upper case of `s`. Its result is a
/// function of `s` alone, named `unicode_uppercase`; the Unicode case tables
/// are not restated here.
#[verifier::external_body]
pub(crate) fn to_uppercase(s: &str) -> (r: String)
    ensures
        r@ == unicode_uppercase(s@),
{
    s.to_uppercase()
}

/// Whether `c` has the Unicode `White_Space` property, as
/// `char::is_whitespace` decides it: the 25 code points U+0009 to U+000D,
/// U+0020, U+0085, U+00A0, U+1680, U+2000 to U+200A, U+2028, U+2029,
/// U+202F, U+205F and U+3000.
pub open spec fn unicode_whitespace(c: char) -> bool {
    let v = c as u32;
    ||| 0x09 <= v <= 0x0D
    ||| v == 0x20
    ||| v == 0x85
    ||| v == 0xA0
    ||| v == 0x1680
    ||| 0x2000 <= v <= 0x200A
    ||| v == 0x2028
    ||| v == 0x2029
    ||| v == 0x202F
    ||| v == 0x205F
    ||| v == 0x3000
}

/// Whether `c` is white space (see `unicode_whitespace`).
pub fn is_whitespace(c: char) -> (r: bool)
    ensures
        r == unicode_whitespace(c),
{
    let v = c as u32;
    (0x09 <= v && v <= 0x0D) || v == 0x20 || v == 0x85 || v == 0xA0 || v == 0x1680 || (0x2000 <= v
        && v <= 0x200A) || v == 0x2028 || v == 0x2029 || v == 0x202F || v == 0x205F || v == 0x3000
}
} // verus!

//! The Rotom lexer: turns source text into [`Token`]s.
//!
//! Whitespace (spaces, tabs, carriage returns) and comments (`// ...` to the
//! end of the line, `/* ... */`) are skipped. Spans are byte offsets into the
//! UTF-8 source.

use vstd::prelude::*;

use super::token::{
    is_simple_tag, keyword_for_chars, keyword_tag, kv, lemma_tag_payload, segments_view, kv_num, kv_segments, kv_text, token_display, Token,
    TokenKindView, TokenType, T_AND, T_ARROW, T_ASSIGN, T_COLON, T_COMMA, T_DEFINE, T_DOT,
    T_DOUBLE_COLON, T_EOF, T_EQUAL, T_ERROR, T_GREATER_EQUAL, T_GREATER_THAN, T_HASH,
    T_IDENTIFIER, T_INCLUDE, T_LBRACKET, T_LESSER_EQUAL, T_LESSER_THAN, T_LPAREN, T_MINUS, T_MUL,
    T_NEWLINE, T_NOT, T_NOT_EQUAL, T_OR, T_PLUS, T_RBRACKET, T_RPAREN,
};
use crate::text::{
    all_digits, all_hex_digits, chars_to_string, concat, push_char, str_eq, digits_value, is_alphabetic, is_alphanumeric,
    is_ascii_digit, is_ascii_hexdigit, len_utf8, lemma_utf8_len_mono, lemma_utf8_len_push,
    parse_digits_i32, spec_is_digit, spec_is_hex_digit, str_chars, string_from,
    unicode_alphabetic, unicode_alphanumeric, utf8_len,
};

verus! {

// ---------------------------------------------------------------------------
// Character classes
// ---------------------------------------------------------------------------

/// Characters that may start an identifier.
pub open spec fn spec_ident_start(c: char) -> bool {
    unicode_alphabetic(c) || c == '_'
}

/// Characters that may continue an identifier.
pub open spec fn spec_ident_char(c: char) -> bool {
    unicode_alphanumeric(c) || c == '_' || c == '.' || c == '’' || c == '?'
}

/// Whether `c` may start an identifier.
pub fn is_identifier_start(c: char) -> (r: bool)
    ensures
        r == spec_ident_start(c),
{
    is_alphabetic(c) || c == '_'
}

/// Whether `c` can appear inside an identifier. This includes `.` because
/// local labels like `.start` are one word for editor tooling.
pub fn is_identifier_char(c: char) -> (r: bool)
    ensures
        r == spec_ident_char(c),
{
    is_alphanumeric(c) || c == '_' || c == '.' || c == '’' || c == '?'
}

// ---------------------------------------------------------------------------
// Specification of the token stream
// ---------------------------------------------------------------------------

/// Byte offset of character index `i`.
pub open spec fn byte_pos(s: Seq<char>, i: int) -> nat {
    utf8_len(s.take(i))
}

/// Index just past the first newline at or after `i` (or the end).
pub open spec fn line_end(s: Seq<char>, i: int) -> int
    decreases s.len() - i,
{
    if i >= s.len() || i < 0 {
        s.len() as int
    } else if s[i] == '\n' {
        i + 1
    } else {
        line_end(s, i + 1)
    }
}

/// Index just past the first `*/` starting at or after `i`, or `-1`.
pub open spec fn block_end(s: Seq<char>, i: int) -> int
    decreases s.len() - i,
{
    if i >= s.len() || i < 0 {
        -1
    } else if s[i] == '*' && i + 1 < s.len() && s[i + 1] == '/' {
        i + 2
    } else {
        block_end(s, i + 1)
    }
}

/// Where trivia skipping from `i` stops; `error` when a block comment is
/// unclosed (then `err_start` is where the comment begins).
pub struct Trivia {
    pub pos: int,
    pub error: bool,
    pub err_start: int,
}

/// Skips blanks and comments from `i`.
pub open spec fn skip_trivia(s: Seq<char>, i: int) -> Trivia
    decreases s.len() - i,
{
    if i >= s.len() || i < 0 {
        Trivia { pos: i, error: false, err_start: i }
    } else if s[i] == ' ' || s[i] == '\t' || s[i] == '\r' {
        skip_trivia(s, i + 1)
    } else if s[i] == '/' && i + 1 < s.len() && s[i + 1] == '/' {
        proof {
            lemma_line_end_bounds(s, i + 2);
        }
        skip_trivia(s, line_end(s, i + 2))
    } else if s[i] == '/' && i + 1 < s.len() && s[i + 1] == '*' {
        proof {
            lemma_block_end_bounds(s, i + 2);
        }
        if block_end(s, i + 2) >= 0 {
            skip_trivia(s, block_end(s, i + 2))
        } else {
            Trivia { pos: s.len() as int, error: true, err_start: i }
        }
    } else {
        Trivia { pos: i, error: false, err_start: i }
    }
}

/// End of the run of identifier characters starting at `i`.
pub open spec fn ident_end(s: Seq<char>, i: int) -> int
    decreases s.len() - i,
{
    if i >= s.len() || i < 0 || !spec_ident_char(s[i]) {
        i
    } else {
        ident_end(s, i + 1)
    }
}

/// End of the run of characters satisfying `digit` (decimal or hex) from `i`.
pub open spec fn digit_end(s: Seq<char>, i: int, hex: bool) -> int
    decreases s.len() - i,
{
    if i >= s.len() || i < 0 || !(if hex {
        spec_is_hex_digit(s[i])
    } else {
        spec_is_digit(s[i])
    }) {
        i
    } else {
        digit_end(s, i + 1, hex)
    }
}

/// End of the run of spaces and tabs starting at `i`.
pub open spec fn blank_end(s: Seq<char>, i: int) -> int
    decreases s.len() - i,
{
    if i >= s.len() || i < 0 || !(s[i] == ' ' || s[i] == '\t') {
        i
    } else {
        blank_end(s, i + 1)
    }
}

/// The kind of a word: its keyword, or an identifier.
pub open spec fn word_kind(w: Seq<char>) -> TokenKindView {
    match keyword_tag(w) {
        Some(t) => kv(t),
        None => kv_text(T_IDENTIFIER, w),
    }
}

/// The message `ParseIntError` gives for a value too large for `i32`.
pub open spec fn overflow_message() -> Seq<char> {
    "number too large to fit in target type"@
}

/// The kind of a number literal with the given digits.
pub open spec fn number_kind(digits: Seq<char>, base: int) -> TokenKindView {
    if digits_value(digits, base) > i32::MAX {
        kv_text(T_ERROR, overflow_message())
    } else {
        kv_num(digits_value(digits, base) as i32)
    }
}

/// Lexes a number literal whose first digit `first` has been read and whose
/// other characters follow from index `i`; returns the kind and the end index.
pub open spec fn lex_number_after(first: char, s: Seq<char>, i: int) -> (TokenKindView, int) {
    if first == '0' && 0 <= i < s.len() && s[i] == 'x' {
        let e = digit_end(s, i + 1, true);
        if e == i + 1 {
            (kv_text(T_ERROR, "Invalid hex literal"@), e)
        } else {
            (number_kind(s.subrange(i + 1, e), 16), e)
        }
    } else {
        let e = digit_end(s, i, false);
        if e + 1 < s.len() && s[e] == ':' && s[e + 1] == ':' {
            (kv_text(T_IDENTIFIER, seq![first] + s.subrange(i, e)), e)
        } else {
            (number_kind(seq![first] + s.subrange(i, e), 10), e)
        }
    }
}

/// Lexes a number literal whose first digit is at `p`; returns the kind and
/// the end index.
pub open spec fn lex_number(s: Seq<char>, p: int) -> (TokenKindView, int) {
    lex_number_after(s[p], s, p + 1)
}

/// Replaces the text of the last segment by `text + extra`.
pub open spec fn extend_last(segs: Seq<(Seq<char>, usize)>, extra: Seq<char>) -> Seq<
    (Seq<char>, usize),
> {
    segs.update(segs.len() - 1, (segs.last().0 + extra, segs.last().1))
}

/// Lexes the body of a string literal from `i` (just past the opening quote
/// or inside it); returns the segments and the end index.
pub open spec fn lex_string(s: Seq<char>, i: int, segs: Seq<(Seq<char>, usize)>) -> (
    Seq<(Seq<char>, usize)>,
    int,
)
    decreases s.len() - i,
{
    if i >= s.len() || i < 0 {
        (segs, s.len() as int)
    } else if s[i] == '\\' && i + 1 < s.len() && s[i + 1] == '"' {
        lex_string(s, i + 2, extend_last(segs, "[\"]"@))
    } else if s[i] == '"' {
        (segs, i + 1)
    } else if s[i] == '\n' {
        proof {
            lemma_blank_end_bounds(s, i + 1);
        }
        let j = blank_end(s, i + 1);
        lex_string(s, j, segs.push((Seq::empty(), byte_pos(s, j) as usize)))
    } else {
        lex_string(s, i + 1, extend_last(segs, seq![s[i]]))
    }
}

/// Lexes the token starting at `p` (trivia already skipped); returns its kind
/// and end index.
pub open spec fn lex_token(s: Seq<char>, p: int) -> (TokenKindView, int) {
    if p >= s.len() || p < 0 {
        (kv(T_EOF), p)
    } else {
        let c = s[p];
        let next = if p + 1 < s.len() {
            Some(s[p + 1])
        } else {
            None
        };
        if c == '#' {
            if next matches Some(d) && spec_ident_start(d) {
                let e = ident_end(s, p + 2);
                let w = s.subrange(p + 1, e);
                if keyword_tag(w) is None && w == "include"@ {
                    (kv(T_INCLUDE), e)
                } else if keyword_tag(w) is None && w == "define"@ {
                    (kv(T_DEFINE), e)
                } else {
                    (kv(T_HASH), e)
                }
            } else {
                (kv(T_HASH), p + 1)
            }
        } else if c == '"' {
            let (segs, e) = lex_string(s, p + 1, seq![(Seq::empty(), byte_pos(s, p + 1) as usize)]);
            (kv_segments(segs), e)
        } else if c == ',' {
            (kv(T_COMMA), p + 1)
        } else if c == '.' {
            if next matches Some(d) && spec_ident_start(d) {
                let e = ident_end(s, p + 2);
                (kv_text(T_IDENTIFIER, s.subrange(p, e)), e)
            } else {
                (kv(T_DOT), p + 1)
            }
        } else if c == ':' {
            if next == Some(':') {
                (kv(T_DOUBLE_COLON), p + 2)
            } else {
                (kv(T_COLON), p + 1)
            }
        } else if c == '=' {
            if next == Some('=') {
                (kv(T_EQUAL), p + 2)
            } else {
                (kv(T_ASSIGN), p + 1)
            }
        } else if c == '(' {
            (kv(T_LPAREN), p + 1)
        } else if c == ')' {
            (kv(T_RPAREN), p + 1)
        } else if c == '[' {
            (kv(T_LBRACKET), p + 1)
        } else if c == ']' {
            (kv(T_RBRACKET), p + 1)
        } else if c == '&' {
            if next == Some('&') {
                (kv(T_AND), p + 2)
            } else {
                (kv_text(T_ERROR, "invalid token"@), p + 1)
            }
        } else if c == '|' {
            if next == Some('|') {
                (kv(T_OR), p + 2)
            } else {
                (kv_text(T_ERROR, "invalid token"@), p + 1)
            }
        } else if c == '!' {
            if next == Some('=') {
                (kv(T_NOT_EQUAL), p + 2)
            } else {
                (kv(T_NOT), p + 1)
            }
        } else if c == '<' {
            if next == Some('=') {
                (kv(T_LESSER_EQUAL), p + 2)
            } else {
                (kv(T_LESSER_THAN), p + 1)
            }
        } else if c == '>' {
            if next == Some('=') {
                (kv(T_GREATER_EQUAL), p + 2)
            } else {
                (kv(T_GREATER_THAN), p + 1)
            }
        } else if c == '+' {
            (kv(T_PLUS), p + 1)
        } else if c == '-' {
            if next == Some('>') {
                (kv(T_ARROW), p + 2)
            } else {
                (kv(T_MINUS), p + 1)
            }
        } else if c == '*' {
            (kv(T_MUL), p + 1)
        } else if c == '\n' {
            (kv(T_NEWLINE), p + 1)
        } else if spec_ident_start(c) {
            let e = ident_end(s, p + 1);
            (word_kind(s.subrange(p, e)), e)
        } else if spec_is_digit(c) {
            lex_number(s, p)
        } else {
            (kv_text(T_ERROR, "unexpected token: "@ + seq![c]), p + 1)
        }
    }
}

/// One lexing step: the kind and the character range of the next token.
pub struct LexStep {
    pub kind: TokenKindView,
    pub start: int,
    pub end: int,
}

/// The token the lexer produces when its position is `i`.
pub open spec fn spec_next_token(s: Seq<char>, i: int) -> LexStep {
    let t = skip_trivia(s, i);
    if t.error {
        LexStep { kind: kv_text(T_ERROR, "unclosed block comment"@), start: t.err_start, end: t.pos }
    } else {
        let (k, e) = lex_token(s, t.pos);
        LexStep { kind: k, start: t.pos, end: e }
    }
}

/// All tokens from position `i` up to (not including) the end-of-file token.
pub open spec fn spec_tokens_from(s: Seq<char>, i: int) -> Seq<LexStep>
    decreases s.len() - i,
{
    if i < 0 || i > s.len() {
        Seq::empty()
    } else {
        let st = spec_next_token(s, i);
        if st.kind.tag == T_EOF {
            Seq::empty()
        } else {
            proof {
                lemma_next_token_progress(s, i);
            }
            seq![st] + spec_tokens_from(s, st.end)
        }
    }
}

// ---------------------------------------------------------------------------
// Lemmas on the specification
// ---------------------------------------------------------------------------

pub proof fn lemma_line_end_bounds(s: Seq<char>, i: int)
    requires
        0 <= i,
    ensures
        i <= line_end(s, i) <= s.len() || (i > s.len() && line_end(s, i) == s.len()),
        i <= s.len() ==> i <= line_end(s, i) <= s.len(),
    decreases s.len() - i,
{
    if i < s.len() && s[i] != '\n' {
        lemma_line_end_bounds(s, i + 1);
    }
}

pub proof fn lemma_block_end_bounds(s: Seq<char>, i: int)
    requires
        0 <= i,
    ensures
        block_end(s, i) == -1 || (i + 2 <= block_end(s, i) <= s.len()),
    decreases s.len() - i,
{
    if i < s.len() && !(s[i] == '*' && i + 1 < s.len() && s[i + 1] == '/') {
        lemma_block_end_bounds(s, i + 1);
    }
}

pub proof fn lemma_blank_end_bounds(s: Seq<char>, i: int)
    requires
        0 <= i <= s.len(),
    ensures
        i <= blank_end(s, i) <= s.len(),
    decreases s.len() - i,
{
    if i < s.len() && (s[i] == ' ' || s[i] == '\t') {
        lemma_blank_end_bounds(s, i + 1);
    }
}

pub proof fn lemma_ident_end_bounds(s: Seq<char>, i: int)
    requires
        0 <= i <= s.len(),
    ensures
        i <= ident_end(s, i) <= s.len(),
    decreases s.len() - i,
{
    if i < s.len() && spec_ident_char(s[i]) {
        lemma_ident_end_bounds(s, i + 1);
    }
}

pub proof fn lemma_digit_end_bounds(s: Seq<char>, i: int, hex: bool)
    requires
        0 <= i <= s.len(),
    ensures
        i <= digit_end(s, i, hex) <= s.len(),
        forall|k: int|
            i <= k < digit_end(s, i, hex) ==> (if hex {
                spec_is_hex_digit(#[trigger] s[k])
            } else {
                spec_is_digit(s[k])
            }),
        digit_end(s, i, hex) < s.len() ==> !(if hex {
            spec_is_hex_digit(s[digit_end(s, i, hex)])
        } else {
            spec_is_digit(s[digit_end(s, i, hex)])
        }),
    decreases s.len() - i,
{
    if i < s.len() && (if hex {
        spec_is_hex_digit(s[i])
    } else {
        spec_is_digit(s[i])
    }) {
        lemma_digit_end_bounds(s, i + 1, hex);
    }
}

pub proof fn lemma_skip_trivia_bounds(s: Seq<char>, i: int)
    requires
        0 <= i <= s.len(),
    ensures
        i <= skip_trivia(s, i).pos <= s.len(),
        skip_trivia(s, i).error ==> i <= skip_trivia(s, i).err_start < s.len()
            && skip_trivia(s, i).pos == s.len(),
        !skip_trivia(s, i).error && skip_trivia(s, i).pos == s.len() ==> skip_trivia(s, i).pos
            == skip_trivia(s, i).err_start,
    decreases s.len() - i,
{
    if i < s.len() {
        if s[i] == ' ' || s[i] == '\t' || s[i] == '\r' {
            lemma_skip_trivia_bounds(s, i + 1);
        } else if s[i] == '/' && i + 1 < s.len() && s[i + 1] == '/' {
            lemma_line_end_bounds(s, i + 2);
            lemma_skip_trivia_bounds(s, line_end(s, i + 2));
        } else if s[i] == '/' && i + 1 < s.len() && s[i + 1] == '*' {
            lemma_block_end_bounds(s, i + 2);
            if block_end(s, i + 2) >= 0 {
                lemma_skip_trivia_bounds(s, block_end(s, i + 2));
            }
        }
    }
}

pub proof fn lemma_lex_string_bounds(s: Seq<char>, i: int, segs: Seq<(Seq<char>, usize)>)
    requires
        0 <= i <= s.len(),
    ensures
        i <= lex_string(s, i, segs).1 <= s.len(),
    decreases s.len() - i,
{
    if i < s.len() {
        if s[i] == '\\' && i + 1 < s.len() && s[i + 1] == '"' {
            lemma_lex_string_bounds(s, i + 2, extend_last(segs, "[\"]"@));
        } else if s[i] == '"' {
        } else if s[i] == '\n' {
            lemma_blank_end_bounds(s, i + 1);
            let j = blank_end(s, i + 1);
            lemma_lex_string_bounds(s, j, segs.push((Seq::empty(), byte_pos(s, j) as usize)));
        } else {
            lemma_lex_string_bounds(s, i + 1, extend_last(segs, seq![s[i]]));
        }
    }
}

pub proof fn lemma_lex_token_bounds(s: Seq<char>, p: int)
    requires
        0 <= p <= s.len(),
    ensures
        p <= lex_token(s, p).1 <= s.len(),
        p < s.len() ==> p < lex_token(s, p).1 && lex_token(s, p).0.tag != T_EOF,
        p == s.len() ==> lex_token(s, p).0.tag == T_EOF,
{
    if p < s.len() {
        lemma_ident_end_bounds(s, p + 1);
        if p + 2 <= s.len() {
            lemma_ident_end_bounds(s, p + 2);
        }
        lemma_lex_string_bounds(s, p + 1, seq![(Seq::empty(), byte_pos(s, p + 1) as usize)]);
        lemma_digit_end_bounds(s, p + 1, false);
        if p + 2 <= s.len() {
            lemma_digit_end_bounds(s, p + 2, true);
        }
        let c = s[p];
        if c == '#' || c == '"' || c == '.' || c == ':' || c == '=' || c == '&' || c == '|' || c
            == '!' || c == '<' || c == '>' || c == '-' {
        } else if spec_ident_start(c) {
        } else if spec_is_digit(c) {
            let e = digit_end(s, p + 1, false);
            assert(e + 1 < s.len() && s[e] == ':' && s[e + 1] == ':' ==> true);
        }
    }
}

/// Every token but the end-of-file token consumes input.
pub proof fn lemma_next_token_progress(s: Seq<char>, i: int)
    requires
        0 <= i <= s.len(),
    ensures
        i <= spec_next_token(s, i).start <= spec_next_token(s, i).end <= s.len(),
        spec_next_token(s, i).kind.tag != T_EOF ==> i < spec_next_token(s, i).end,
        spec_next_token(s, i).kind.tag == T_EOF ==> spec_next_token(s, i).end == s.len()
            && spec_next_token(s, i).start == s.len(),
        i == s.len() ==> spec_next_token(s, i).kind.tag == T_EOF,
{
    lemma_skip_trivia_bounds(s, i);
    let t = skip_trivia(s, i);
    if !t.error {
        lemma_lex_token_bounds(s, t.pos);
    }
}

/// A token agrees with a lexing step: same kind, and its span is the step's
/// character range as byte offsets.
pub open spec fn token_matches_step(t: Token, s: Seq<char>, st: LexStep) -> bool {
    &&& t.kind@ == st.kind
    &&& t.span.start == byte_pos(s, st.start)
    &&& t.span.end == byte_pos(s, st.end)
}

/// Keywords stand for payload-free token kinds.
pub proof fn lemma_keyword_tags_simple()
    ensures
        forall|w: Seq<char>| #[trigger] keyword_tag(w) matches Some(t) ==> is_simple_tag(t),
{
}

// ---------------------------------------------------------------------------
// The lexer
// ---------------------------------------------------------------------------

/// A lexer for the Rotom scripting language.
pub struct Lexer {
    chars: Vec<char>,
    index: usize,
    current_pos: usize,
}

impl Lexer {
    /// The source characters.
    pub closed spec fn source(&self) -> Seq<char> {
        self.chars@
    }

    /// The character index of the next unread character.
    pub closed spec fn position(&self) -> int {
        self.index as int
    }

    /// Internal consistency: the byte offset tracks the character index.
    pub closed spec fn wf(&self) -> bool {
        &&& self.index <= self.chars@.len()
        &&& self.current_pos == byte_pos(self.chars@, self.index as int)
        &&& utf8_len(self.chars@) <= usize::MAX
    }

    /// The position of a well-formed lexer lies within its source.
    pub proof fn lemma_position_bounds(&self)
        requires
            self.wf(),
        ensures
            0 <= self.position() <= self.source().len(),
            utf8_len(self.source()) <= usize::MAX,
    {
    }

    /// Create a new lexer for the given source text.
    pub fn new(source: &str) -> (r: Lexer)
        requires
            utf8_len(source@) <= usize::MAX,
        ensures
            r.wf(),
            r.source() == source@,
            r.position() == 0,
    {
        let chars = str_chars(source);
        assert(chars@.take(0) =~= Seq::<char>::empty());
        Lexer { chars, index: 0, current_pos: 0 }
    }

    fn peek(&self) -> (r: Option<char>)
        requires
            self.wf(),
        ensures
            r == (if self.index < self.chars@.len() {
                Some(self.chars@[self.index as int])
            } else {
                None
            }),
    {
        if self.index < self.chars.len() {
            Some(self.chars[self.index])
        } else {
            None
        }
    }

    fn peek_next(&self) -> (r: Option<char>)
        requires
            self.wf(),
        ensures
            r == (if self.index + 1 < self.chars@.len() {
                Some(self.chars@[self.index + 1])
            } else {
                None
            }),
    {
        if self.chars.len() - self.index > 1 {
            Some(self.chars[self.index + 1])
        } else {
            None
        }
    }

    fn read_char(&mut self) -> (r: Option<char>)
        requires
            old(self).wf(),
        ensures
            final(self).wf(),
            final(self).chars@ == old(self).chars@,
            old(self).index < old(self).chars@.len() ==> r == Some(old(self).chars@[old(self).index as int])
                && final(self).index == old(self).index + 1,
            old(self).index >= old(self).chars@.len() ==> r is None && final(self).index == old(self).index,
    {
        if self.index < self.chars.len() {
            let c = self.chars[self.index];
            proof {
                lemma_utf8_len_push(self.chars@, self.index as int);
                lemma_utf8_len_mono(self.chars@, self.index + 1, self.chars@.len() as int);
            }
            self.current_pos = self.current_pos + len_utf8(c);
            self.index = self.index + 1;
            Some(c)
        } else {
            None
        }
    }

    /// Skips to the end of the line, consuming the newline.
    fn skip_line(&mut self)
        requires
            old(self).wf(),
        ensures
            final(self).wf(),
            final(self).chars@ == old(self).chars@,
            final(self).index == line_end(old(self).chars@, old(self).index as int),
    {
        loop
            invariant
                self.wf(),
                self.chars@ == old(self).chars@,
                old(self).index <= self.index,
                line_end(old(self).chars@, old(self).index as int) == line_end(
                    self.chars@,
                    self.index as int,
                ),
            ensures
                self.index < self.chars@.len() ==> self.chars@[self.index as int] == '\n',
            decreases self.chars@.len() - self.index,
        {
            match self.peek() {
                Some(c) => {
                    if c == '\n' {
                        break;
                    }
                    self.read_char();
                },
                None => {
                    break;
                },
            }
        }
        self.read_char();
    }

    /// Skips a block comment whose `/*` is at the current position; returns
    /// `false` when the end of input comes before `*/`.
    fn skip_block_comment(&mut self) -> (r: bool)
        requires
            old(self).wf(),
            old(self).index + 2 <= old(self).chars@.len(),
        ensures
            final(self).wf(),
            final(self).chars@ == old(self).chars@,
            r == (block_end(old(self).chars@, old(self).index + 2) >= 0),
            r ==> final(self).index == block_end(old(self).chars@, old(self).index + 2),
            !r ==> final(self).index == old(self).chars@.len(),
    {
        self.read_char();
        self.read_char();
        let ghost s = self.chars@;
        let ghost start = self.index as int;
        loop
            invariant
                self.wf(),
                self.chars@ == s,
                s == old(self).chars@,
                start == old(self).index + 2,
                start <= self.index,
                block_end(s, start) == block_end(s, self.index as int),
            decreases s.len() - self.index,
        {
            match self.peek() {
                Some(c) => {
                    if c == '*' && self.peek_next() == Some('/') {
                        self.read_char();
                        self.read_char();
                        return true;
                    }
                    self.read_char();
                },
                None => {
                    return false;
                },
            }
        }
    }

    /// Skips blanks and comments; returns an error token for an unclosed
    /// block comment.
    fn skip_whitespace_and_comments(&mut self) -> (r: Option<Token>)
        requires
            old(self).wf(),
        ensures
            final(self).wf(),
            final(self).chars@ == old(self).chars@,
            ({
                let t = skip_trivia(old(self).chars@, old(self).index as int);
                &&& final(self).index == t.pos
                &&& t.error ==> (r matches Some(tok) && tok.kind@ == kv_text(
                    T_ERROR,
                    "unclosed block comment"@,
                ) && tok.span.start == byte_pos(old(self).chars@, t.err_start)
                    && tok.span.end == byte_pos(old(self).chars@, t.pos))
                &&& !t.error ==> r is None
            }),
    {
        let ghost s = self.chars@;
        loop
            invariant
                self.wf(),
                self.chars@ == s,
                s == old(self).chars@,
                skip_trivia(s, old(self).index as int) == skip_trivia(s, self.index as int),
            decreases s.len() - self.index,
        {
            let start = self.current_pos;
            let ghost start_index = self.index as int;
            match self.peek() {
                Some(c) => {
                    if c == ' ' || c == '\t' || c == '\r' {
                        self.read_char();
                    } else if c == '/' {
                        match self.peek_next() {
                            Some(d) => {
                                if d == '/' {
                                    self.read_char();
                                    self.read_char();
                                    proof {
                                        lemma_line_end_bounds(s, self.index as int);
                                    }
                                    self.skip_line();
                                } else if d == '*' {
                                    proof {
                                        lemma_block_end_bounds(s, start_index + 2);
                                    }
                                    if !self.skip_block_comment() {
                                        let msg = string_from("unclosed block comment");
                                        return Some(
                                            Token {
                                                kind: TokenType::Error(msg),
                                                span: start..self.current_pos,
                                            },
                                        );
                                    }
                                } else {
                                    return None;
                                }
                            },
                            None => {
                                return None;
                            },
                        }
                    } else {
                        return None;
                    }
                },
                None => {
                    return None;
                },
            }
        }
    }

    /// Read an identifier (or keyword) whose first character `first` has
    /// already been read. Advances past the rest of the identifier.
    pub fn read_identifier(&mut self, first: char) -> (r: TokenType)
        requires
            old(self).wf(),
        ensures
            final(self).wf(),
            final(self).source() == old(self).source(),
            final(self).position() == ident_end(old(self).source(), old(self).position()),
            r@ == word_kind(
                seq![first] + old(self).source().subrange(
                    old(self).position(),
                    ident_end(old(self).source(), old(self).position()),
                ),
            ),
    {
        let ghost s = self.chars@;
        let start = self.index;
        proof {
            lemma_ident_end_bounds(s, start as int);
        }
        let mut name: Vec<char> = Vec::new();
        name.push(first);
        loop
            invariant
                self.wf(),
                self.chars@ == s,
                s == old(self).chars@,
                start == old(self).index,
                start <= self.index,
                ident_end(s, start as int) == ident_end(s, self.index as int),
                name@ == seq![first] + s.subrange(start as int, self.index as int),
            ensures
                ident_end(s, self.index as int) == self.index,
            decreases s.len() - self.index,
        {
            match self.peek() {
                Some(c) => {
                    if !is_identifier_char(c) {
                        break;
                    }
                    name.push(c);
                    self.read_char();
                    assert(name@ =~= seq![first] + s.subrange(start as int, self.index as int));
                },
                None => {
                    break;
                },
            }
        }
        match keyword_for_chars(&name) {
            Some(k) => k,
            None => TokenType::Identifier(chars_to_string(&name)),
        }
    }

    /// Read a numeric literal whose first digit `first` has already been
    /// read. Supports decimal and hexadecimal (`0x…`) formats; a decimal
    /// literal directly followed by `::` keeps its spelling as an identifier.
    pub fn read_integer(&mut self, first: char) -> (r: TokenType)
        requires
            old(self).wf(),
            spec_is_digit(first),
        ensures
            final(self).wf(),
            final(self).source() == old(self).source(),
            ({
                let (k, e) = lex_number_after(first, old(self).source(), old(self).position());
                r@ == k && final(self).position() == e
            }),
    {
        let ghost s = self.chars@;
        if first == '0' && self.peek() == Some('x') {
            self.read_char();
            let start = self.index;
            proof {
                lemma_digit_end_bounds(s, start as int, true);
            }
            let mut hex: Vec<char> = Vec::new();
            loop
                invariant
                    self.wf(),
                    self.chars@ == s,
                    start <= self.index,
                    digit_end(s, start as int, true) == digit_end(s, self.index as int, true),
                    hex@ == s.subrange(start as int, self.index as int),
                ensures
                    digit_end(s, self.index as int, true) == self.index,
                decreases s.len() - self.index,
            {
                match self.peek() {
                    Some(c) => {
                        if !is_ascii_hexdigit(c) {
                            break;
                        }
                        hex.push(c);
                        self.read_char();
                        assert(hex@ =~= s.subrange(start as int, self.index as int));
                    },
                    None => {
                        break;
                    },
                }
            }
            if hex.len() == 0 {
                return TokenType::Error(string_from("Invalid hex literal"));
            }
            assert(all_hex_digits(hex@)) by {
                assert forall|k: int| 0 <= k < hex@.len() implies spec_is_hex_digit(
                    #[trigger] hex@[k],
                ) by {
                    assert(hex@[k] == s[start + k]);
                }
            }
            match parse_digits_i32(&hex, 16) {
                Some(n) => TokenType::Num(n),
                None => TokenType::Error(string_from("number too large to fit in target type")),
            }
        } else {
            let start = self.index;
            proof {
                lemma_digit_end_bounds(s, start as int, false);
            }
            let mut digits: Vec<char> = Vec::new();
            digits.push(first);
            loop
                invariant
                    self.wf(),
                    self.chars@ == s,
                    start <= self.index,
                    digit_end(s, start as int, false) == digit_end(s, self.index as int, false),
                    digits@ == seq![first] + s.subrange(start as int, self.index as int),
                ensures
                    digit_end(s, self.index as int, false) == self.index,
                decreases s.len() - self.index,
            {
                match self.peek() {
                    Some(c) => {
                        if !is_ascii_digit(c) {
                            break;
                        }
                        digits.push(c);
                        self.read_char();
                        assert(digits@ =~= seq![first] + s.subrange(start as int, self.index as int));
                    },
                    None => {
                        break;
                    },
                }
            }
            if self.peek() == Some(':') && self.peek_next() == Some(':') {
                return TokenType::Identifier(chars_to_string(&digits));
            }
            assert(all_digits(digits@)) by {
                assert forall|k: int| 0 <= k < digits@.len() implies spec_is_digit(
                    #[trigger] digits@[k],
                ) by {
                    if k > 0 {
                        assert(digits@[k] == s[start + k - 1]);
                    }
                }
            }
            match parse_digits_i32(&digits, 10) {
                Some(n) => TokenType::Num(n),
                None => TokenType::Error(string_from("number too large to fit in target type")),
            }
        }
    }

    /// Reads the body of a string literal; the opening quote has been read.
    /// Each real newline starts a new segment, skipping the blanks after it.
    fn read_string(&mut self) -> (r: Vec<(String, usize)>)
        requires
            old(self).wf(),
        ensures
            final(self).wf(),
            final(self).chars@ == old(self).chars@,
            ({
                let (segs, e) = lex_string(
                    old(self).chars@,
                    old(self).index as int,
                    seq![(Seq::empty(), byte_pos(old(self).chars@, old(self).index as int) as usize)],
                );
                segments_view(r@) == segs && final(self).index == e
            }),
    {
        let ghost s = self.chars@;
        let ghost i0 = self.index as int;
        let ghost init = seq![(Seq::<char>::empty(), byte_pos(s, i0) as usize)];
        let mut done: Vec<(String, usize)> = Vec::new();
        let mut cur: Vec<char> = Vec::new();
        let mut cur_start: usize = self.current_pos;
        assert(segments_view(done@).push((cur@, cur_start)) =~= init);
        loop
            invariant_except_break
                lex_string(s, i0, init) == lex_string(
                    s,
                    self.index as int,
                    segments_view(done@).push((cur@, cur_start)),
                ),
            invariant
                self.wf(),
                self.chars@ == s,
                s == old(self).chars@,
                i0 == old(self).index,
                init == seq![(Seq::<char>::empty(), byte_pos(s, i0) as usize)],
            ensures
                lex_string(s, i0, init) == (
                    segments_view(done@).push((cur@, cur_start)),
                    self.index as int,
                ),
            decreases s.len() - self.index,
        {
            let ghost segs = segments_view(done@).push((cur@, cur_start));
            let ghost i = self.index as int;
            match self.read_char() {
                None => {
                    break;
                },
                Some(c) => {
                    if c == '\\' && self.peek() == Some('"') {
                        let ghost old_cur = cur@;
                        cur.push('[');
                        cur.push('"');
                        cur.push(']');
                        self.read_char();
                        proof {
                            reveal_strlit("[\"]");
                            assert(cur@ =~= old_cur + "[\"]"@);
                            assert(segments_view(done@).push((cur@, cur_start)) =~= extend_last(
                                segs,
                                "[\"]"@,
                            ));
                        }
                    } else if c == '"' {
                        break;
                    } else if c == '\n' {
                        proof {
                            lemma_blank_end_bounds(s, i + 1);
                        }
                        loop
                            invariant
                                self.wf(),
                                self.chars@ == s,
                                i + 1 <= self.index,
                                blank_end(s, i + 1) == blank_end(s, self.index as int),
                            ensures
                                blank_end(s, i + 1) == self.index,
                            decreases s.len() - self.index,
                        {
                            match self.peek() {
                                Some(b) => {
                                    if b == ' ' || b == '\t' {
                                        self.read_char();
                                    } else {
                                        break;
                                    }
                                },
                                None => {
                                    break;
                                },
                            }
                        }
                        let text = chars_to_string(&cur);
                        let ghost old_done = done@;
                        done.push((text, cur_start));
                        cur = Vec::new();
                        cur_start = self.current_pos;
                        assert(segments_view(done@) =~= segments_view(old_done).push(
                            (text@, done@.last().1),
                        ));
                        assert(segments_view(done@).push((cur@, cur_start)) =~= segs.push(
                            (Seq::empty(), byte_pos(s, self.index as int) as usize),
                        ));
                    } else {
                        let ghost old_cur = cur@;
                        cur.push(c);
                        assert(cur@ =~= old_cur + seq![c]);
                        assert(segments_view(done@).push((cur@, cur_start)) =~= extend_last(
                            segs,
                            seq![c],
                        ));
                    }
                },
            }
        }
        let text = chars_to_string(&cur);
        let ghost old_done = done@;
        done.push((text, cur_start));
        assert(segments_view(done@) =~= segments_view(old_done).push((cur@, cur_start)));
        done
    }

    /// The source text between two character indices.
    fn text_between(&self, from: usize, to: usize) -> (r: String)
        requires
            from <= to <= self.chars@.len(),
        ensures
            r@ == self.chars@.subrange(from as int, to as int),
    {
        let mut v: Vec<char> = Vec::new();
        let mut k: usize = from;
        while k < to
            invariant
                from <= k <= to <= self.chars@.len(),
                v@ == self.chars@.subrange(from as int, k as int),
            decreases to - k,
        {
            v.push(self.chars[k]);
            k = k + 1;
            assert(v@ =~= self.chars@.subrange(from as int, k as int));
        }
        chars_to_string(&v)
    }

    /// Lexes one token whose first character is at the current position.
    fn read_token_kind(&mut self) -> (r: TokenType)
        requires
            old(self).wf(),
        ensures
            final(self).wf(),
            final(self).chars@ == old(self).chars@,
            r@ == lex_token(old(self).chars@, old(self).index as int).0,
            final(self).index == lex_token(old(self).chars@, old(self).index as int).1,
    {
        let ghost s = self.chars@;
        let ghost p = self.index as int;
        proof {
            lemma_keyword_tags_simple();
        }
        let c = match self.read_char() {
            Some(c) => c,
            None => {
                return TokenType::EOF;
            },
        };
        let next = self.peek();
        if c == '#' {
            match next {
                Some(d) => {
                    if is_identifier_start(d) {
                        self.read_char();
                        proof {
                            lemma_ident_end_bounds(s, p + 2);
                        }
                        let word = self.read_identifier(d);
                        let ghost e = self.index as int;
                        assert(seq![d] + s.subrange(p + 2, e) =~= s.subrange(p + 1, e));
                        proof {
                            lemma_tag_payload(word);
                        }
                        let k = match word {
                            TokenType::Identifier(name) => {
                                if str_eq(name.as_str(), "include") {
                                    TokenType::Include
                                } else if str_eq(name.as_str(), "define") {
                                    TokenType::Define
                                } else {
                                    TokenType::Hash
                                }
                            },
                            _ => TokenType::Hash,
                        };
                        assert(k@ == lex_token(s, p).0);
                        k
                    } else {
                        TokenType::Hash
                    }
                },
                None => TokenType::Hash,
            }
        } else if c == '"' {
            let segments = self.read_string();
            assert(TokenType::String(segments)@ == lex_token(s, p).0);
            TokenType::String(segments)
        } else if c == ',' {
            TokenType::Comma
        } else if c == '.' {
            match next {
                Some(d) => {
                    if is_identifier_start(d) {
                        let from = self.index - 1;
                        self.read_char();
                        proof {
                            lemma_ident_end_bounds(s, p + 2);
                        }
                        let _ = self.read_identifier(d);
                        // The name keeps the word as written, a keyword too.
                        let name = self.text_between(from, self.index);
                        let k = TokenType::Identifier(name);
                        assert(k@ == lex_token(s, p).0);
                        k
                    } else {
                        TokenType::Dot
                    }
                },
                None => TokenType::Dot,
            }
        } else if c == ':' {
            if next == Some(':') {
                self.read_char();
                TokenType::DoubleColon
            } else {
                TokenType::Colon
            }
        } else if c == '=' {
            if next == Some('=') {
                self.read_char();
                TokenType::Equal
            } else {
                TokenType::Assign
            }
        } else if c == '(' {
            TokenType::LParen
        } else if c == ')' {
            TokenType::RParen
        } else if c == '[' {
            TokenType::LBracket
        } else if c == ']' {
            TokenType::RBracket
        } else if c == '&' {
            if next == Some('&') {
                self.read_char();
                TokenType::And
            } else {
                TokenType::Error(string_from("invalid token"))
            }
        } else if c == '|' {
            if next == Some('|') {
                self.read_char();
                TokenType::Or
            } else {
                TokenType::Error(string_from("invalid token"))
            }
        } else if c == '!' {
            if next == Some('=') {
                self.read_char();
                TokenType::NotEqual
            } else {
                TokenType::Not
            }
        } else if c == '<' {
            if next == Some('=') {
                self.read_char();
                TokenType::LesserEqual
            } else {
                TokenType::LesserThan
            }
        } else if c == '>' {
            if next == Some('=') {
                self.read_char();
                TokenType::GreaterEqual
            } else {
                TokenType::GreaterThan
            }
        } else if c == '+' {
            TokenType::Plus
        } else if c == '-' {
            if next == Some('>') {
                self.read_char();
                TokenType::Arrow
            } else {
                TokenType::Minus
            }
        } else if c == '*' {
            TokenType::Mul
        } else if c == '\n' {
            TokenType::Newline
        } else if is_identifier_start(c) {
            proof {
                lemma_ident_end_bounds(s, p + 1);
            }
            let word = self.read_identifier(c);
            assert(seq![c] + s.subrange(p + 1, self.index as int) =~= s.subrange(
                p,
                self.index as int,
            ));
            word
        } else if is_ascii_digit(c) {
            self.read_integer(c)
        } else {
            let mut msg = string_from("unexpected token: ");
            push_char(&mut msg, c);
            assert(msg@ =~= "unexpected token: "@ + seq![c]);
            TokenType::Error(msg)
        }
    }

    /// Return the next token from the source. Repeated calls yield every
    /// token, then `EOF` tokens.
    pub fn next_token(&mut self) -> (r: Token)
        requires
            old(self).wf(),
        ensures
            final(self).wf(),
            final(self).source() == old(self).source(),
            token_matches_step(
                r,
                old(self).source(),
                spec_next_token(old(self).source(), old(self).position()),
            ),
            final(self).position() == spec_next_token(old(self).source(), old(self).position()).end,
    {
        let ghost s = self.chars@;
        proof {
            lemma_skip_trivia_bounds(s, self.index as int);
        }
        match self.skip_whitespace_and_comments() {
            Some(error) => {
                return error;
            },
            None => {},
        }
        let start = self.current_pos;
        let kind = self.read_token_kind();
        let end = self.current_pos;
        Token { kind, span: start..end }
    }

    /// Consume the lexer and return all tokens up to (not including) `EOF`.
    pub fn tokenize(self) -> (r: Vec<Token>)
        requires
            self.wf(),
        ensures
            r@.len() == spec_tokens_from(self.source(), self.position()).len(),
            forall|k: int|
                0 <= k < r@.len() ==> token_matches_step(
                    #[trigger] r@[k],
                    self.source(),
                    spec_tokens_from(self.source(), self.position())[k],
                ),
    {
        let ghost s = self.chars@;
        let ghost i0 = self.index as int;
        let mut lexer = self;
        let mut out: Vec<Token> = Vec::new();
        let ghost mut steps: Seq<LexStep> = Seq::empty();
        loop
            invariant
                lexer.wf(),
                lexer.chars@ == s,
                0 <= i0 <= lexer.index,
                spec_tokens_from(s, i0) == steps + spec_tokens_from(s, lexer.index as int),
                out@.len() == steps.len(),
                forall|k: int|
                    0 <= k < out@.len() ==> token_matches_step(#[trigger] out@[k], s, steps[k]),
            ensures
                spec_tokens_from(s, i0) == steps,
                out@.len() == steps.len(),
                forall|k: int|
                    0 <= k < out@.len() ==> token_matches_step(#[trigger] out@[k], s, steps[k]),
            decreases s.len() - lexer.index,
        {
            let ghost i = lexer.index as int;
            proof {
                lemma_next_token_progress(s, i);
            }
            let token = lexer.next_token();
            if token.kind.is_tag(T_EOF) {
                assert(spec_tokens_from(s, i) =~= Seq::<LexStep>::empty());
                assert(steps + spec_tokens_from(s, i) =~= steps);
                break;
            }
            proof {
                let st = spec_next_token(s, i);
                assert(spec_tokens_from(s, i) == seq![st] + spec_tokens_from(s, st.end));
                assert(steps + spec_tokens_from(s, i) =~= steps.push(st) + spec_tokens_from(
                    s,
                    st.end,
                ));
                steps = steps.push(st);
            }
            out.push(token);
        }
        out
    }
}

} // verus!

//! Tokens of the Rotom language.

use vstd::prelude::*;

use crate::text::{
    chars_eq, chars_to_lower, concat, concat3, i32_to_string, int_to_decimal, nat_to_decimal,
    seq_to_lower, seq_to_upper, spec_is_lower, spec_is_upper, spec_to_lower, spec_to_upper, str_chars,
    string_from, usize_to_string,
};

verus! {

/// The type of a token in the Rotom language.
#[derive(Debug, Clone, PartialEq, Eq)]
pub enum TokenType {
    Script,
    Public,
    Action,
    Alias,
    Global,
    Num(i32),
    Identifier(String),
    Label(String),
    LocalLabel(String),
    /// String literal; each segment is (content, source start byte).
    String(Vec<(String, usize)>),
    Include,
    Define,
    True,
    False,
    If,
    Then,
    Else,
    EndIf,
    While,
    Do,
    EndWhile,
    Match,
    With,
    Case,
    EndMatch,
    Break,
    End,
    EndMovement,
    Return,
    Jump,
    Hash,
    Comma,
    Dot,
    Colon,
    DoubleColon,
    Equal,
    Assign,
    LParen,
    RParen,
    LBracket,
    RBracket,
    Arrow,
    And,
    Or,
    Not,
    NotEqual,
    LesserEqual,
    GreaterEqual,
    LesserThan,
    GreaterThan,
    As,
    Plus,
    Minus,
    Mul,
    Newline,
    Error(String),
    EOF,
}

/// A single token with its source span (byte offsets).
#[derive(Debug, Clone)]
pub struct Token {
    pub kind: TokenType,
    pub span: core::ops::Range<usize>,
}

/// The abstract content of a token kind: its variant tag and payload.
pub struct TokenKindView {
    pub tag: u8,
    pub text: Seq<char>,
    pub num: i32,
    pub segments: Seq<(Seq<char>, usize)>,
}

pub open spec fn kv(tag: u8) -> TokenKindView {
    TokenKindView { tag, text: Seq::empty(), num: 0, segments: Seq::empty() }
}

pub open spec fn kv_text(tag: u8, text: Seq<char>) -> TokenKindView {
    TokenKindView { tag, text, num: 0, segments: Seq::empty() }
}

pub open spec fn kv_num(n: i32) -> TokenKindView {
    TokenKindView { tag: T_NUM, text: Seq::empty(), num: n, segments: Seq::empty() }
}

pub open spec fn kv_segments(segments: Seq<(Seq<char>, usize)>) -> TokenKindView {
    TokenKindView { tag: T_STRING, text: Seq::empty(), num: 0, segments }
}

pub const T_SCRIPT: u8 = 0;
pub const T_PUBLIC: u8 = 1;
pub const T_ACTION: u8 = 2;
pub const T_ALIAS: u8 = 3;
pub const T_GLOBAL: u8 = 4;
pub const T_NUM: u8 = 5;
pub const T_IDENTIFIER: u8 = 6;
pub const T_LABEL: u8 = 7;
pub const T_LOCAL_LABEL: u8 = 8;
pub const T_STRING: u8 = 9;
pub const T_INCLUDE: u8 = 10;
pub const T_DEFINE: u8 = 11;
pub const T_TRUE: u8 = 12;
pub const T_FALSE: u8 = 13;
pub const T_IF: u8 = 14;
pub const T_THEN: u8 = 15;
pub const T_ELSE: u8 = 16;
pub const T_ENDIF: u8 = 17;
pub const T_WHILE: u8 = 18;
pub const T_DO: u8 = 19;
pub const T_ENDWHILE: u8 = 20;
pub const T_MATCH: u8 = 21;
pub const T_WITH: u8 = 22;
pub const T_CASE: u8 = 23;
pub const T_ENDMATCH: u8 = 24;
pub const T_BREAK: u8 = 25;
pub const T_END: u8 = 26;
pub const T_ENDMOVEMENT: u8 = 27;
pub const T_RETURN: u8 = 28;
pub const T_JUMP: u8 = 29;
pub const T_HASH: u8 = 30;
pub const T_COMMA: u8 = 31;
pub const T_DOT: u8 = 32;
pub const T_COLON: u8 = 33;
pub const T_DOUBLE_COLON: u8 = 34;
pub const T_EQUAL: u8 = 35;
pub const T_ASSIGN: u8 = 36;
pub const T_LPAREN: u8 = 37;
pub const T_RPAREN: u8 = 38;
pub const T_LBRACKET: u8 = 39;
pub const T_RBRACKET: u8 = 40;
pub const T_ARROW: u8 = 41;
pub const T_AND: u8 = 42;
pub const T_OR: u8 = 43;
pub const T_NOT: u8 = 44;
pub const T_NOT_EQUAL: u8 = 45;
pub const T_LESSER_EQUAL: u8 = 46;
pub const T_GREATER_EQUAL: u8 = 47;
pub const T_LESSER_THAN: u8 = 48;
pub const T_GREATER_THAN: u8 = 49;
pub const T_AS: u8 = 50;
pub const T_PLUS: u8 = 51;
pub const T_MINUS: u8 = 52;
pub const T_MUL: u8 = 53;
pub const T_NEWLINE: u8 = 54;
pub const T_ERROR: u8 = 55;
pub const T_EOF: u8 = 56;

/// The abstract view of a string literal's segments.
pub open spec fn segments_view(segs: Seq<(String, usize)>) -> Seq<(Seq<char>, usize)> {
    segs.map_values(|p: (String, usize)| (p.0@, p.1))
}

impl View for TokenType {
    type V = TokenKindView;

    open spec fn view(&self) -> TokenKindView {
        match self {
            TokenType::Script => kv(T_SCRIPT),
            TokenType::Public => kv(T_PUBLIC),
            TokenType::Action => kv(T_ACTION),
            TokenType::Alias => kv(T_ALIAS),
            TokenType::Global => kv(T_GLOBAL),
            TokenType::Num(n) => kv_num(*n),
            TokenType::Identifier(s) => kv_text(T_IDENTIFIER, s@),
            TokenType::Label(s) => kv_text(T_LABEL, s@),
            TokenType::LocalLabel(s) => kv_text(T_LOCAL_LABEL, s@),
            TokenType::String(segs) => kv_segments(segments_view(segs@)),
            TokenType::Include => kv(T_INCLUDE),
            TokenType::Define => kv(T_DEFINE),
            TokenType::True => kv(T_TRUE),
            TokenType::False => kv(T_FALSE),
            TokenType::If => kv(T_IF),
            TokenType::Then => kv(T_THEN),
            TokenType::Else => kv(T_ELSE),
            TokenType::EndIf => kv(T_ENDIF),
            TokenType::While => kv(T_WHILE),
            TokenType::Do => kv(T_DO),
            TokenType::EndWhile => kv(T_ENDWHILE),
            TokenType::Match => kv(T_MATCH),
            TokenType::With => kv(T_WITH),
            TokenType::Case => kv(T_CASE),
            TokenType::EndMatch => kv(T_ENDMATCH),
            TokenType::Break => kv(T_BREAK),
            TokenType::End => kv(T_END),
            TokenType::EndMovement => kv(T_ENDMOVEMENT),
            TokenType::Return => kv(T_RETURN),
            TokenType::Jump => kv(T_JUMP),
            TokenType::Hash => kv(T_HASH),
            TokenType::Comma => kv(T_COMMA),
            TokenType::Dot => kv(T_DOT),
            TokenType::Colon => kv(T_COLON),
            TokenType::DoubleColon => kv(T_DOUBLE_COLON),
            TokenType::Equal => kv(T_EQUAL),
            TokenType::Assign => kv(T_ASSIGN),
            TokenType::LParen => kv(T_LPAREN),
            TokenType::RParen => kv(T_RPAREN),
            TokenType::LBracket => kv(T_LBRACKET),
            TokenType::RBracket => kv(T_RBRACKET),
            TokenType::Arrow => kv(T_ARROW),
            TokenType::And => kv(T_AND),
            TokenType::Or => kv(T_OR),
            TokenType::Not => kv(T_NOT),
            TokenType::NotEqual => kv(T_NOT_EQUAL),
            TokenType::LesserEqual => kv(T_LESSER_EQUAL),
            TokenType::GreaterEqual => kv(T_GREATER_EQUAL),
            TokenType::LesserThan => kv(T_LESSER_THAN),
            TokenType::GreaterThan => kv(T_GREATER_THAN),
            TokenType::As => kv(T_AS),
            TokenType::Plus => kv(T_PLUS),
            TokenType::Minus => kv(T_MINUS),
            TokenType::Mul => kv(T_MUL),
            TokenType::Newline => kv(T_NEWLINE),
            TokenType::Error(s) => kv_text(T_ERROR, s@),
            TokenType::EOF => kv(T_EOF),
        }
    }
}

/// Builds the token kind for a variant without payload.
pub fn simple_kind(tag: u8) -> (r: TokenType)
    requires
        is_simple_tag(tag),
    ensures
        r@ == kv(tag),
{
    match tag {
        0 => TokenType::Script,
        1 => TokenType::Public,
        2 => TokenType::Action,
        3 => TokenType::Alias,
        4 => TokenType::Global,
        10 => TokenType::Include,
        11 => TokenType::Define,
        12 => TokenType::True,
        13 => TokenType::False,
        14 => TokenType::If,
        15 => TokenType::Then,
        16 => TokenType::Else,
        17 => TokenType::EndIf,
        18 => TokenType::While,
        19 => TokenType::Do,
        20 => TokenType::EndWhile,
        21 => TokenType::Match,
        22 => TokenType::With,
        23 => TokenType::Case,
        24 => TokenType::EndMatch,
        25 => TokenType::Break,
        26 => TokenType::End,
        27 => TokenType::EndMovement,
        28 => TokenType::Return,
        29 => TokenType::Jump,
        30 => TokenType::Hash,
        31 => TokenType::Comma,
        32 => TokenType::Dot,
        33 => TokenType::Colon,
        34 => TokenType::DoubleColon,
        35 => TokenType::Equal,
        36 => TokenType::Assign,
        37 => TokenType::LParen,
        38 => TokenType::RParen,
        39 => TokenType::LBracket,
        40 => TokenType::RBracket,
        41 => TokenType::Arrow,
        42 => TokenType::And,
        43 => TokenType::Or,
        44 => TokenType::Not,
        45 => TokenType::NotEqual,
        46 => TokenType::LesserEqual,
        47 => TokenType::GreaterEqual,
        48 => TokenType::LesserThan,
        49 => TokenType::GreaterThan,
        50 => TokenType::As,
        51 => TokenType::Plus,
        52 => TokenType::Minus,
        53 => TokenType::Mul,
        54 => TokenType::Newline,
        _ => TokenType::EOF,
    }
}

/// Tags of the variants that carry no payload.
pub open spec fn is_simple_tag(tag: u8) -> bool {
    tag <= 56 && tag != T_NUM && tag != T_IDENTIFIER && tag != T_LABEL && tag != T_LOCAL_LABEL
        && tag != T_STRING && tag != T_ERROR
}

/// The keyword a (case-insensitive) word stands for, if any.
pub open spec fn keyword_tag(raw: Seq<char>) -> Option<u8> {
    keyword_tag_of_lower(seq_to_lower(raw))
}

/// [`keyword_tag`] expressed on an already lower-cased word.
pub open spec fn keyword_tag_of_lower(l: Seq<char>) -> Option<u8> {
    if l == "script"@ {
        Some(T_SCRIPT)
    } else if l == "public"@ {
        Some(T_PUBLIC)
    } else if l == "action"@ {
        Some(T_ACTION)
    } else if l == "alias"@ {
        Some(T_ALIAS)
    } else if l == "global"@ {
        Some(T_GLOBAL)
    } else if l == "true"@ {
        Some(T_TRUE)
    } else if l == "false"@ {
        Some(T_FALSE)
    } else if l == "if"@ {
        Some(T_IF)
    } else if l == "then"@ {
        Some(T_THEN)
    } else if l == "else"@ {
        Some(T_ELSE)
    } else if l == "endif"@ {
        Some(T_ENDIF)
    } else if l == "while"@ {
        Some(T_WHILE)
    } else if l == "do"@ {
        Some(T_DO)
    } else if l == "endwhile"@ {
        Some(T_ENDWHILE)
    } else if l == "match"@ {
        Some(T_MATCH)
    } else if l == "with"@ {
        Some(T_WITH)
    } else if l == "case"@ {
        Some(T_CASE)
    } else if l == "endmatch"@ {
        Some(T_ENDMATCH)
    } else if l == "break"@ {
        Some(T_BREAK)
    } else if l == "end"@ {
        Some(T_END)
    } else if l == "endmovement"@ {
        Some(T_ENDMOVEMENT)
    } else if l == "return"@ {
        Some(T_RETURN)
    } else if l == "jump"@ || l == "goto"@ {
        Some(T_JUMP)
    } else if l == "and"@ {
        Some(T_AND)
    } else if l == "or"@ {
        Some(T_OR)
    } else if l == "not"@ {
        Some(T_NOT)
    } else if l == "as"@ {
        Some(T_AS)
    } else {
        None
    }
}

/// How a token kind without payload is described in messages.
pub open spec fn simple_display(tag: u8) -> Seq<char> {
    if tag == T_SCRIPT {
        "keyword 'script'"@
    } else if tag == T_PUBLIC {
        "keyword 'public'"@
    } else if tag == T_ACTION {
        "keyword 'action'"@
    } else if tag == T_ALIAS {
        "keyword 'alias'"@
    } else if tag == T_GLOBAL {
        "keyword 'global'"@
    } else if tag == T_INCLUDE {
        "'#include'"@
    } else if tag == T_DEFINE {
        "'#define'"@
    } else if tag == T_TRUE {
        "boolean 'true'"@
    } else if tag == T_FALSE {
        "boolean 'false'"@
    } else if tag == T_IF {
        "keyword 'if'"@
    } else if tag == T_THEN {
        "keyword 'then'"@
    } else if tag == T_ELSE {
        "keyword 'else'"@
    } else if tag == T_ENDIF {
        "keyword 'endif'"@
    } else if tag == T_WHILE {
        "keyword 'while'"@
    } else if tag == T_DO {
        "keyword 'do'"@
    } else if tag == T_ENDWHILE {
        "keyword 'endwhile'"@
    } else if tag == T_MATCH {
        "keyword 'match'"@
    } else if tag == T_WITH {
        "keyword 'with'"@
    } else if tag == T_CASE {
        "keyword 'case'"@
    } else if tag == T_ENDMATCH {
        "keyword 'endmatch'"@
    } else if tag == T_BREAK {
        "keyword 'break'"@
    } else if tag == T_END {
        "terminator 'end'"@
    } else if tag == T_ENDMOVEMENT {
        "terminator 'endmovement'"@
    } else if tag == T_RETURN {
        "terminator 'return'"@
    } else if tag == T_JUMP {
        "control statement 'jump'"@
    } else if tag == T_HASH {
        "'#'"@
    } else if tag == T_COMMA {
        "','"@
    } else if tag == T_DOT {
        "'.'"@
    } else if tag == T_COLON {
        "':'"@
    } else if tag == T_DOUBLE_COLON {
        "'::'"@
    } else if tag == T_EQUAL {
        "'=='"@
    } else if tag == T_ASSIGN {
        "'='"@
    } else if tag == T_LPAREN {
        "'('"@
    } else if tag == T_RPAREN {
        "')'"@
    } else if tag == T_LBRACKET {
        "'['"@
    } else if tag == T_RBRACKET {
        "']'"@
    } else if tag == T_ARROW {
        "'->'"@
    } else if tag == T_AND {
        "'&&'"@
    } else if tag == T_OR {
        "'||'"@
    } else if tag == T_NOT {
        "'!'"@
    } else if tag == T_NOT_EQUAL {
        "'!='"@
    } else if tag == T_LESSER_EQUAL {
        "'<='"@
    } else if tag == T_GREATER_EQUAL {
        "'>='"@
    } else if tag == T_LESSER_THAN {
        "'<'"@
    } else if tag == T_GREATER_THAN {
        "'>'"@
    } else if tag == T_AS {
        "keyword 'as'"@
    } else if tag == T_PLUS {
        "'+'"@
    } else if tag == T_MINUS {
        "'-'"@
    } else if tag == T_MUL {
        "'*'"@
    } else if tag == T_NEWLINE {
        "newline"@
    } else if tag == T_EOF {
        "end of file"@
    } else {
        ""@
    }
}

/// [`simple_display`] in exec code.
fn simple_display_str(tag: u8) -> (r: &'static str)
    ensures
        r@ == simple_display(tag),
{
    if tag == T_SCRIPT {
        "keyword 'script'"
    } else if tag == T_PUBLIC {
        "keyword 'public'"
    } else if tag == T_ACTION {
        "keyword 'action'"
    } else if tag == T_ALIAS {
        "keyword 'alias'"
    } else if tag == T_GLOBAL {
        "keyword 'global'"
    } else if tag == T_INCLUDE {
        "'#include'"
    } else if tag == T_DEFINE {
        "'#define'"
    } else if tag == T_TRUE {
        "boolean 'true'"
    } else if tag == T_FALSE {
        "boolean 'false'"
    } else if tag == T_IF {
        "keyword 'if'"
    } else if tag == T_THEN {
        "keyword 'then'"
    } else if tag == T_ELSE {
        "keyword 'else'"
    } else if tag == T_ENDIF {
        "keyword 'endif'"
    } else if tag == T_WHILE {
        "keyword 'while'"
    } else if tag == T_DO {
        "keyword 'do'"
    } else if tag == T_ENDWHILE {
        "keyword 'endwhile'"
    } else if tag == T_MATCH {
        "keyword 'match'"
    } else if tag == T_WITH {
        "keyword 'with'"
    } else if tag == T_CASE {
        "keyword 'case'"
    } else if tag == T_ENDMATCH {
        "keyword 'endmatch'"
    } else if tag == T_BREAK {
        "keyword 'break'"
    } else if tag == T_END {
        "terminator 'end'"
    } else if tag == T_ENDMOVEMENT {
        "terminator 'endmovement'"
    } else if tag == T_RETURN {
        "terminator 'return'"
    } else if tag == T_JUMP {
        "control statement 'jump'"
    } else if tag == T_HASH {
        "'#'"
    } else if tag == T_COMMA {
        "','"
    } else if tag == T_DOT {
        "'.'"
    } else if tag == T_COLON {
        "':'"
    } else if tag == T_DOUBLE_COLON {
        "'::'"
    } else if tag == T_EQUAL {
        "'=='"
    } else if tag == T_ASSIGN {
        "'='"
    } else if tag == T_LPAREN {
        "'('"
    } else if tag == T_RPAREN {
        "')'"
    } else if tag == T_LBRACKET {
        "'['"
    } else if tag == T_RBRACKET {
        "']'"
    } else if tag == T_ARROW {
        "'->'"
    } else if tag == T_AND {
        "'&&'"
    } else if tag == T_OR {
        "'||'"
    } else if tag == T_NOT {
        "'!'"
    } else if tag == T_NOT_EQUAL {
        "'!='"
    } else if tag == T_LESSER_EQUAL {
        "'<='"
    } else if tag == T_GREATER_EQUAL {
        "'>='"
    } else if tag == T_LESSER_THAN {
        "'<'"
    } else if tag == T_GREATER_THAN {
        "'>'"
    } else if tag == T_AS {
        "keyword 'as'"
    } else if tag == T_PLUS {
        "'+'"
    } else if tag == T_MINUS {
        "'-'"
    } else if tag == T_MUL {
        "'*'"
    } else if tag == T_NEWLINE {
        "newline"
    } else if tag == T_EOF {
        "end of file"
    } else {
        ""
    }
}

/// The segment texts of a string literal joined by single spaces.
pub open spec fn join_segments(segs: Seq<(Seq<char>, usize)>) -> Seq<char>
    decreases segs.len(),
{
    if segs.len() == 0 {
        Seq::empty()
    } else if segs.len() == 1 {
        segs[0].0
    } else {
        join_segments(segs.drop_last()) + " "@ + segs.last().0
    }
}

/// How a token kind is described in messages (its `Display` text).
pub open spec fn token_display(k: TokenKindView) -> Seq<char> {
    if k.tag == T_IDENTIFIER {
        "identifier '"@ + k.text + "'"@
    } else if k.tag == T_NUM {
        "number '"@ + int_to_decimal(k.num as int) + "'"@
    } else if k.tag == T_LABEL {
        "label definition '"@ + k.text + "'"@
    } else if k.tag == T_LOCAL_LABEL {
        "local label reference '"@ + k.text + "'"@
    } else if k.tag == T_STRING {
        "string \""@ + join_segments(k.segments) + "\""@
    } else if k.tag == T_ERROR {
        "error: "@ + k.text
    } else {
        simple_display(k.tag)
    }
}

impl TokenType {
    /// The variant tag of this token kind.
    pub fn tag(&self) -> (r: u8)
        ensures
            r == self@.tag,
    {
        match self {
            TokenType::Num(_) => T_NUM,
            TokenType::Identifier(_) => T_IDENTIFIER,
            TokenType::Label(_) => T_LABEL,
            TokenType::LocalLabel(_) => T_LOCAL_LABEL,
            TokenType::String(_) => T_STRING,
            TokenType::Error(_) => T_ERROR,
            TokenType::Script => T_SCRIPT,
            TokenType::Public => T_PUBLIC,
            TokenType::Action => T_ACTION,
            TokenType::Alias => T_ALIAS,
            TokenType::Global => T_GLOBAL,
            TokenType::Include => T_INCLUDE,
            TokenType::Define => T_DEFINE,
            TokenType::True => T_TRUE,
            TokenType::False => T_FALSE,
            TokenType::If => T_IF,
            TokenType::Then => T_THEN,
            TokenType::Else => T_ELSE,
            TokenType::EndIf => T_ENDIF,
            TokenType::While => T_WHILE,
            TokenType::Do => T_DO,
            TokenType::EndWhile => T_ENDWHILE,
            TokenType::Match => T_MATCH,
            TokenType::With => T_WITH,
            TokenType::Case => T_CASE,
            TokenType::EndMatch => T_ENDMATCH,
            TokenType::Break => T_BREAK,
            TokenType::End => T_END,
            TokenType::EndMovement => T_ENDMOVEMENT,
            TokenType::Return => T_RETURN,
            TokenType::Jump => T_JUMP,
            TokenType::Hash => T_HASH,
            TokenType::Comma => T_COMMA,
            TokenType::Dot => T_DOT,
            TokenType::Colon => T_COLON,
            TokenType::DoubleColon => T_DOUBLE_COLON,
            TokenType::Equal => T_EQUAL,
            TokenType::Assign => T_ASSIGN,
            TokenType::LParen => T_LPAREN,
            TokenType::RParen => T_RPAREN,
            TokenType::LBracket => T_LBRACKET,
            TokenType::RBracket => T_RBRACKET,
            TokenType::Arrow => T_ARROW,
            TokenType::And => T_AND,
            TokenType::Or => T_OR,
            TokenType::Not => T_NOT,
            TokenType::NotEqual => T_NOT_EQUAL,
            TokenType::LesserEqual => T_LESSER_EQUAL,
            TokenType::GreaterEqual => T_GREATER_EQUAL,
            TokenType::LesserThan => T_LESSER_THAN,
            TokenType::GreaterThan => T_GREATER_THAN,
            TokenType::As => T_AS,
            TokenType::Plus => T_PLUS,
            TokenType::Minus => T_MINUS,
            TokenType::Mul => T_MUL,
            TokenType::Newline => T_NEWLINE,
            TokenType::EOF => T_EOF,
        }
    }

    /// Whether `self` and `other` are the same variant (payloads ignored).
    pub fn same_variant(&self, other: &TokenType) -> (r: bool)
        ensures
            r == (self@.tag == other@.tag),
    {
        self.tag() == other.tag()
    }

    /// Whether `self` is the payload-free kind with tag `tag`.
    pub fn is_tag(&self, tag: u8) -> (r: bool)
        ensures
            r == (self@.tag == tag),
    {
        self.tag() == tag
    }

    /// Equality of token kinds: same variant and same payload.
    pub fn kind_eq(&self, other: &TokenType) -> (r: bool)
        ensures
            r == (self@ == other@),
    {
        if self.tag() != other.tag() {
            return false;
        }
        match self {
            TokenType::Num(a) => match other {
                TokenType::Num(b) => {
                    assert(self@ == kv_num(*a));
                    assert(other@ == kv_num(*b));
                    assert(kv_num(*a) == kv_num(*b) ==> kv_num(*a).num == kv_num(*b).num);
                    *a == *b
                },
                _ => {
                    proof {
                        lemma_tag_payload(*other);
                    }
                    false
                },
            },
            TokenType::Identifier(a) => match other {
                TokenType::Identifier(b) => *a == *b,
                _ => {
                    proof {
                        lemma_tag_payload(*other);
                    }
                    false
                },
            },
            TokenType::Label(a) => match other {
                TokenType::Label(b) => *a == *b,
                _ => {
                    proof {
                        lemma_tag_payload(*other);
                    }
                    false
                },
            },
            TokenType::LocalLabel(a) => match other {
                TokenType::LocalLabel(b) => *a == *b,
                _ => {
                    proof {
                        lemma_tag_payload(*other);
                    }
                    false
                },
            },
            TokenType::Error(a) => match other {
                TokenType::Error(b) => *a == *b,
                _ => {
                    proof {
                        lemma_tag_payload(*other);
                    }
                    false
                },
            },
            TokenType::String(a) => match other {
                TokenType::String(b) => segments_eq(a, b),
                _ => {
                    proof {
                        lemma_tag_payload(*other);
                    }
                    false
                },
            },
            _ => {
                proof {
                    lemma_tag_payload(*self);
                    lemma_tag_payload(*other);
                }
                true
            },
        }
    }

    /// A copy of this token kind.
    pub fn copy_kind(&self) -> (r: TokenType)
        ensures
            r@ == self@,
    {
        match self {
            TokenType::Num(n) => TokenType::Num(*n),
            TokenType::Identifier(s) => TokenType::Identifier(s.clone()),
            TokenType::Label(s) => TokenType::Label(s.clone()),
            TokenType::LocalLabel(s) => TokenType::LocalLabel(s.clone()),
            TokenType::Error(s) => TokenType::Error(s.clone()),
            TokenType::String(segs) => TokenType::String(copy_segments(segs)),
            _ => {
                let t = self.tag();
                simple_kind(t)
            },
        }
    }

    /// The description of this token kind used in messages (its `Display` text).
    pub fn describe(&self) -> (r: String)
        ensures
            r@ == token_display(self@),
    {
        match self {
            TokenType::Identifier(s) => concat3("identifier '", s.as_str(), "'"),
            TokenType::Num(n) => {
                let d = i32_to_string(*n);
                concat3("number '", d.as_str(), "'")
            },
            TokenType::Label(s) => concat3("label definition '", s.as_str(), "'"),
            TokenType::LocalLabel(s) => concat3("local label reference '", s.as_str(), "'"),
            TokenType::String(segs) => {
                let j = join_segment_texts(segs);
                concat3("string \"", j.as_str(), "\"")
            },
            TokenType::Error(e) => concat("error: ", e.as_str()),
            _ => {
                let t = self.tag();
                string_from(simple_display_str(t))
            },
        }
    }
}

/// The tag of a token kind determines which payload variant it is.
pub proof fn lemma_tag_payload(t: TokenType)
    ensures
        t@.tag == T_NUM <==> t is Num,
        t@.tag == T_IDENTIFIER <==> t is Identifier,
        t@.tag == T_LABEL <==> t is Label,
        t@.tag == T_LOCAL_LABEL <==> t is LocalLabel,
        t@.tag == T_STRING <==> t is String,
        t@.tag == T_ERROR <==> t is Error,
        !(t is Num || t is Identifier || t is Label || t is LocalLabel || t is String
            || t is Error) ==> t@ == kv(t@.tag) && is_simple_tag(t@.tag),
{
}

/// Element-wise equality of string-literal segments.
fn segments_eq(a: &Vec<(String, usize)>, b: &Vec<(String, usize)>) -> (r: bool)
    ensures
        r == (segments_view(a@) == segments_view(b@)),
{
    if a.len() != b.len() {
        proof {
            if segments_view(a@) == segments_view(b@) {
                assert(segments_view(a@).len() == segments_view(b@).len());
            }
        }
        return false;
    }
    let mut i: usize = 0;
    while i < a.len()
        invariant
            a.len() == b.len(),
            i <= a.len(),
            forall|j: int| 0 <= j < i ==> segments_view(a@)[j] == segments_view(b@)[j],
        decreases a.len() - i,
    {
        if !(a[i].0 == b[i].0 && a[i].1 == b[i].1) {
            assert(segments_view(a@)[i as int] != segments_view(b@)[i as int]);
            return false;
        }
        i = i + 1;
    }
    assert(segments_view(a@) =~= segments_view(b@));
    true
}

/// A copy of string-literal segments.
pub fn copy_segments(a: &Vec<(String, usize)>) -> (r: Vec<(String, usize)>)
    ensures
        segments_view(r@) == segments_view(a@),
{
    let mut v: Vec<(String, usize)> = Vec::new();
    let mut i: usize = 0;
    while i < a.len()
        invariant
            i <= a.len(),
            segments_view(v@) == segments_view(a@.take(i as int)),
        decreases a.len() - i,
    {
        let s = a[i].0.clone();
        let ghost before = v@;
        v.push((s, a[i].1));
        assert(segments_view(v@) =~= segments_view(before).push((a@[i as int].0@, a@[i as int].1)));
        assert(segments_view(a@.take(i + 1)) =~= segments_view(a@.take(i as int)).push(
            (a@[i as int].0@, a@[i as int].1),
        ));
        i = i + 1;
    }
    assert(a@.take(a.len() as int) =~= a@);
    v
}

/// The segment texts of a string literal joined by single spaces.
pub fn join_segment_texts(segs: &Vec<(String, usize)>) -> (r: String)
    ensures
        r@ == join_segments(segments_view(segs@)),
{
    let mut out = String::new();
    let mut i: usize = 0;
    while i < segs.len()
        invariant
            i <= segs.len(),
            out@ == join_segments(segments_view(segs@.take(i as int))),
        decreases segs.len() - i,
    {
        let ghost before = segments_view(segs@.take(i as int));
        assert(segments_view(segs@.take(i + 1)) =~= before.push((segs@[i as int].0@, segs@[i as int].1)));
        assert(segments_view(segs@.take(i + 1)).drop_last() =~= before);
        if i > 0 {
            out.append(" ");
        }
        out.append(segs[i].0.as_str());
        i = i + 1;
    }
    assert(segs@.take(segs.len() as int) =~= segs@);
    out
}

/// Whether the characters `l` spell the word `w`.
fn is_word(l: &[char], w: &str) -> (r: bool)
    ensures
        r == (l@ == w@),
{
    let wc = str_chars(w);
    chars_eq(l, &wc)
}

/// [`keyword_tag_of_lower`] in exec code.
fn keyword_tag_exec(l: &[char]) -> (r: Option<u8>)
    ensures
        r == keyword_tag_of_lower(l@),
        r matches Some(t) ==> is_simple_tag(t),
{
    if is_word(l, "script") {
        Some(T_SCRIPT)
    } else if is_word(l, "public") {
        Some(T_PUBLIC)
    } else if is_word(l, "action") {
        Some(T_ACTION)
    } else if is_word(l, "alias") {
        Some(T_ALIAS)
    } else if is_word(l, "global") {
        Some(T_GLOBAL)
    } else if is_word(l, "true") {
        Some(T_TRUE)
    } else if is_word(l, "false") {
        Some(T_FALSE)
    } else if is_word(l, "if") {
        Some(T_IF)
    } else if is_word(l, "then") {
        Some(T_THEN)
    } else if is_word(l, "else") {
        Some(T_ELSE)
    } else if is_word(l, "endif") {
        Some(T_ENDIF)
    } else if is_word(l, "while") {
        Some(T_WHILE)
    } else if is_word(l, "do") {
        Some(T_DO)
    } else if is_word(l, "endwhile") {
        Some(T_ENDWHILE)
    } else if is_word(l, "match") {
        Some(T_MATCH)
    } else if is_word(l, "with") {
        Some(T_WITH)
    } else if is_word(l, "case") {
        Some(T_CASE)
    } else if is_word(l, "endmatch") {
        Some(T_ENDMATCH)
    } else if is_word(l, "break") {
        Some(T_BREAK)
    } else if is_word(l, "end") {
        Some(T_END)
    } else if is_word(l, "endmovement") {
        Some(T_ENDMOVEMENT)
    } else if is_word(l, "return") {
        Some(T_RETURN)
    } else if is_word(l, "jump") || is_word(l, "goto") {
        Some(T_JUMP)
    } else if is_word(l, "and") {
        Some(T_AND)
    } else if is_word(l, "or") {
        Some(T_OR)
    } else if is_word(l, "not") {
        Some(T_NOT)
    } else if is_word(l, "as") {
        Some(T_AS)
    } else {
        None
    }
}

/// Keywords ignore ASCII case: two words that lower-case alike stand for
/// the same keyword (or for none), and so do a word, its lower-cased form
/// and its upper-cased form.
pub proof fn lemma_keyword_case_insensitive(a: Seq<char>, b: Seq<char>)
    requires
        seq_to_lower(a) == seq_to_lower(b),
    ensures
        keyword_tag(a) == keyword_tag(b),
        keyword_tag(a) == keyword_tag(seq_to_lower(a)),
        keyword_tag(a) == keyword_tag(seq_to_upper(a)),
{
    assert(seq_to_lower(seq_to_lower(a)) =~= seq_to_lower(a)) by {
        assert forall|k: int| 0 <= k < a.len() implies spec_to_lower(spec_to_lower(a[k])) == spec_to_lower(a[k]) by {
            let c = a[k];
            if spec_is_upper(c) {
                assert(((c as int) + 32) as char == spec_to_lower(c));
            }
        }
    }
    assert(seq_to_lower(seq_to_upper(a)) =~= seq_to_lower(a)) by {
        assert forall|k: int| 0 <= k < a.len() implies spec_to_lower(spec_to_upper(a[k])) == spec_to_lower(a[k]) by {
            let c = a[k];
            if spec_is_lower(c) {
                assert(((c as int) - 32) as char == spec_to_upper(c));
            }
        }
    }
}

/// The keyword token a word stands for, ignoring ASCII case
/// (`jump` and `goto` both give [`TokenType::Jump`]).
pub fn normalize_control_keyword(raw: &str) -> (r: Option<TokenType>)
    ensures
        match keyword_tag(raw@) {
            Some(t) => r matches Some(k) && k@ == kv(t),
            None => r is None,
        },
{
    let chars = str_chars(raw);
    keyword_for_chars(&chars)
}

/// [`normalize_control_keyword`] on a character slice.
pub fn keyword_for_chars(raw: &[char]) -> (r: Option<TokenType>)
    ensures
        match keyword_tag(raw@) {
            Some(t) => r matches Some(k) && k@ == kv(t),
            None => r is None,
        },
{
    let lowered = chars_to_lower(raw);
    match keyword_tag_exec(&lowered) {
        Some(t) => Some(simple_kind(t)),
        None => None,
    }
}

/// The name of the variant with the given tag, as `Debug` prints it.
pub open spec fn variant_name(tag: u8) -> Seq<char> {
    if tag == 0 {
        "Script"@
    } else if tag == 1 {
        "Public"@
    } else if tag == 2 {
        "Action"@
    } else if tag == 3 {
        "Alias"@
    } else if tag == 4 {
        "Global"@
    } else if tag == 5 {
        "Num"@
    } else if tag == 6 {
        "Identifier"@
    } else if tag == 7 {
        "Label"@
    } else if tag == 8 {
        "LocalLabel"@
    } else if tag == 9 {
        "String"@
    } else if tag == 10 {
        "Include"@
    } else if tag == 11 {
        "Define"@
    } else if tag == 12 {
        "True"@
    } else if tag == 13 {
        "False"@
    } else if tag == 14 {
        "If"@
    } else if tag == 15 {
        "Then"@
    } else if tag == 16 {
        "Else"@
    } else if tag == 17 {
        "EndIf"@
    } else if tag == 18 {
        "While"@
    } else if tag == 19 {
        "Do"@
    } else if tag == 20 {
        "EndWhile"@
    } else if tag == 21 {
        "Match"@
    } else if tag == 22 {
        "With"@
    } else if tag == 23 {
        "Case"@
    } else if tag == 24 {
        "EndMatch"@
    } else if tag == 25 {
        "Break"@
    } else if tag == 26 {
        "End"@
    } else if tag == 27 {
        "EndMovement"@
    } else if tag == 28 {
        "Return"@
    } else if tag == 29 {
        "Jump"@
    } else if tag == 30 {
        "Hash"@
    } else if tag == 31 {
        "Comma"@
    } else if tag == 32 {
        "Dot"@
    } else if tag == 33 {
        "Colon"@
    } else if tag == 34 {
        "DoubleColon"@
    } else if tag == 35 {
        "Equal"@
    } else if tag == 36 {
        "Assign"@
    } else if tag == 37 {
        "LParen"@
    } else if tag == 38 {
        "RParen"@
    } else if tag == 39 {
        "LBracket"@
    } else if tag == 40 {
        "RBracket"@
    } else if tag == 41 {
        "Arrow"@
    } else if tag == 42 {
        "And"@
    } else if tag == 43 {
        "Or"@
    } else if tag == 44 {
        "Not"@
    } else if tag == 45 {
        "NotEqual"@
    } else if tag == 46 {
        "LesserEqual"@
    } else if tag == 47 {
        "GreaterEqual"@
    } else if tag == 48 {
        "LesserThan"@
    } else if tag == 49 {
        "GreaterThan"@
    } else if tag == 50 {
        "As"@
    } else if tag == 51 {
        "Plus"@
    } else if tag == 52 {
        "Minus"@
    } else if tag == 53 {
        "Mul"@
    } else if tag == 54 {
        "Newline"@
    } else if tag == 55 {
        "Error"@
    } else if tag == 56 {
        "EOF"@
    } else {
        ""@
    }
}

/// [`variant_name`] in exec code.
fn variant_name_str(tag: u8) -> (r: &'static str)
    ensures
        r@ == variant_name(tag),
{
    if tag == 0 {
        "Script"
    } else if tag == 1 {
        "Public"
    } else if tag == 2 {
        "Action"
    } else if tag == 3 {
        "Alias"
    } else if tag == 4 {
        "Global"
    } else if tag == 5 {
        "Num"
    } else if tag == 6 {
        "Identifier"
    } else if tag == 7 {
        "Label"
    } else if tag == 8 {
        "LocalLabel"
    } else if tag == 9 {
        "String"
    } else if tag == 10 {
        "Include"
    } else if tag == 11 {
        "Define"
    } else if tag == 12 {
        "True"
    } else if tag == 13 {
        "False"
    } else if tag == 14 {
        "If"
    } else if tag == 15 {
        "Then"
    } else if tag == 16 {
        "Else"
    } else if tag == 17 {
        "EndIf"
    } else if tag == 18 {
        "While"
    } else if tag == 19 {
        "Do"
    } else if tag == 20 {
        "EndWhile"
    } else if tag == 21 {
        "Match"
    } else if tag == 22 {
        "With"
    } else if tag == 23 {
        "Case"
    } else if tag == 24 {
        "EndMatch"
    } else if tag == 25 {
        "Break"
    } else if tag == 26 {
        "End"
    } else if tag == 27 {
        "EndMovement"
    } else if tag == 28 {
        "Return"
    } else if tag == 29 {
        "Jump"
    } else if tag == 30 {
        "Hash"
    } else if tag == 31 {
        "Comma"
    } else if tag == 32 {
        "Dot"
    } else if tag == 33 {
        "Colon"
    } else if tag == 34 {
        "DoubleColon"
    } else if tag == 35 {
        "Equal"
    } else if tag == 36 {
        "Assign"
    } else if tag == 37 {
        "LParen"
    } else if tag == 38 {
        "RParen"
    } else if tag == 39 {
        "LBracket"
    } else if tag == 40 {
        "RBracket"
    } else if tag == 41 {
        "Arrow"
    } else if tag == 42 {
        "And"
    } else if tag == 43 {
        "Or"
    } else if tag == 44 {
        "Not"
    } else if tag == 45 {
        "NotEqual"
    } else if tag == 46 {
        "LesserEqual"
    } else if tag == 47 {
        "GreaterEqual"
    } else if tag == 48 {
        "LesserThan"
    } else if tag == 49 {
        "GreaterThan"
    } else if tag == 50 {
        "As"
    } else if tag == 51 {
        "Plus"
    } else if tag == 52 {
        "Minus"
    } else if tag == 53 {
        "Mul"
    } else if tag == 54 {
        "Newline"
    } else if tag == 55 {
        "Error"
    } else if tag == 56 {
        "EOF"
    } else {
        ""
    }
}

/// One string-literal segment as `Debug` prints a `(String, usize)` pair.
pub open spec fn segment_debug(seg: (Seq<char>, usize)) -> Seq<char> {
    "(\""@ + seg.0 + "\", "@ + nat_to_decimal(seg.1 as nat) + ")"@
}

/// The segments of a string literal as `Debug` prints a vector of pairs
/// (without the surrounding brackets).
pub open spec fn segments_debug(segs: Seq<(Seq<char>, usize)>) -> Seq<char>
    decreases segs.len(),
{
    if segs.len() == 0 {
        Seq::empty()
    } else if segs.len() == 1 {
        segment_debug(segs[0])
    } else {
        segments_debug(segs.drop_last()) + ", "@ + segment_debug(segs.last())
    }
}

/// How `Debug` prints a token kind: the variant name, then its payload in
/// parentheses. String payloads are printed between quotes as they are.
pub open spec fn token_debug(k: TokenKindView) -> Seq<char> {
    if k.tag == T_NUM {
        "Num("@ + int_to_decimal(k.num as int) + ")"@
    } else if k.tag == T_IDENTIFIER {
        "Identifier(\""@ + k.text + "\")"@
    } else if k.tag == T_LABEL {
        "Label(\""@ + k.text + "\")"@
    } else if k.tag == T_LOCAL_LABEL {
        "LocalLabel(\""@ + k.text + "\")"@
    } else if k.tag == T_ERROR {
        "Error(\""@ + k.text + "\")"@
    } else if k.tag == T_STRING {
        "String(["@ + segments_debug(k.segments) + "])"@
    } else {
        variant_name(k.tag)
    }
}

fn segments_debug_text(segs: &Vec<(String, usize)>) -> (r: String)
    ensures
        r@ == segments_debug(segments_view(segs@)),
{
    let mut out = String::new();
    let mut i: usize = 0;
    while i < segs.len()
        invariant
            i <= segs.len(),
            out@ == segments_debug(segments_view(segs@.take(i as int))),
        decreases segs.len() - i,
    {
        let pos = usize_to_string(segs[i].1);
        let part = concat3("(\"", segs[i].0.as_str(), "\", ");
        let part2 = concat3(part.as_str(), pos.as_str(), ")");
        let ghost prev = segments_view(segs@.take(i as int));
        let ghost next = segments_view(segs@.take(i + 1));
        proof {
            assert(next =~= prev.push((segs@[i as int].0@, segs@[i as int].1)));
            assert(next.drop_last() =~= prev);
            assert(part2@ =~= segment_debug((segs@[i as int].0@, segs@[i as int].1)));
        }
        if i == 0 {
            out = part2;
        } else {
            out = concat3(out.as_str(), ", ", part2.as_str());
        }
        i = i + 1;
    }
    assert(segs@.take(segs@.len() as int) =~= segs@);
    out
}

impl TokenType {
    /// The kind as `Debug` prints it.
    pub fn debug_text(&self) -> (r: String)
        ensures
            r@ == token_debug(self@),
    {
        match self {
            TokenType::Num(n) => {
                let d = i32_to_string(*n);
                concat3("Num(", d.as_str(), ")")
            },
            TokenType::Identifier(s) => concat3("Identifier(\"", s.as_str(), "\")"),
            TokenType::Label(s) => concat3("Label(\"", s.as_str(), "\")"),
            TokenType::LocalLabel(s) => concat3("LocalLabel(\"", s.as_str(), "\")"),
            TokenType::Error(s) => concat3("Error(\"", s.as_str(), "\")"),
            TokenType::String(segs) => {
                let inner = segments_debug_text(segs);
                concat3("String([", inner.as_str(), "])")
            },
            _ => {
                let t = self.tag();
                string_from(variant_name_str(t))
            },
        }
    }
}

} // verus!

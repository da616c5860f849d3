//! The Rotom parser: a recursive-descent parser over the lexer's tokens.
//!
//! Every parsing function keeps the parser well formed, never moves
//! backwards, and either consumes input or leaves the parser exactly as it
//! found it. The "remaining input" measure makes that precise and proves
//! that parsing always terminates, also when the parser recovers from
//! syntax errors.

use vstd::prelude::*;

use super::ast::{
    copy_expression, precedence_level, precedence_rank, Expression, ExpressionKind, FunctionHeader, MatchCase,
    MenuConfig, MenuEntry, Precedence, ScriptFile, Spanned, Statement, StatementKind,
};
use super::diagnostic::error::{parse_error, CompileError, ParseResult};
use super::lexer::{byte_pos, lemma_next_token_progress, spec_next_token, token_matches_step, LexStep, Lexer};
use super::token::{
    copy_segments, lemma_tag_payload, token_display, Token, TokenKindView, TokenType, T_ACTION, T_ALIAS, T_AND, T_ARROW, T_AS, T_BREAK, T_CASE,
    T_COLON, T_COMMA, T_DEFINE, T_DO, T_DOUBLE_COLON, T_ELSE, T_END, T_ENDIF, T_ENDMATCH,
    T_ENDMOVEMENT, T_ENDWHILE, T_EOF, T_EQUAL, T_FALSE, T_GREATER_EQUAL, T_GREATER_THAN, T_HASH,
    T_IDENTIFIER, T_IF, T_INCLUDE, T_JUMP, T_LBRACKET, T_LESSER_EQUAL, T_LESSER_THAN, T_LPAREN,
    T_MATCH, T_MINUS, T_MUL, T_NEWLINE, T_NOT, T_NOT_EQUAL, T_NUM, T_OR, T_PLUS, T_RBRACKET,
    T_RETURN, T_RPAREN, T_SCRIPT, T_STRING, T_THEN, T_TRUE, T_WHILE, T_WITH,
};
use crate::text::{
    chars_to_string, concat, concat3, nat_to_decimal, str_chars, str_eq, string_from, u64_to_string, utf8_len,
};

verus! {

/// The token-kind tags that start a statement inside a script body.
pub open spec fn is_statement_start(tag: u8) -> bool {
    tag == T_IF || tag == T_WHILE || tag == T_MATCH || tag == T_BREAK || tag == T_IDENTIFIER
        || tag == T_JUMP || tag == T_END || tag == T_RETURN || tag == T_ALIAS
}

/// The token-kind tags that [`Parser::current_token_is_keyword`] accepts.
pub open spec fn is_keyword_tag(tag: u8) -> bool {
    tag == T_SCRIPT || tag == T_ACTION || tag == T_ALIAS || tag == T_TRUE || tag == T_FALSE || tag
        == T_IF || tag == T_THEN || tag == T_ELSE || tag == T_ENDIF || tag == T_WHILE || tag
        == T_ENDWHILE || tag == T_MATCH || tag == T_WITH || tag == T_CASE || tag == T_ENDMATCH
        || tag == T_BREAK || tag == T_END || tag == T_RETURN || tag == T_JUMP || tag == T_AND
        || tag == T_OR || tag == T_AS
}

/// The binding strength of a token used as an infix operator.
pub open spec fn token_precedence(tag: u8) -> Precedence {
    if tag == T_OR {
        Precedence::LogicalOr
    } else if tag == T_AND {
        Precedence::LogicalAnd
    } else if tag == T_EQUAL || tag == T_NOT_EQUAL || tag == T_LESSER_THAN || tag
        == T_GREATER_THAN || tag == T_LESSER_EQUAL || tag == T_GREATER_EQUAL {
        Precedence::Comparison
    } else if tag == T_PLUS || tag == T_MINUS {
        Precedence::Sum
    } else if tag == T_MUL {
        Precedence::Product
    } else if tag == T_LPAREN {
        Precedence::Call
    } else {
        Precedence::Lowest
    }
}

/// Tokens at which an expression always stops.
pub open spec fn ends_expression(tag: u8) -> bool {
    tag == T_EOF || tag == T_END || tag == T_COMMA || tag == T_RPAREN || tag == T_THEN || tag
        == T_DO || tag == T_NEWLINE
}

/// The value of a literal token: a number, `true` (1) or `false` (0).
pub open spec fn literal_value(k: TokenType) -> Option<i32> {
    match k {
        TokenType::Num(n) => Some(n),
        TokenType::True => Some(1i32),
        TokenType::False => Some(0i32),
        _ => None,
    }
}

/// The value of a literal token kind, by its view.
pub open spec fn literal_view(k: TokenKindView) -> Option<i32> {
    if k.tag == T_NUM {
        Some(k.num)
    } else if k.tag == T_TRUE {
        Some(1i32)
    } else if k.tag == T_FALSE {
        Some(0i32)
    } else {
        None
    }
}

/// A token is a literal exactly when its view is.
pub proof fn lemma_literal_view(t: TokenType)
    ensures
        literal_value(t) == literal_view(t@),
{
    lemma_tag_payload(t);
}

/// The `k`-th token after a parser's peeked one.
pub open spec fn token_after(p: Parser, k: nat) -> LexStep
    decreases k,
{
    if k == 0 {
        spec_next_token(p.source(), p.position())
    } else {
        spec_next_token(p.source(), token_after(p, (k - 1) as nat).end)
    }
}

/// After one token is consumed, the tokens ahead shift by one.
pub proof fn lemma_token_after_shift(a: Parser, b: Parser, k: nat)
    requires
        b.source() == a.source(),
        b.position() == token_after(a, 0).end,
    ensures
        token_after(b, k) == token_after(a, k + 1),
    decreases k,
{
    if k > 0 {
        lemma_token_after_shift(a, b, (k - 1) as nat);
    }
}

/// The binding strength of a token kind tag, as a rank.
pub open spec fn tag_rank(tag: u8) -> nat {
    precedence_rank(token_precedence(tag))
}

/// Whether a token kind is a binary operator: logical, comparison, sum or
/// product.
pub open spec fn is_binary_op(tag: u8) -> bool {
    1 <= tag_rank(tag) <= 5
}

/// Whether an expression is an infix operation.
pub open spec fn is_infix(e: Expression) -> bool {
    e.node is Infix
}

/// The left operand of an infix operation.
pub open spec fn infix_left(e: Expression) -> Expression {
    match e.node {
        ExpressionKind::Infix { left, .. } => *left,
        _ => e,
    }
}

/// The operator of an infix operation, by its view.
pub open spec fn infix_op(e: Expression) -> TokenKindView {
    e.node->Infix_operator@
}

/// The right operand of an infix operation.
pub open spec fn infix_right(e: Expression) -> Expression {
    match e.node {
        ExpressionKind::Infix { right, .. } => *right,
        _ => e,
    }
}

/// The parser stands at `literal operator literal` followed by a token that
/// ends an expression, the operator binding tighter than `prec`.
pub open spec fn one_op_ahead(p: Parser, prec: Precedence) -> bool {
    &&& literal_value(p.current().kind) is Some
    &&& is_binary_op(p.peek().kind@.tag)
    &&& tag_rank(p.peek().kind@.tag) > precedence_rank(prec)
    &&& literal_view(token_after(p, 0).kind) is Some
    &&& ends_expression(token_after(p, 1).kind.tag)
}

/// `e` is the infix expression of the `literal operator literal` ahead of `p`.
pub open spec fn one_op_tree(p: Parser, e: Expression) -> bool {
    &&& is_infix(e)
    &&& infix_left(e).node == ExpressionKind::Number(literal_value(p.current().kind)->0)
    &&& infix_op(e) == p.peek().kind@
    &&& infix_right(e).node == ExpressionKind::Number(literal_view(token_after(p, 0).kind)->0)
}

/// The parser stands at `literal op1 literal op2 literal` followed by a
/// token that ends an expression, both operators binding tighter than `prec`.
pub open spec fn two_ops_ahead(p: Parser, prec: Precedence) -> bool {
    &&& literal_value(p.current().kind) is Some
    &&& is_binary_op(p.peek().kind@.tag)
    &&& tag_rank(p.peek().kind@.tag) > precedence_rank(prec)
    &&& literal_view(token_after(p, 0).kind) is Some
    &&& is_binary_op(token_after(p, 1).kind.tag)
    &&& tag_rank(token_after(p, 1).kind.tag) > precedence_rank(prec)
    &&& literal_view(token_after(p, 2).kind) is Some
    &&& ends_expression(token_after(p, 3).kind.tag)
}

/// `e` is the tree of `a op1 b op2 c` ahead of `p`: `a op1 (b op2 c)` when
/// `op2` binds tighter than `op1`, else `(a op1 b) op2 c`.
pub open spec fn two_ops_tree(p: Parser, e: Expression) -> bool {
    let a = ExpressionKind::Number(literal_value(p.current().kind)->0);
    let o1 = p.peek().kind@;
    let b = ExpressionKind::Number(literal_view(token_after(p, 0).kind)->0);
    let o2 = token_after(p, 1).kind;
    let c = ExpressionKind::Number(literal_view(token_after(p, 2).kind)->0);
        if tag_rank(o2.tag) > tag_rank(o1.tag) {
        &&& is_infix(e)
        &&& infix_left(e).node == a && infix_op(e) == o1
        &&& is_infix(infix_right(e))
        &&& infix_left(infix_right(e)).node == b && infix_op(infix_right(e)) == o2
        &&& infix_right(infix_right(e)).node == c
    } else {
        &&& is_infix(e)
        &&& infix_op(e) == o2 && infix_right(e).node == c
        &&& is_infix(infix_left(e))
        &&& infix_left(infix_left(e)).node == a && infix_op(infix_left(e)) == o1
        &&& infix_right(infix_left(e)).node == b
    }
}

/// Operators bind as in C: `||` loosest, then `&&`, then the six
/// comparisons (all alike), then `+` and `-` (alike), then `*`; every one of
/// them binds tighter than the loosest context and looser than a call.
pub proof fn lemma_operator_binding()
    ensures
        token_precedence(T_OR) == Precedence::LogicalOr,
        token_precedence(T_AND) == Precedence::LogicalAnd,
        token_precedence(T_EQUAL) == Precedence::Comparison,
        token_precedence(T_NOT_EQUAL) == Precedence::Comparison,
        token_precedence(T_LESSER_THAN) == Precedence::Comparison,
        token_precedence(T_GREATER_THAN) == Precedence::Comparison,
        token_precedence(T_LESSER_EQUAL) == Precedence::Comparison,
        token_precedence(T_GREATER_EQUAL) == Precedence::Comparison,
        token_precedence(T_PLUS) == Precedence::Sum,
        token_precedence(T_MINUS) == Precedence::Sum,
        token_precedence(T_MUL) == Precedence::Product,
        precedence_rank(Precedence::Lowest) < precedence_rank(Precedence::LogicalOr),
        precedence_rank(Precedence::LogicalOr) < precedence_rank(Precedence::LogicalAnd),
        precedence_rank(Precedence::LogicalAnd) < precedence_rank(Precedence::Comparison),
        precedence_rank(Precedence::Comparison) < precedence_rank(Precedence::Sum),
        precedence_rank(Precedence::Sum) < precedence_rank(Precedence::Product),
        precedence_rank(Precedence::Product) < precedence_rank(Precedence::Call),
{
}

/// Products group before sums and differences, and sums and differences
/// group from the left: of `a op1 b op2 c` between literals, with `op1` and
/// `op2` each `+`, `-` or `*`, the tree `parse_expression` gives is
/// `a op1 (b op2 c)` exactly when `op1` is `+` or `-` and `op2` is `*`, and
/// `(a op1 b) op2 c` otherwise.
pub proof fn lemma_arithmetic_grouping(p: Parser, e: Expression)
    requires
        p.peek().kind@.tag == T_PLUS || p.peek().kind@.tag == T_MINUS || p.peek().kind@.tag == T_MUL,
        token_after(p, 1).kind.tag == T_PLUS || token_after(p, 1).kind.tag == T_MINUS || token_after(p, 1).kind.tag
            == T_MUL,
        two_ops_tree(p, e),
    ensures
        is_infix(e),
        (p.peek().kind@.tag != T_MUL && token_after(p, 1).kind.tag == T_MUL) ==> (infix_op(e) == p.peek().kind@
            && is_infix(infix_right(e)) && infix_op(infix_right(e)).tag == T_MUL && infix_left(e).node
            == ExpressionKind::Number(literal_value(p.current().kind)->0)),
        !(p.peek().kind@.tag != T_MUL && token_after(p, 1).kind.tag == T_MUL) ==> (infix_op(e) == token_after(
            p,
            1,
        ).kind && is_infix(infix_left(e)) && infix_op(infix_left(e)) == p.peek().kind@ && infix_right(e).node
            == ExpressionKind::Number(literal_view(token_after(p, 2).kind)->0)),
{
}

/// The parser stands at `match literal with`.
pub open spec fn match_literal_with(p: Parser) -> bool {
    &&& p.current().kind@.tag == T_MATCH
    &&& literal_value(p.peek().kind) is Some
    &&& token_after(p, 0).kind.tag == T_WITH
}

/// The parser stands at `if literal then`.
pub open spec fn if_literal_then(p: Parser) -> bool {
    &&& p.current().kind@.tag == T_IF
    &&& literal_value(p.peek().kind) is Some
    &&& token_after(p, 0).kind.tag == T_THEN
}

/// Whether an expression parsed at binding strength `prec` ends before a
/// token with kind tag `tag`.
pub open spec fn stops_at(tag: u8, prec: Precedence) -> bool {
    ends_expression(tag) || precedence_rank(token_precedence(tag)) <= precedence_rank(prec)
}

/// The message of a failed [`Parser::expect_advance`].
pub open spec fn unexpected_message(expected: TokenType, found: TokenType) -> Seq<char> {
    "Unexpected Token. Expected: "@ + token_display(expected@) + ", found: "@ + token_display(
        found@,
    )
}

/// The parser for Rotom scripts.
pub struct Parser {
    lexer: Lexer,
    current_token: Token,
    peek_token: Token,
    /// When `true`, the parser recovers from syntax errors by inserting
    /// `StatementKind::Error` nodes and collecting diagnostics in `errors`.
    recover: bool,
    /// Collected diagnostics when recovery is on.
    pub errors: Vec<CompileError>,
}

impl Parser {
    /// The token being looked at.
    pub closed spec fn current(&self) -> Token {
        self.current_token
    }

    /// The token after the current one.
    pub closed spec fn peek(&self) -> Token {
        self.peek_token
    }

    /// The source being parsed.
    pub closed spec fn source(&self) -> Seq<char> {
        self.lexer.source()
    }

    /// Where the lexer stands: just past the peeked token.
    pub closed spec fn position(&self) -> int {
        self.lexer.position()
    }

    /// The diagnostics collected so far.
    pub closed spec fn diagnostics(&self) -> Seq<CompileError> {
        self.errors@
    }

    /// Whether the parser recovers from syntax errors.
    pub closed spec fn recovering(&self) -> bool {
        self.recover
    }

    /// Internal consistency of the token window.
    pub closed spec fn wf(&self) -> bool {
        let s = self.lexer.source();
        let b = utf8_len(s) as usize;
        &&& self.lexer.wf()
        &&& self.current_token.kind@.tag == T_EOF ==> self.peek_token.kind@.tag == T_EOF
            && self.current_token.span.start == b && self.current_token.span.end == b
        &&& self.peek_token.kind@.tag == T_EOF ==> self.lexer.position() == s.len()
            && self.peek_token.span.start == b && self.peek_token.span.end == b
    }

    /// How much input is left: two units per unread character, one per
    /// buffered token that is not `EOF`. Every consumed token lowers it.
    pub closed spec fn remaining(&self) -> nat {
        (2 * (self.lexer.source().len() - self.lexer.position()) + (if self.current_token.kind@.tag
            != T_EOF {
            1int
        } else {
            0int
        }) + (if self.peek_token.kind@.tag != T_EOF {
            1int
        } else {
            0int
        })) as nat
    }

    /// Whether the current token begins a new top-level item (or is `EOF`).
    pub open spec fn at_boundary(&self) -> bool {
        let t = self.current().kind@.tag;
        t == T_SCRIPT || t == T_ACTION || t == T_EOF || (t == T_IDENTIFIER
            && self.peek().kind@.tag == T_COLON)
    }

    fn new_with(mut lexer: Lexer, recover: bool) -> (r: Parser)
        requires
            lexer.wf(),
        ensures
            r.wf(),
            r.source() == lexer.source(),
            r.recovering() == recover,
            r.diagnostics().len() == 0,
            token_matches_step(
                r.current(),
                lexer.source(),
                spec_next_token(lexer.source(), lexer.position()),
            ),
            token_matches_step(
                r.peek(),
                lexer.source(),
                spec_next_token(
                    lexer.source(),
                    spec_next_token(lexer.source(), lexer.position()).end,
                ),
            ),
    {
        proof {
            lexer.lemma_position_bounds();
            lemma_next_token_progress(lexer.source(), lexer.position());
            let e = spec_next_token(lexer.source(), lexer.position()).end;
            lemma_next_token_progress(lexer.source(), e);
            let s = lexer.source();
            assert(s.take(s.len() as int) =~= s);
        }
        let first = lexer.next_token();
        let second = lexer.next_token();
        Parser { lexer, current_token: first, peek_token: second, recover, errors: Vec::new() }
    }

    /// A parser over the tokens of `lexer`, failing on the first syntax error.
    pub fn new(lexer: Lexer) -> (r: Parser)
        requires
            lexer.wf(),
        ensures
            r.wf(),
            r.source() == lexer.source(),
            !r.recovering(),
            r.diagnostics().len() == 0,
            token_matches_step(
                r.current(),
                lexer.source(),
                spec_next_token(lexer.source(), lexer.position()),
            ),
            token_matches_step(
                r.peek(),
                lexer.source(),
                spec_next_token(
                    lexer.source(),
                    spec_next_token(lexer.source(), lexer.position()).end,
                ),
            ),
    {
        Parser::new_with(lexer, false)
    }

    /// A parser with error recovery: syntax errors become
    /// `StatementKind::Error` nodes and are collected in `errors`.
    pub fn new_fallible(lexer: Lexer) -> (r: Parser)
        requires
            lexer.wf(),
        ensures
            r.wf(),
            r.source() == lexer.source(),
            r.recovering(),
            r.diagnostics().len() == 0,
            token_matches_step(
                r.current(),
                lexer.source(),
                spec_next_token(lexer.source(), lexer.position()),
            ),
            token_matches_step(
                r.peek(),
                lexer.source(),
                spec_next_token(
                    lexer.source(),
                    spec_next_token(lexer.source(), lexer.position()).end,
                ),
            ),
    {
        Parser::new_with(lexer, true)
    }

    /// The token being looked at.
    pub fn current_token(&self) -> (r: &Token)
        ensures
            *r == self.current(),
    {
        &self.current_token
    }

    /// The token after the current one.
    pub fn peek_token(&self) -> (r: &Token)
        ensures
            *r == self.peek(),
    {
        &self.peek_token
    }

    /// Moves to the next token and returns the one that was current.
    fn take_advance(&mut self) -> (r: Token)
        requires
            old(self).wf(),
        ensures
            r == old(self).current(),
            final(self).wf(),
            final(self).source() == old(self).source(),
            final(self).recovering() == old(self).recovering(),
            final(self).diagnostics() == old(self).diagnostics(),
            final(self).current() == old(self).peek(),
            token_matches_step(
                final(self).peek(),
                old(self).source(),
                spec_next_token(old(self).source(), old(self).position()),
            ),
            final(self).position() == spec_next_token(old(self).source(), old(self).position()).end,
            final(self).remaining() <= old(self).remaining(),
            old(self).current().kind@.tag != T_EOF ==> final(self).remaining() < old(self).remaining(),
            old(self).current().kind@.tag == T_EOF ==> *final(self) == *old(self),
    {
        proof {
            self.lexer.lemma_position_bounds();
            lemma_next_token_progress(self.lexer.source(), self.lexer.position());
            let s = self.lexer.source();
            assert(s.take(s.len() as int) =~= s);
        }
        if self.current_token.kind.is_tag(T_EOF) {
            // At the end the window stays as it is: the lexer yields `EOF` forever.
            return Token {
                kind: TokenType::EOF,
                span: self.current_token.span.start..self.current_token.span.end,
            };
        }
        let mut next = self.lexer.next_token();
        std::mem::swap(&mut self.peek_token, &mut next);
        let mut taken = next;
        std::mem::swap(&mut self.current_token, &mut taken);
        taken
    }

    /// Moves to the next token.
    pub fn advance(&mut self)
        requires
            old(self).wf(),
        ensures
            final(self).wf(),
            final(self).source() == old(self).source(),
            final(self).recovering() == old(self).recovering(),
            final(self).diagnostics() == old(self).diagnostics(),
            final(self).current() == old(self).peek(),
            token_matches_step(
                final(self).peek(),
                old(self).source(),
                spec_next_token(old(self).source(), old(self).position()),
            ),
            final(self).position() == spec_next_token(old(self).source(), old(self).position()).end,
            final(self).remaining() <= old(self).remaining(),
            old(self).current().kind@.tag != T_EOF ==> final(self).remaining() < old(self).remaining(),
            old(self).current().kind@.tag == T_EOF ==> *final(self) == *old(self),
    {
        let _ = self.take_advance();
    }

    /// Whether the current token equals `kind` (payload included).
    pub fn current_token_is(&self, kind: &TokenType) -> (r: bool)
        ensures
            r == (self.current().kind@ == kind@),
    {
        self.current_token.kind.kind_eq(kind)
    }

    fn current_is(&self, tag: u8) -> (r: bool)
        ensures
            r == (self.current().kind@.tag == tag),
    {
        self.current_token.kind.is_tag(tag)
    }

    /// Consumes newlines where the menu builder grammar permits line breaks.
    fn skip_newlines(&mut self)
        requires
            old(self).wf(),
        ensures
            stepped(*old(self), *final(self)),
            final(self).current().kind@.tag != T_NEWLINE,
    {
        while self.current_is(T_NEWLINE)
            invariant
                stepped(*old(self), *self),
            decreases self.remaining(),
        {
            self.advance();
        }
    }

    /// Whether the current token is a keyword.
    pub fn current_token_is_keyword(&self) -> (r: bool)
        ensures
            r == is_keyword_tag(self.current().kind@.tag),
    {
        let t = self.current_token.kind.tag();
        t == T_SCRIPT || t == T_ACTION || t == T_ALIAS || t == T_TRUE || t == T_FALSE || t == T_IF
            || t == T_THEN || t == T_ELSE || t == T_ENDIF || t == T_WHILE || t == T_ENDWHILE || t
            == T_MATCH || t == T_WITH || t == T_CASE || t == T_ENDMATCH || t == T_BREAK || t
            == T_END || t == T_RETURN || t == T_JUMP || t == T_AND || t == T_OR || t == T_AS
    }

    fn at_top_level_boundary(&self) -> (r: bool)
        ensures
            r == self.at_boundary(),
    {
        let t = self.current_token.kind.tag();
        t == T_SCRIPT || t == T_ACTION || t == T_EOF || (t == T_IDENTIFIER
            && self.peek_token.kind.is_tag(T_COLON))
    }

    /// The error for an unexpected current token.
    fn unexpected(&self, kind: &TokenType) -> (r: CompileError)
        ensures
            r == (CompileError::Parse {
                span: self.current().span,
                message: r->Parse_message,
            }),
            r->Parse_message@ == unexpected_message(*kind, self.current().kind),
    {
        let expected = kind.describe();
        let found = self.current_token.kind.describe();
        let m1 = concat3("Unexpected Token. Expected: ", expected.as_str(), ", found: ");
        let msg = concat(m1.as_str(), found.as_str());
        parse_error(self.current_token.span.start..self.current_token.span.end, msg)
    }

    /// Consumes the current token if it is of the same variant as `kind`
    /// (payloads are not compared) and returns it.
    pub fn expect_advance(&mut self, kind: &TokenType) -> (r: ParseResult<Token>)
        requires
            old(self).wf(),
        ensures
            stepped(*old(self), *final(self)),
            old(self).current().kind@.tag == kind@.tag ==> r == Ok::<Token, CompileError>(
                old(self).current(),
            ) && final(self).current() == old(self).peek() && token_matches_step(
                final(self).peek(),
                old(self).source(),
                spec_next_token(old(self).source(), old(self).position()),
            ) && final(self).position() == spec_next_token(old(self).source(), old(self).position()).end,
            old(self).current().kind@.tag != kind@.tag ==> *final(self) == *old(self) && (
            r matches Err(CompileError::Parse { span, message }) && span == old(self).current().span && message@ == unexpected_message(*kind, old(self).current().kind)),
            r is Ok && kind@.tag != T_EOF ==> final(self).remaining() < old(self).remaining(),
    {
        if self.current_token.kind.same_variant(kind) {
            let token = self.take_advance();
            Ok(token)
        } else {
            Err(self.unexpected(kind))
        }
    }

    /// The binding strength of a token used as an infix operator.
    fn get_precedence(kind: &TokenType) -> (r: Precedence)
        ensures
            r == token_precedence(kind@.tag),
    {
        let t = kind.tag();
        if t == T_OR {
            Precedence::LogicalOr
        } else if t == T_AND {
            Precedence::LogicalAnd
        } else if t == T_EQUAL || t == T_NOT_EQUAL || t == T_LESSER_THAN || t == T_GREATER_THAN
            || t == T_LESSER_EQUAL || t == T_GREATER_EQUAL {
            Precedence::Comparison
        } else if t == T_PLUS || t == T_MINUS {
            Precedence::Sum
        } else if t == T_MUL {
            Precedence::Product
        } else if t == T_LPAREN {
            Precedence::Call
        } else {
            Precedence::Lowest
        }
    }

    fn cur_precedence(&self) -> (r: Precedence)
        ensures
            r == token_precedence(self.current().kind@.tag),
    {
        Self::get_precedence(&self.current_token.kind)
    }
}

/// `new` is what a parsing step may leave from `old`: a well-formed parser
/// over the same source and mode, with no more input left, and exactly the
/// old parser when nothing was consumed.
pub open spec fn stepped(old: Parser, new: Parser) -> bool {
    &&& new.wf()
    &&& new.source() == old.source()
    &&& new.recovering() == old.recovering()
    &&& new.remaining() <= old.remaining()
    &&& new.remaining() == old.remaining() ==> new == old
    &&& !old.recovering() ==> new.diagnostics() == old.diagnostics()
}

/// `stepped`, and input was consumed.
pub open spec fn consumed(old: Parser, new: Parser) -> bool {
    stepped(old, new) && new.remaining() < old.remaining()
}

/// Composition of parsing steps.
pub proof fn lemma_stepped_trans(a: Parser, b: Parser, c: Parser)
    requires
        stepped(a, b),
        stepped(b, c),
    ensures
        stepped(a, c),
        consumed(a, b) || consumed(b, c) ==> consumed(a, c),
{
}


/// Token-kind tags that can start an expression.
pub open spec fn is_prefix_start(tag: u8) -> bool {
    tag == T_NUM || tag == T_TRUE || tag == T_FALSE || tag == T_IDENTIFIER || tag == T_STRING
        || tag == T_NOT || tag == T_MINUS || tag == T_LPAREN
}

/// Whether `k` is one of `list`.
pub open spec fn kind_in(list: Seq<TokenType>, k: TokenType) -> bool {
    exists|i: int| 0 <= i < list.len() && (#[trigger] list[i])@ == k@
}

/// The texts of a string literal's segments, concatenated.
pub open spec fn concat_segments(segs: Seq<(String, usize)>) -> Seq<char>
    decreases segs.len(),
{
    if segs.len() == 0 {
        Seq::empty()
    } else {
        concat_segments(segs.drop_last()) + segs.last().0@
    }
}

/// The first header name of a function statement, if it is one with headers.
pub open spec fn first_header_name(s: Statement) -> Option<Seq<char>> {
    match s.node {
        StatementKind::Function { headers, .. } => if headers@.len() > 0 {
            Some(headers@[0].name@)
        } else {
            None
        },
        _ => None,
    }
}

/// The statements that may stand at the top level of a file.
pub open spec fn is_top_level_item(s: Statement) -> bool {
    s.node is Function || s.node is Action || s.node is Include || s.node is Define
        || s.node is AliasStatement
}

/// The builder methods of `Menu(...)`, numbered in the order `anchor`,
/// `scrollable`, `position`, `cursor`, `prompt`, `width`, `columns`,
/// `cancel`; any other name is 8.
pub open spec fn menu_method_code(m: Seq<char>) -> u8 {
    if m == "anchor"@ {
        0
    } else if m == "scrollable"@ {
        1
    } else if m == "position"@ {
        2
    } else if m == "cursor"@ {
        3
    } else if m == "prompt"@ {
        4
    } else if m == "width"@ {
        5
    } else if m == "columns"@ {
        6
    } else if m == "cancel"@ {
        7
    } else {
        8
    }
}

fn menu_method(m: &str) -> (r: u8)
    ensures
        r == menu_method_code(m@),
{
    if str_eq(m, "anchor") {
        0
    } else if str_eq(m, "scrollable") {
        1
    } else if str_eq(m, "position") {
        2
    } else if str_eq(m, "cursor") {
        3
    } else if str_eq(m, "prompt") {
        4
    } else if str_eq(m, "width") {
        5
    } else if str_eq(m, "columns") {
        6
    } else if str_eq(m, "cancel") {
        7
    } else {
        8
    }
}

fn token_in(list: &[TokenType], k: &TokenType) -> (r: bool)
    ensures
        r == kind_in(list@, *k),
{
    let mut i: usize = 0;
    while i < list.len()
        invariant
            i <= list@.len(),
            forall|j: int| 0 <= j < i ==> (#[trigger] list@[j])@ != k@,
        decreases list.len() - i,
    {
        if list[i].kind_eq(k) {
            return true;
        }
        i = i + 1;
    }
    false
}

fn take_identifier(t: Token) -> (r: String)
    requires
        t.kind@.tag == T_IDENTIFIER,
    ensures
        r@ == t.kind@.text,
{
    match t.kind {
        TokenType::Identifier(s) => s,
        _ => {
            proof {
                lemma_tag_payload(t.kind);
            }
            vstd::pervasive::unreached()
        },
    }
}

fn take_number(t: &Token) -> (r: i32)
    requires
        t.kind@.tag == T_NUM,
    ensures
        r == t.kind@.num,
{
    match &t.kind {
        TokenType::Num(n) => *n,
        _ => {
            proof {
                lemma_tag_payload(t.kind);
            }
            vstd::pervasive::unreached()
        },
    }
}

/// The name of a builder method: `name` without its leading dot, when `name`
/// is a dot and at least one more character.
fn method_name(name: &String) -> (r: Option<String>)
    ensures
        (name@.len() > 1 && name@[0] == '.') ==> (r matches Some(m) && m@ == name@.subrange(
            1,
            name@.len() as int,
        )),
        !(name@.len() > 1 && name@[0] == '.') ==> r is None,
{
    let chars = str_chars(name.as_str());
    if chars.len() > 1 && chars[0] == '.' {
        let mut tail: Vec<char> = Vec::new();
        let mut i: usize = 1;
        while i < chars.len()
            invariant
                1 <= i <= chars@.len(),
                tail@ == chars@.subrange(1, i as int),
            decreases chars.len() - i,
        {
            tail.push(chars[i]);
            i = i + 1;
            assert(tail@ =~= chars@.subrange(1, i as int));
        }
        Some(chars_to_string(&tail))
    } else {
        None
    }
}

fn contains_name(names: &Vec<String>, name: &String) -> (r: bool)
    ensures
        r == exists|i: int| 0 <= i < names@.len() && (#[trigger] names@[i])@ == name@,
{
    let mut i: usize = 0;
    while i < names.len()
        invariant
            i <= names@.len(),
            forall|j: int| 0 <= j < i ==> (#[trigger] names@[j])@ != name@,
        decreases names.len() - i,
    {
        if str_eq(names[i].as_str(), name.as_str()) {
            return true;
        }
        i = i + 1;
    }
    false
}

impl Parser {
    /// A parse error at the current token.
    fn error_here(&self, message: String) -> (r: CompileError)
        ensures
            r matches CompileError::Parse { span, message: m } && span == self.current().span && m
                == message,
    {
        parse_error(self.current_token.span.start..self.current_token.span.end, message)
    }

    /// A parse error at the current token: `prefix` followed by the current
    /// token's description.
    fn error_found(&self, prefix: &str) -> (r: CompileError)
        ensures
            r matches CompileError::Parse { span, message } && span == self.current().span
                && message@ == prefix@ + token_display(self.current().kind@),
    {
        let found = self.current_token.kind.describe();
        self.error_here(concat(prefix, found.as_str()))
    }

    /// Skips tokens up to a top-level boundary.
    fn synchronize_top_level(&mut self)
        requires
            old(self).wf(),
        ensures
            stepped(*old(self), *final(self)),
            final(self).diagnostics() == old(self).diagnostics(),
            final(self).at_boundary(),
            !old(self).at_boundary() ==> final(self).remaining() < old(self).remaining(),
    {
        let ghost s0 = *self;
        while !self.current_is(T_EOF)
            invariant
                stepped(s0, *self),
                s0 == *old(self),
                self.diagnostics() == s0.diagnostics(),
                !s0.at_boundary() ==> self.remaining() < s0.remaining() || *self == s0,
            decreases self.remaining(),
        {
            if self.at_top_level_boundary() {
                return;
            }
            self.advance();
        }
    }

    /// Skips tokens up to a statement boundary.
    fn synchronize_statement(&mut self)
        requires
            old(self).wf(),
        ensures
            stepped(*old(self), *final(self)),
            final(self).diagnostics() == old(self).diagnostics(),
            old(self).current().kind@.tag != T_EOF && !old(self).at_boundary() ==> final(self).remaining() < old(self).remaining(),
    {
        let ghost s0 = *self;
        while !self.current_is(T_EOF)
            invariant
                stepped(s0, *self),
                s0 == *old(self),
                self.diagnostics() == s0.diagnostics(),
                s0.current().kind@.tag != T_EOF && !s0.at_boundary() ==> self.remaining()
                    < s0.remaining() || *self == s0,
            decreases self.remaining(),
        {
            if self.at_top_level_boundary() {
                return;
            }
            let t = self.current_token.kind.tag();
            if t == T_IF || t == T_WHILE || t == T_MATCH || t == T_BREAK || t == T_END || t
                == T_RETURN || t == T_ENDMOVEMENT || t == T_ALIAS || t == T_JUMP || t
                == T_NEWLINE {
                self.advance();
                return;
            }
            self.advance();
        }
    }

    // -----------------------------------------------------------------------
    // Expressions
    // -----------------------------------------------------------------------

    /// Parses an expression whose operators bind tighter than `precedence`.
    pub fn parse_expression(&mut self, precedence: Precedence) -> (r: ParseResult<Expression>)
        requires
            old(self).wf(),
        ensures
            stepped(*old(self), *final(self)),
            r is Ok ==> final(self).remaining() < old(self).remaining(),
            r is Ok ==> ends_expression(final(self).current().kind@.tag) || precedence_rank(
                token_precedence(final(self).current().kind@.tag),
            ) <= precedence_rank(precedence),
            !is_prefix_start(old(self).current().kind@.tag) ==> r is Err && *final(self) == *old(self),
            literal_value(old(self).current().kind) matches Some(v) ==> stops_at(
                old(self).peek().kind@.tag,
                precedence,
            ) ==> (r matches Ok(e) && e.node == ExpressionKind::Number(v) && e.span.start
                == old(self).current().span.start && final(self).current() == old(self).peek()
                && final(self).peek().kind@ == token_after(*old(self), 0).kind && final(self).position()
                == token_after(*old(self), 0).end),
            one_op_ahead(*old(self), precedence) ==> (r matches Ok(e) && one_op_tree(*old(self), e)
                && final(self).current().kind@ == token_after(*old(self), 1).kind),
            two_ops_ahead(*old(self), precedence) ==> (r matches Ok(e) && two_ops_tree(*old(self), e)),
        decreases old(self).remaining(), 2nat,
    {
        let ghost s0 = *self;
        let ghost lit = literal_value(s0.current().kind) is Some && stops_at(
            s0.peek().kind@.tag,
            precedence,
        );
        let ghost one = one_op_ahead(s0, precedence);
        let ghost two = two_ops_ahead(s0, precedence);
        let ghost mut iter: nat = 0;
        let mut left = match self.parse_prefix() {
            Ok(e) => e,
            Err(e) => {
                return Err(e);
            },
        };
        loop
            invariant
                stepped(s0, *self),
                self.remaining() < s0.remaining(),
                s0 == *old(self),
                is_prefix_start(s0.current().kind@.tag),
                lit == (literal_value(s0.current().kind) is Some && stops_at(
                    s0.peek().kind@.tag,
                    precedence,
                )),
                lit ==> self.current() == s0.peek() && left.node == ExpressionKind::Number(
                    literal_value(s0.current().kind)->0,
                ) && left.span.start == s0.current().span.start && self.peek().kind@ == token_after(s0, 0).kind
                    && self.position() == token_after(s0, 0).end,
                one == one_op_ahead(s0, precedence),
                two == two_ops_ahead(s0, precedence),
                (one || two) && iter == 0 ==> self.current() == s0.peek() && left.node
                    == ExpressionKind::Number(literal_value(s0.current().kind)->0) && self.peek().kind@
                    == token_after(s0, 0).kind && self.position() == token_after(s0, 0).end,
                one && iter > 0 ==> iter == 1 && one_op_tree(s0, left) && self.current().kind@ == token_after(
                    s0,
                    1,
                ).kind,
                two && iter > 0 ==> ({
                    let right_nested = tag_rank(token_after(s0, 1).kind.tag) > tag_rank(s0.peek().kind@.tag);
                    &&& right_nested ==> iter == 1 && two_ops_tree(s0, left) && self.current().kind@
                        == token_after(s0, 3).kind
                    &&& !right_nested && iter == 1 ==> is_infix(left) && infix_left(left).node
                        == ExpressionKind::Number(literal_value(s0.current().kind)->0) && infix_op(left) == s0.peek().kind@
                        && infix_right(left).node == ExpressionKind::Number(literal_view(token_after(s0, 0).kind)->0)
                        && self.current().kind@ == token_after(s0, 1).kind && self.peek().kind@
                        == token_after(s0, 2).kind && self.position() == token_after(s0, 2).end
                    &&& !right_nested && iter > 1 ==> iter == 2 && two_ops_tree(s0, left)
                        && self.current().kind@ == token_after(s0, 3).kind
                }),
            ensures
                ends_expression(self.current().kind@.tag) || precedence_rank(
                    token_precedence(self.current().kind@.tag),
                ) <= precedence_rank(precedence),
            decreases self.remaining(),
        {
            let t = self.current_token.kind.tag();
            if t == T_EOF || t == T_END || t == T_COMMA || t == T_RPAREN || t == T_THEN || t
                == T_DO || t == T_NEWLINE {
                break;
            }
            if precedence_level(precedence) >= precedence_level(self.cur_precedence()) {
                break;
            }
            let ghost before = *self;
            proof {
                lemma_literal_view(self.peek().kind);
                if one || two {
                    if iter == 0 {
                        lemma_token_after_shift(s0, before, 0);
                        lemma_token_after_shift(s0, before, 1);
                        lemma_token_after_shift(s0, before, 2);
                    }
                }
                if two && iter == 1 {
                    assert(before.source() == s0.source());
                    assert(token_after(before, 0) == token_after(s0, 3));
                }
            }
            left = match self.parse_infix(left) {
                Ok(e) => e,
                Err(e) => {
                    return Err(e);
                },
            };
            proof {
                iter = iter + 1;
            }
        }
        Ok(left)
    }

    fn parse_prefix(&mut self) -> (r: ParseResult<Expression>)
        requires
            old(self).wf(),
        ensures
            stepped(*old(self), *final(self)),
            r is Ok ==> final(self).remaining() < old(self).remaining(),
            literal_value(old(self).current().kind) matches Some(v) ==> (r matches Ok(e) && e.node
                == ExpressionKind::Number(v) && e.span.start == old(self).current().span.start
                && e.span.end == final(self).current().span.start && final(self).current()
                == old(self).peek() && final(self).peek().kind@ == token_after(*old(self), 0).kind
                && final(self).position() == token_after(*old(self), 0).end),
            !is_prefix_start(old(self).current().kind@.tag) ==> *final(self) == *old(self) && (
            r matches Err(CompileError::Parse { span, message }) && span == old(self).current().span
                && message@ == "Expected expression, found "@ + token_display(
                old(self).current().kind@,
            )),
        decreases old(self).remaining(), 1nat,
    {
        proof {
            lemma_tag_payload(self.current_token.kind);
        }
        let start = self.current_token.span.start;
        let kind = match &self.current_token.kind {
            TokenType::Num(val) => {
                let v = *val;
                self.advance();
                ExpressionKind::Number(v)
            },
            TokenType::True => {
                self.advance();
                ExpressionKind::Number(1)
            },
            TokenType::False => {
                self.advance();
                ExpressionKind::Number(0)
            },
            TokenType::Identifier(name) => {
                let name = name.clone();
                self.advance();
                if self.current_is(T_DOUBLE_COLON) {
                    self.advance();
                    match &self.current_token.kind {
                        TokenType::Identifier(label) => {
                            let label = label.clone();
                            self.advance();
                            ExpressionKind::ModuleRef { module: name, label }
                        },
                        _ => {
                            return Err(self.error_found("Expected a label after '::', found "));
                        },
                    }
                } else {
                    ExpressionKind::Identifier(name)
                }
            },
            TokenType::String(segs) => {
                let k = ExpressionKind::String(copy_segments(segs));
                self.advance();
                k
            },
            TokenType::Not | TokenType::Minus => {
                let operator = self.current_token.kind.copy_kind();
                self.advance();
                let right = match self.parse_expression(Precedence::Prefix) {
                    Ok(e) => e,
                    Err(e) => {
                        return Err(e);
                    },
                };
                ExpressionKind::Prefix { operator, id: Box::new(right) }
            },
            TokenType::LParen => {
                self.advance();
                let expression = match self.parse_expression(Precedence::Lowest) {
                    Ok(e) => e,
                    Err(e) => {
                        return Err(e);
                    },
                };
                match self.expect_advance(&TokenType::RParen) {
                    Ok(_) => {},
                    Err(e) => {
                        return Err(e);
                    },
                }
                return Ok(expression);
            },
            _ => {
                return Err(self.error_found("Expected expression, found "));
            },
        };
        let end = self.current_token.span.start;
        Ok(Spanned { node: kind, span: start..end })
    }

    fn parse_infix(&mut self, left: Expression) -> (r: ParseResult<Expression>)
        requires
            old(self).wf(),
            old(self).current().kind@.tag != T_EOF,
        ensures
            stepped(*old(self), *final(self)),
            r is Ok ==> final(self).remaining() < old(self).remaining(),
            r matches Ok(e) ==> e.span.start == left.span.start,
            old(self).current().kind@.tag == T_LPAREN ==> (r matches Ok(e) ==> (e.node matches ExpressionKind::Call { function: f, args: _ } && *f == left)),
            old(self).current().kind@.tag != T_LPAREN ==> (r matches Ok(e) ==> (e.node matches ExpressionKind::Infix { left: l, operator, right: _ } && *l == left && operator@ == old(self).current().kind@)),
            old(self).current().kind@.tag != T_LPAREN ==> (literal_value(old(self).peek().kind) matches Some(v) ==> stops_at(
                spec_next_token(old(self).source(), old(self).position()).kind.tag,
                token_precedence(old(self).current().kind@.tag),
            ) ==> (r matches Ok(e) && e.node matches ExpressionKind::Infix { left: l, operator, right } && *l == left
                && operator@ == old(self).current().kind@ && right.node == ExpressionKind::Number(v)
                && final(self).current().kind@ == token_after(*old(self), 0).kind && final(self).peek().kind@
                == token_after(*old(self), 1).kind && final(self).position() == token_after(*old(self), 1).end)),
            old(self).current().kind@.tag != T_LPAREN && literal_value(old(self).peek().kind) is Some
                && is_binary_op(token_after(*old(self), 0).kind.tag) && tag_rank(token_after(*old(self), 0).kind.tag)
                > tag_rank(old(self).current().kind@.tag) && literal_view(token_after(*old(self), 1).kind) is Some
                && ends_expression(token_after(*old(self), 2).kind.tag) ==> (r matches Ok(e) && ({
                &&& is_infix(e) && infix_left(e) == left && infix_op(e) == old(self).current().kind@
                &&& is_infix(infix_right(e))
                &&& infix_left(infix_right(e)).node == ExpressionKind::Number(literal_value(old(self).peek().kind)->0)
                &&& infix_op(infix_right(e)) == token_after(*old(self), 0).kind
                &&& infix_right(infix_right(e)).node == ExpressionKind::Number(
                    literal_view(token_after(*old(self), 1).kind)->0,
                )
                &&& final(self).current().kind@ == token_after(*old(self), 2).kind
            })),
        decreases old(self).remaining(), 1nat,
    {
        let ghost s0 = *self;
        let start = left.span.start;
        if self.current_is(T_LPAREN) {
            return self.parse_call_expression(left);
        }
        let operator = self.current_token.kind.copy_kind();
        let precedence = self.cur_precedence();
        self.advance();
        proof {
            lemma_token_after_shift(s0, *self, 0);
            lemma_token_after_shift(s0, *self, 1);
            lemma_token_after_shift(s0, *self, 2);
        }
        let right = match self.parse_expression(precedence) {
            Ok(e) => e,
            Err(e) => {
                return Err(e);
            },
        };
        let end = right.span.end;
        Ok(
            Spanned {
                node: ExpressionKind::Infix { left: Box::new(left), operator, right: Box::new(right) },
                span: start..end,
            },
        )
    }

    fn parse_call_expression(&mut self, function: Expression) -> (r: ParseResult<Expression>)
        requires
            old(self).wf(),
            old(self).current().kind@.tag == T_LPAREN,
        ensures
            stepped(*old(self), *final(self)),
            r is Ok ==> final(self).remaining() < old(self).remaining(),
            r matches Ok(e) ==> e.span.start == function.span.start && (e.node matches ExpressionKind::Call { function: f, args: _ } && *f == function),
            old(self).peek().kind@.tag == T_RPAREN ==> (r matches Ok(e) && e.node matches ExpressionKind::Call { function: f, args } && *f == function && args@.len() == 0),
            literal_value(old(self).peek().kind) matches Some(v) ==> spec_next_token(old(self).source(), old(self).position()).kind.tag == T_RPAREN
                ==> (r matches Ok(e) && e.node matches ExpressionKind::Call { function: f, args } && *f == function
                && args@.len() == 1 && args@[0].node == ExpressionKind::Number(v)),
        decreases old(self).remaining(), 0nat,
    {
        let ghost s0 = *self;
        let ghost one = literal_value(s0.peek().kind) is Some && spec_next_token(s0.source(), s0.position()).kind.tag == T_RPAREN;
        let start = function.span.start;
        self.advance();
        let ghost s1 = *self;
        let mut args: Vec<Expression> = Vec::new();
        if !self.current_is(T_RPAREN) {
            loop
                invariant_except_break
                    one ==> *self == s1 && args@.len() == 0,
                invariant
                    stepped(s0, *self),
                    self.remaining() < s0.remaining(),
                    s0 == *old(self),
                    s1.current() == s0.peek(),
                    s1.peek().kind@ == spec_next_token(s0.source(), s0.position()).kind,
                    s1.wf(),
                    s0.peek().kind@.tag != T_RPAREN,
                    one == (literal_value(s0.peek().kind) is Some && spec_next_token(s0.source(), s0.position()).kind.tag == T_RPAREN),
                ensures
                    stepped(s0, *self),
                    self.remaining() < s0.remaining(),
                    one ==> args@.len() == 1 && args@[0].node == ExpressionKind::Number(literal_value(s0.peek().kind)->0)
                        && self.current().kind@.tag == T_RPAREN,
                decreases self.remaining(),
            {
                match self.parse_expression(Precedence::Lowest) {
                    Ok(e) => args.push(e),
                    Err(e) => {
                        return Err(e);
                    },
                }
                if self.current_is(T_COMMA) {
                    self.advance();
                } else {
                    break;
                }
            }
        }
        match self.expect_advance(&TokenType::RParen) {
            Ok(_) => {},
            Err(e) => {
                return Err(e);
            },
        }
        let end = self.current_token.span.start;
        Ok(Spanned { node: ExpressionKind::Call { function: Box::new(function), args }, span: start..end })
    }
}

impl Parser {
    // -----------------------------------------------------------------------
    // Statements
    // -----------------------------------------------------------------------

    /// Parses statements until the current token is one of `end_condition`,
    /// `script`, `action` or `EOF` (which are not consumed).
    pub fn parse_block(&mut self, end_condition: &[TokenType]) -> (r: ParseResult<Vec<Statement>>)
        requires
            old(self).wf(),
        ensures
            stepped(*old(self), *final(self)),
            r is Ok ==> ({
                let t = final(self).current().kind@.tag;
                t == T_EOF || t == T_SCRIPT || t == T_ACTION || kind_in(
                    end_condition@,
                    final(self).current().kind,
                )
            }),
            ({
                let t = old(self).current().kind@.tag;
                t == T_EOF || t == T_SCRIPT || t == T_ACTION || kind_in(
                    end_condition@,
                    old(self).current().kind,
                )
            }) ==> (r matches Ok(b) && b@.len() == 0 && *final(self) == *old(self)),
            old(self).recovering() ==> r is Ok,
        decreases old(self).remaining(), 2nat,
    {
        let ghost s0 = *self;
        let ghost at_end = ({
            let t = s0.current().kind@.tag;
            t == T_EOF || t == T_SCRIPT || t == T_ACTION || kind_in(end_condition@, s0.current().kind)
        });
        let mut block: Vec<Statement> = Vec::new();
        while !self.current_is(T_EOF)
            invariant
                stepped(s0, *self),
                s0 == *old(self),
                at_end ==> *self == s0 && block@.len() == 0,
                at_end == ({
                    let t = s0.current().kind@.tag;
                    t == T_EOF || t == T_SCRIPT || t == T_ACTION || kind_in(end_condition@, s0.current().kind)
                }),
            decreases self.remaining(),
        {
            if token_in(end_condition, &self.current_token.kind) {
                return Ok(block);
            }
            if self.current_is(T_SCRIPT) || self.current_is(T_ACTION) {
                return Ok(block);
            }
            if self.current_is(T_NEWLINE) {
                self.advance();
                continue;
            }
            let ghost before = *self;
            match self.parse_statement() {
                Ok(stmt) => block.push(stmt),
                Err(e) => {
                    if self.recover {
                        let span = self.current_token.span.start..self.current_token.span.end;
                        self.errors.push(e);
                        block.push(Spanned { node: StatementKind::Error, span });
                        self.synchronize_statement();
                    } else {
                        return Err(e);
                    }
                },
            }
            assert(self.remaining() < before.remaining());
        }
        Ok(block)
    }

    /// Parses one statement of a script body.
    pub fn parse_statement(&mut self) -> (r: ParseResult<Statement>)
        requires
            old(self).wf(),
        ensures
            stepped(*old(self), *final(self)),
            r is Ok ==> final(self).remaining() < old(self).remaining(),
            r is Err && final(self).remaining() == old(self).remaining() ==> !is_statement_start(
                old(self).current().kind@.tag,
            ),
            !is_statement_start(old(self).current().kind@.tag) ==> *final(self) == *old(self) && (
            r matches Err(CompileError::Parse { span, message }) && span == old(self).current().span
                && message@ == "unexpected statement inside script/function: "@ + token_display(
                old(self).current().kind@,
            )),
            old(self).current().kind@.tag == T_BREAK ==> (r matches Ok(st) && st.node is Break
                && st.span == old(self).current().span),
            old(self).current().kind@.tag == T_END ==> (r matches Ok(st) && st.node is End
                && st.span == old(self).current().span),
            old(self).current().kind@.tag == T_RETURN ==> (r matches Ok(st) && st.node is Return
                && st.span == old(self).current().span),
            old(self).current().kind@.tag == T_IF ==> (r matches Ok(st) ==> st.node is IfStatement),
            old(self).current().kind@.tag == T_WHILE ==> (r matches Ok(st)
                ==> st.node is WhileStatement),
            old(self).current().kind@.tag == T_MATCH ==> (r matches Ok(st)
                ==> st.node is MatchStatement),
        decreases old(self).remaining(), 1nat,
    {
        let t = self.current_token.kind.tag();
        if t == T_IF {
            self.parse_if()
        } else if t == T_WHILE {
            self.parse_while()
        } else if t == T_MATCH {
            self.parse_match()
        } else if t == T_BREAK || t == T_END || t == T_RETURN {
            let span = self.current_token.span.start..self.current_token.span.end;
            self.advance();
            let node = if t == T_BREAK {
                StatementKind::Break
            } else if t == T_END {
                StatementKind::End
            } else {
                StatementKind::Return
            };
            Ok(Spanned { node, span })
        } else if t == T_IDENTIFIER {
            let is_menu = match &self.current_token.kind {
                TokenType::Identifier(name) => str_eq(name.as_str(), "Menu") || str_eq(
                    name.as_str(),
                    "MenuGlobal",
                ),
                _ => false,
            };
            if is_menu && self.peek_token.kind.is_tag(T_LPAREN) {
                self.parse_menu_builder()
            } else {
                self.parse_command()
            }
        } else if t == T_JUMP {
            self.parse_jump()
        } else if t == T_ALIAS {
            self.parse_alias()
        } else {
            Err(self.error_found("unexpected statement inside script/function: "))
        }
    }

    /// Parses `if cond then ... [else ...] endif`; `else if` continues the
    /// chain and shares its single `endif`.
    pub fn parse_if(&mut self) -> (r: ParseResult<Statement>)
        requires
            old(self).wf(),
        ensures
            stepped(*old(self), *final(self)),
            r is Ok ==> final(self).remaining() < old(self).remaining(),
            r matches Ok(st) ==> st.node is IfStatement && st.span.start == old(
                self,
            ).current().span.start,
            r is Err && final(self).remaining() == old(self).remaining() ==> old(
                self,
            ).current().kind@.tag != T_IF,
            if_literal_then(*old(self)) ==> (r matches Ok(st) ==> (st.node matches StatementKind::IfStatement {
                condition,
                body,
                elseblock: _,
            } && condition.node == ExpressionKind::Number(literal_value(old(self).peek().kind)->0) && ((
            token_after(*old(self), 1).kind.tag == T_ELSE || token_after(*old(self), 1).kind.tag == T_ENDIF)
                ==> body@.len() == 0))),
            if_literal_then(*old(self)) && token_after(*old(self), 1).kind.tag == T_ENDIF ==> (r matches Ok(
                st,
            ) && st.node matches StatementKind::IfStatement { condition: _, body, elseblock } && body@.len()
                == 0 && elseblock is None),
            if_literal_then(*old(self)) && token_after(*old(self), 1).kind.tag == T_EOF ==> (r matches Err(
                CompileError::Parse { span: _, message },
            ) && message@ == "Unexpected Token. Expected: "@ + token_display(TokenType::EndIf@) + ", found: "@
                + token_display(token_after(*old(self), 1).kind)),
        decreases old(self).remaining(), 0nat,
    {
        let ghost s0 = *self;
        let ghost lit_then = if_literal_then(s0);
        let start = self.current_token.span.start;
        match self.expect_advance(&TokenType::If) {
            Ok(_) => {},
            Err(e) => {
                return Err(e);
            },
        }
        let ghost s1 = *self;
        proof {
            if lit_then {
                lemma_token_after_shift(s0, s1, 0);
                lemma_literal_view(s1.current().kind);
            }
        }
        let condition = match self.parse_expression(Precedence::Lowest) {
            Ok(e) => e,
            Err(e) => {
                return Err(e);
            },
        };
        match self.expect_advance(&TokenType::Then) {
            Ok(_) => {},
            Err(e) => {
                return Err(e);
            },
        }
        proof {
            if lit_then {
                lemma_tag_payload(self.current().kind);
                let t = token_after(s0, 1).kind.tag;
                if t == T_ELSE || t == T_ENDIF {
                    assert(kind_in(seq![TokenType::Else, TokenType::EndIf], self.current().kind)) by {
                        if t == T_ELSE {
                            assert(seq![TokenType::Else, TokenType::EndIf][0]@ == self.current().kind@);
                        } else {
                            assert(seq![TokenType::Else, TokenType::EndIf][1]@ == self.current().kind@);
                        }
                    }
                }
            }
        }
        let then_branch = match self.parse_block(&[TokenType::Else, TokenType::EndIf]) {
            Ok(b) => b,
            Err(e) => {
                return Err(e);
            },
        };
        let mut chain_continued = false;
        let else_branch = if self.current_is(T_ELSE) {
            self.advance();
            if self.current_is(T_IF) {
                let elseif = match self.parse_if() {
                    Ok(st) => st,
                    Err(e) => {
                        return Err(e);
                    },
                };
                chain_continued = true;
                Some(vec![elseif])
            } else {
                match self.parse_block(&[TokenType::EndIf]) {
                    Ok(b) => Some(b),
                    Err(e) => {
                        return Err(e);
                    },
                }
            }
        } else {
            None
        };
        if !chain_continued {
            match self.expect_advance(&TokenType::EndIf) {
                Ok(_) => {},
                Err(e) => {
                    return Err(e);
                },
            }
        }
        let end = self.current_token.span.start;
        Ok(
            Spanned {
                node: StatementKind::IfStatement {
                    condition: Box::new(condition),
                    body: then_branch,
                    elseblock: else_branch,
                },
                span: start..end,
            },
        )
    }

    /// Parses `while cond do ... endwhile`.
    pub fn parse_while(&mut self) -> (r: ParseResult<Statement>)
        requires
            old(self).wf(),
        ensures
            stepped(*old(self), *final(self)),
            r is Ok ==> final(self).remaining() < old(self).remaining(),
            r matches Ok(st) ==> st.node is WhileStatement && st.span.start == old(
                self,
            ).current().span.start,
            r is Err && final(self).remaining() == old(self).remaining() ==> old(
                self,
            ).current().kind@.tag != T_WHILE,
            old(self).current().kind@.tag == T_WHILE && literal_value(old(self).peek().kind) is Some
                && token_after(*old(self), 0).kind.tag == T_DO ==> (r matches Ok(st) ==> (st.node matches StatementKind::WhileStatement {
                condition,
                body: _,
            } && condition.node == ExpressionKind::Number(literal_value(old(self).peek().kind)->0))),
        decreases old(self).remaining(), 0nat,
    {
        let ghost s0 = *self;
        let start = self.current_token.span.start;
        match self.expect_advance(&TokenType::While) {
            Ok(_) => {},
            Err(e) => {
                return Err(e);
            },
        }
        proof {
            if s0.current().kind@.tag == T_WHILE {
                lemma_token_after_shift(s0, *self, 0);
                lemma_literal_view(self.current().kind);
            }
        }
        let condition = match self.parse_expression(Precedence::Lowest) {
            Ok(e) => e,
            Err(e) => {
                return Err(e);
            },
        };
        match self.expect_advance(&TokenType::Do) {
            Ok(_) => {},
            Err(e) => {
                return Err(e);
            },
        }
        let body = match self.parse_block(&[TokenType::EndWhile]) {
            Ok(b) => b,
            Err(e) => {
                return Err(e);
            },
        };
        match self.expect_advance(&TokenType::EndWhile) {
            Ok(_) => {},
            Err(e) => {
                return Err(e);
            },
        }
        let end = self.current_token.span.start;
        Ok(
            Spanned {
                node: StatementKind::WhileStatement { condition: Box::new(condition), body },
                span: start..end,
            },
        )
    }

    /// Parses `match subject with case v1, v2: ... else: ... endmatch`.
    pub fn parse_match(&mut self) -> (r: ParseResult<Statement>)
        requires
            old(self).wf(),
        ensures
            stepped(*old(self), *final(self)),
            r is Ok ==> final(self).remaining() < old(self).remaining(),
            r matches Ok(st) ==> st.node is MatchStatement && st.span.start == old(
                self,
            ).current().span.start,
            r is Err && final(self).remaining() == old(self).remaining() ==> old(
                self,
            ).current().kind@.tag != T_MATCH,
            match_literal_with(*old(self)) ==> (r matches Ok(st) ==> (st.node matches StatementKind::MatchStatement {
                subject,
                cases: _,
                default: _,
            } && subject.node == ExpressionKind::Number(literal_value(old(self).peek().kind)->0))),
            match_literal_with(*old(self)) && token_after(*old(self), 1).kind.tag == T_ENDMATCH ==> (r matches Ok(
                st,
            ) && st.node matches StatementKind::MatchStatement { subject: _, cases, default } && cases@.len()
                == 0 && default is None),
        decreases old(self).remaining(), 0nat,
    {
        let ghost s0 = *self;
        let start = self.current_token.span.start;
        match self.expect_advance(&TokenType::Match) {
            Ok(_) => {},
            Err(e) => {
                return Err(e);
            },
        }
        proof {
            if match_literal_with(s0) {
                lemma_token_after_shift(s0, *self, 0);
                lemma_literal_view(self.current().kind);
            }
        }
        let subject = match self.parse_expression(Precedence::Lowest) {
            Ok(e) => e,
            Err(e) => {
                return Err(e);
            },
        };
        match self.expect_advance(&TokenType::With) {
            Ok(_) => {},
            Err(e) => {
                return Err(e);
            },
        }
        let mut cases: Vec<MatchCase> = Vec::new();
        let mut default: Option<Vec<Statement>> = None;
        while !self.current_is(T_ENDMATCH) && !self.current_is(T_EOF)
            invariant
                stepped(s0, *self),
                self.remaining() < s0.remaining(),
                s0 == *old(self),
                match_literal_with(s0) ==> subject.node == ExpressionKind::Number(literal_value(s0.peek().kind)->0),
                match_literal_with(s0) && token_after(s0, 1).kind.tag == T_ENDMATCH ==> self.current().kind@.tag
                    == T_ENDMATCH && cases@.len() == 0 && default is None,
            decreases self.remaining(),
        {
            if self.current_is(T_NEWLINE) {
                self.advance();
                continue;
            }
            if self.current_is(T_ELSE) {
                self.advance();
                match self.expect_advance(&TokenType::Colon) {
                    Ok(_) => {},
                    Err(e) => {
                        return Err(e);
                    },
                }
                match self.parse_block(&[TokenType::EndMatch, TokenType::Case]) {
                    Ok(b) => {
                        default = Some(b);
                    },
                    Err(e) => {
                        return Err(e);
                    },
                }
                break;
            }
            if self.current_is(T_CASE) {
                let ghost iteration_start = *self;
                let case_start = self.current_token.span.start;
                self.advance();
                let mut values: Vec<Expression> = Vec::new();
                loop
                    invariant
                        stepped(s0, *self),
                        self.remaining() < s0.remaining(),
                        self.remaining() < iteration_start.remaining(),
                        s0 == *old(self),
                        !(match_literal_with(s0) && token_after(s0, 1).kind.tag == T_ENDMATCH),
                    decreases self.remaining(),
                {
                    match self.parse_expression(Precedence::Lowest) {
                        Ok(v) => values.push(v),
                        Err(e) => {
                            return Err(e);
                        },
                    }
                    if self.current_is(T_COMMA) {
                        self.advance();
                    } else {
                        break;
                    }
                }
                match self.expect_advance(&TokenType::Colon) {
                    Ok(_) => {},
                    Err(e) => {
                        return Err(e);
                    },
                }
                let body = match self.parse_block(
                    &[TokenType::Case, TokenType::Else, TokenType::EndMatch],
                ) {
                    Ok(b) => b,
                    Err(e) => {
                        return Err(e);
                    },
                };
                let case_end = self.current_token.span.start;
                cases.push(MatchCase { values, body, span: case_start..case_end });
            } else {
                return Err(self.error_found("Expected 'case' or 'else' in match statement, found "));
            }
        }
        match self.expect_advance(&TokenType::EndMatch) {
            Ok(_) => {},
            Err(e) => {
                return Err(e);
            },
        }
        let end = self.current_token.span.start;
        Ok(
            Spanned {
                node: StatementKind::MatchStatement { subject: Box::new(subject), cases, default },
                span: start..end,
            },
        )
    }
}

impl Parser {
    /// Parses a command: `Name(arg, ...)`, `Name arg, ...`, or a bare `Name`.
    pub fn parse_command(&mut self) -> (r: ParseResult<Statement>)
        requires
            old(self).wf(),
        ensures
            stepped(*old(self), *final(self)),
            r is Ok ==> final(self).remaining() < old(self).remaining(),
            r matches Ok(st) ==> st.node is ScriptCommand && st.span.start == old(
                self,
            ).current().span.start,
            r matches Ok(st) ==> (st.node matches StatementKind::ScriptCommand { command, args: _ }
                && command@ == old(self).current().kind@.text),
            old(self).current().kind@.tag == T_IDENTIFIER && old(self).peek().kind@.tag == T_NEWLINE
                ==> (r matches Ok(st) && st.node matches StatementKind::ScriptCommand { command: _, args }
                && args@.len() == 0 && final(self).current().kind@ == token_after(*old(self), 0).kind),
            old(self).current().kind@.tag == T_IDENTIFIER && literal_value(old(self).peek().kind) is Some
                && token_after(*old(self), 0).kind.tag == T_NEWLINE ==> (r matches Ok(st)
                && st.node matches StatementKind::ScriptCommand { command: _, args } && args@.len() == 1
                && args@[0].node == ExpressionKind::Number(literal_value(old(self).peek().kind)->0)),
            r is Err && final(self).remaining() == old(self).remaining() ==> old(
                self,
            ).current().kind@.tag != T_IDENTIFIER,
    {
        let ghost s0 = *self;
        let start = self.current_token.span.start;
        let name_token = match self.expect_advance(&TokenType::Identifier(String::new())) {
            Ok(t) => t,
            Err(e) => {
                return Err(e);
            },
        };
        let ghost s1 = *self;
        let ghost lit1 = s0.current().kind@.tag == T_IDENTIFIER && literal_value(s0.peek().kind) is Some
            && token_after(s0, 0).kind.tag == T_NEWLINE;
        proof {
            lemma_literal_view(s0.peek().kind);
            if lit1 {
                assert(s1.current() == s0.peek());
                assert(literal_view(s1.current().kind@) is Some);
                assert(s1.current().kind@.tag != T_LPAREN);
                assert(s1.peek().kind@ == token_after(s0, 0).kind);
            }
        }
        let name = take_identifier(name_token);
        let mut args: Vec<Expression> = Vec::new();
        if self.current_is(T_LPAREN) {
            self.advance();
            if !self.current_is(T_RPAREN) {
                loop
                    invariant
                        stepped(s0, *self),
                        self.remaining() < s0.remaining(),
                        s0 == *old(self),
                        s0.peek().kind@.tag != T_NEWLINE,
                        !lit1,
                        lit1 == (s0.current().kind@.tag == T_IDENTIFIER && literal_value(s0.peek().kind) is Some
                            && token_after(s0, 0).kind.tag == T_NEWLINE),
                    decreases self.remaining(),
                {
                    match self.parse_expression(Precedence::Lowest) {
                        Ok(e) => args.push(e),
                        Err(e) => {
                            return Err(e);
                        },
                    }
                    if self.current_is(T_COMMA) {
                        self.advance();
                    } else {
                        break;
                    }
                }
            }
            match self.expect_advance(&TokenType::RParen) {
                Ok(_) => {},
                Err(e) => {
                    return Err(e);
                },
            }
        } else if !self.current_is(T_NEWLINE) && (!self.current_token_is_keyword()
            || self.current_is(T_TRUE) || self.current_is(T_FALSE)) {
            loop
                invariant_except_break
                    lit1 ==> args@.len() == 0 && *self == s1,
                invariant
                    stepped(s0, *self),
                    self.remaining() < s0.remaining(),
                    s0 == *old(self),
                    s0.peek().kind@.tag != T_NEWLINE,
                    lit1 == (s0.current().kind@.tag == T_IDENTIFIER && literal_value(s0.peek().kind) is Some
                        && token_after(s0, 0).kind.tag == T_NEWLINE),
                    lit1 ==> s1.current() == s0.peek() && s1.peek().kind@ == token_after(s0, 0).kind,
                    lit1 ==> literal_value(s1.current().kind) == literal_value(s0.peek().kind)
                        && literal_value(s0.peek().kind) is Some && s1.peek().kind@.tag == T_NEWLINE,
                ensures
                    stepped(s0, *self),
                    self.remaining() < s0.remaining(),
                    lit1 ==> args@.len() == 1 && args@[0].node == ExpressionKind::Number(
                        literal_value(s0.peek().kind)->0,
                    ) && self.current().kind@.tag == T_NEWLINE,
                decreases self.remaining(),
            {
                match self.parse_expression(Precedence::Lowest) {
                    Ok(e) => args.push(e),
                    Err(e) => {
                        return Err(e);
                    },
                }
                if self.current_is(T_COMMA) {
                    self.advance();
                } else {
                    break;
                }
            }
        }
        if self.current_is(T_NEWLINE) {
            self.advance();
        }
        let end = self.current_token.span.start;
        Ok(Spanned { node: StatementKind::ScriptCommand { command: name, args }, span: start..end })
    }

    /// Parses a `Menu(...)` / `MenuGlobal(...)` builder and its
    /// `.method(...)` chain.
    fn parse_menu_builder(&mut self) -> (r: ParseResult<Statement>)
        requires
            old(self).wf(),
        ensures
            stepped(*old(self), *final(self)),
            r is Ok ==> final(self).remaining() < old(self).remaining(),
            r matches Ok(st) ==> st.node is MenuBuilder && st.span.start == old(
                self,
            ).current().span.start,
            r is Err && final(self).remaining() == old(self).remaining() ==> old(
                self,
            ).current().kind@.tag != T_IDENTIFIER,
    {
        let ghost s0 = *self;
        let start = self.current_token.span.start;
        let name_token = match self.expect_advance(&TokenType::Identifier(String::new())) {
            Ok(t) => t,
            Err(e) => {
                return Err(e);
            },
        };
        let name = take_identifier(name_token);
        let is_global = str_eq(name.as_str(), "MenuGlobal");
        match self.expect_advance(&TokenType::LParen) {
            Ok(_) => {},
            Err(e) => {
                return Err(e);
            },
        }
        let mut entries: Vec<MenuEntry> = Vec::new();
        self.skip_newlines();
        while !self.current_is(T_RPAREN)
            invariant
                stepped(s0, *self),
                self.remaining() < s0.remaining(),
                s0 == *old(self),
            decreases self.remaining(),
        {
            let (label, hover) = match self.parse_menu_entry_label() {
                Ok(p) => p,
                Err(e) => {
                    return Err(e);
                },
            };
            match self.expect_advance(&TokenType::Arrow) {
                Ok(_) => {},
                Err(e) => {
                    return Err(e);
                },
            }
            let target = match self.parse_expression(Precedence::Lowest) {
                Ok(e) => e,
                Err(e) => {
                    return Err(e);
                },
            };
            entries.push(MenuEntry { label, hover, target });
            if self.current_is(T_COMMA) {
                self.advance();
                self.skip_newlines();
            } else {
                break;
            }
        }
        self.skip_newlines();
        match self.expect_advance(&TokenType::RParen) {
            Ok(_) => {},
            Err(e) => {
                return Err(e);
            },
        }
        let mut config = MenuConfig::default();
        self.skip_newlines();
        loop
            invariant
                stepped(s0, *self),
                self.remaining() < s0.remaining(),
                s0 == *old(self),
            decreases self.remaining(),
        {
            let method = match &self.current_token.kind {
                TokenType::Identifier(name) => {
                    if self.peek_token.kind.is_tag(T_LPAREN) {
                        method_name(name)
                    } else {
                        None
                    }
                },
                _ => None,
            };
            let method = match method {
                Some(m) => m,
                None => {
                    break;
                },
            };
            self.advance();
            match self.expect_advance(&TokenType::LParen) {
                Ok(_) => {},
                Err(e) => {
                    return Err(e);
                },
            }
            match self.apply_menu_method(method.as_str(), &mut config, &mut entries) {
                Ok(()) => {},
                Err(e) => {
                    return Err(e);
                },
            }
            self.skip_newlines();
            match self.expect_advance(&TokenType::RParen) {
                Ok(_) => {},
                Err(e) => {
                    return Err(e);
                },
            }
            self.skip_newlines();
        }
        let end = self.current_token.span.start;
        Ok(
            Spanned {
                node: StatementKind::MenuBuilder { is_global, entries, config: Box::new(config) },
                span: start..end,
            },
        )
    }

    /// Parses a menu entry's label: `"text"` or `("text", "hover")`.
    fn parse_menu_entry_label(&mut self) -> (r: ParseResult<(Expression, Option<Expression>)>)
        requires
            old(self).wf(),
        ensures
            stepped(*old(self), *final(self)),
            r is Ok ==> final(self).remaining() < old(self).remaining(),
            r matches Ok(p) ==> (p.1 is Some <==> old(self).current().kind@.tag == T_LPAREN),
            !is_prefix_start(old(self).current().kind@.tag) ==> r is Err && *final(self) == *old(self),
            literal_value(old(self).current().kind) matches Some(v) ==> stops_at(
                old(self).peek().kind@.tag,
                Precedence::Lowest,
            ) ==> (r matches Ok(p) && p.0.node == ExpressionKind::Number(v) && p.1 is None),
    {
        if self.current_is(T_LPAREN) {
            self.advance();
            let label = match self.parse_expression(Precedence::Lowest) {
                Ok(e) => e,
                Err(e) => {
                    return Err(e);
                },
            };
            match self.expect_advance(&TokenType::Comma) {
                Ok(_) => {},
                Err(e) => {
                    return Err(e);
                },
            }
            self.skip_newlines();
            let hover = match self.parse_expression(Precedence::Lowest) {
                Ok(e) => e,
                Err(e) => {
                    return Err(e);
                },
            };
            self.skip_newlines();
            match self.expect_advance(&TokenType::RParen) {
                Ok(_) => {},
                Err(e) => {
                    return Err(e);
                },
            }
            Ok((label, Some(hover)))
        } else {
            let label = match self.parse_expression(Precedence::Lowest) {
                Ok(e) => e,
                Err(e) => {
                    return Err(e);
                },
            };
            Ok((label, None))
        }
    }

    /// Applies one builder method to the menu's configuration and entries.
    fn apply_menu_method(
        &mut self,
        method: &str,
        config: &mut MenuConfig,
        entries: &mut Vec<MenuEntry>,
    ) -> (r: ParseResult<()>)
        requires
            old(self).wf(),
        ensures
            stepped(*old(self), *final(self)),
            r is Ok && menu_method_code(method@) == 0 ==> final(config).anchor is Some,
            r is Ok && menu_method_code(method@) == 1 ==> final(config).scrollable is Some,
            r is Ok && menu_method_code(method@) == 2 ==> final(config).position is Some,
            r is Ok && menu_method_code(method@) == 3 ==> final(config).cursor is Some,
            r is Ok && menu_method_code(method@) == 4 ==> final(config).prompt is Some,
            r is Ok && menu_method_code(method@) == 5 ==> final(config).width is Some,
            r is Ok && menu_method_code(method@) == 6 ==> final(config).columns is Some,
            r is Ok && menu_method_code(method@) == 7 ==> final(config).cancel is Some,
            menu_method_code(method@) == 8 ==> (r matches Err(CompileError::Parse { span, message })
                && span == old(self).current().span && message@ == "unknown Menu builder method '."@
                + method@ + "'"@),
    {
        let code = menu_method(method);
        if code == 0 {
            let side_token = match self.expect_advance(&TokenType::Identifier(String::new())) {
                Ok(t) => t,
                Err(e) => {
                    return Err(e);
                },
            };
            let span = side_token.span.start..side_token.span.end;
            let side = take_identifier(side_token);
            let right = if str_eq(side.as_str(), "left") {
                false
            } else if str_eq(side.as_str(), "right") {
                true
            } else {
                let m = concat3("anchor expects 'left' or 'right', got '", side.as_str(), "'");
                return Err(parse_error(span, m));
            };
            config.anchor = Some(right);
        } else if code == 1 {
            let value = if self.current_is(T_RPAREN) {
                true
            } else {
                match self.parse_bool_arg() {
                    Ok(b) => b,
                    Err(e) => {
                        return Err(e);
                    },
                }
            };
            config.scrollable = Some(value);
        } else if code == 2 {
            let x = match self.parse_expression(Precedence::Lowest) {
                Ok(e) => e,
                Err(e) => {
                    return Err(e);
                },
            };
            match self.expect_advance(&TokenType::Comma) {
                Ok(_) => {},
                Err(e) => {
                    return Err(e);
                },
            }
            self.skip_newlines();
            let y = match self.parse_expression(Precedence::Lowest) {
                Ok(e) => e,
                Err(e) => {
                    return Err(e);
                },
            };
            config.position = Some((x, y));
        } else if code <= 6 {
            let value = match self.parse_expression(Precedence::Lowest) {
                Ok(e) => e,
                Err(e) => {
                    return Err(e);
                },
            };
            if code == 3 {
                config.cursor = Some(value);
            } else if code == 4 {
                config.prompt = Some(value);
            } else if code == 5 {
                config.width = Some(value);
            } else {
                config.columns = Some(value);
            }
        } else if code == 7 {
            let (label, hover) = match self.parse_menu_entry_label() {
                Ok(p) => p,
                Err(e) => {
                    return Err(e);
                },
            };
            if self.current_is(T_ARROW) {
                self.advance();
                let target = match self.parse_expression(Precedence::Lowest) {
                    Ok(e) => e,
                    Err(e) => {
                        return Err(e);
                    },
                };
                config.cancel = Some(copy_expression(&target));
                entries.push(MenuEntry { label, hover, target });
            } else {
                if hover.is_some() {
                    return Err(self.error_here(string_from("cancel hover text requires '-> target'")));
                }
                config.cancel = Some(label);
            }
        } else {
            return Err(self.error_here(concat3("unknown Menu builder method '.", method, "'")));
        }
        Ok(())
    }

    /// Parses a literal `true` or `false`.
    fn parse_bool_arg(&mut self) -> (r: ParseResult<bool>)
        requires
            old(self).wf(),
        ensures
            stepped(*old(self), *final(self)),
            old(self).current().kind@.tag == T_TRUE ==> r == Ok::<bool, CompileError>(true)
                && final(self).remaining() < old(self).remaining(),
            old(self).current().kind@.tag == T_FALSE ==> r == Ok::<bool, CompileError>(false)
                && final(self).remaining() < old(self).remaining(),
            old(self).current().kind@.tag != T_TRUE && old(self).current().kind@.tag != T_FALSE
                ==> *final(self) == *old(self) && (r matches Err(
                CompileError::Parse { span, message },
            ) && span == old(self).current().span && message@ == "expected 'true' or 'false'"@),
    {
        if self.current_is(T_TRUE) {
            self.advance();
            Ok(true)
        } else if self.current_is(T_FALSE) {
            self.advance();
            Ok(false)
        } else {
            Err(self.error_here(string_from("expected 'true' or 'false'")))
        }
    }

    /// Parses `jump Target`.
    fn parse_jump(&mut self) -> (r: ParseResult<Statement>)
        requires
            old(self).wf(),
        ensures
            stepped(*old(self), *final(self)),
            r is Ok ==> final(self).remaining() < old(self).remaining(),
            r matches Ok(st) ==> st.node is Jump && st.span.start == old(self).current().span.start,
            r is Err && final(self).remaining() == old(self).remaining() ==> old(
                self,
            ).current().kind@.tag != T_JUMP,
    {
        let start = self.current_token.span.start;
        match self.expect_advance(&TokenType::Jump) {
            Ok(_) => {},
            Err(e) => {
                return Err(e);
            },
        }
        let target_expr = match &self.current_token.kind {
            TokenType::Identifier(name) => {
                let span = self.current_token.span.start..self.current_token.span.end;
                let name_clone = name.clone();
                self.advance();
                Spanned { node: ExpressionKind::Identifier(name_clone), span }
            },
            _ => {
                return Err(
                    self.error_found("Expected label or identifier as jump target, found "),
                );
            },
        };
        let end = self.current_token.span.start;
        Ok(Spanned { node: StatementKind::Jump(target_expr), span: start..end })
    }

    /// Parses `alias value as Name`.
    pub fn parse_alias(&mut self) -> (r: ParseResult<Statement>)
        requires
            old(self).wf(),
        ensures
            stepped(*old(self), *final(self)),
            r is Ok ==> final(self).remaining() < old(self).remaining(),
            r matches Ok(st) ==> st.node is AliasStatement && st.span.start == old(
                self,
            ).current().span.start,
            r is Err && final(self).remaining() == old(self).remaining() ==> old(
                self,
            ).current().kind@.tag != T_ALIAS,
    {
        let start = self.current_token.span.start;
        match self.expect_advance(&TokenType::Alias) {
            Ok(_) => {},
            Err(e) => {
                return Err(e);
            },
        }
        let value = match self.parse_expression(Precedence::Lowest) {
            Ok(e) => e,
            Err(e) => {
                return Err(e);
            },
        };
        match self.expect_advance(&TokenType::As) {
            Ok(_) => {},
            Err(e) => {
                return Err(e);
            },
        }
        let name_token = match self.expect_advance(&TokenType::Identifier(String::new())) {
            Ok(t) => t,
            Err(e) => {
                return Err(e);
            },
        };
        let name = take_identifier(name_token);
        let end = self.current_token.span.start;
        Ok(Spanned { node: StatementKind::AliasStatement { value, name }, span: start..end })
    }
}

impl Parser {
    // -----------------------------------------------------------------------
    // Top-level items
    // -----------------------------------------------------------------------

    /// Parses a function body up to the next top-level boundary.
    fn parse_function_body(&mut self) -> (r: ParseResult<Vec<Statement>>)
        requires
            old(self).wf(),
        ensures
            stepped(*old(self), *final(self)),
            r is Ok ==> final(self).at_boundary(),
            old(self).at_boundary() ==> (r matches Ok(b) && b@.len() == 0 && *final(self) == *old(self)),
            old(self).recovering() ==> r is Ok,
    {
        let ghost s0 = *self;
        let mut body: Vec<Statement> = Vec::new();
        while !self.current_is(T_EOF)
            invariant
                stepped(s0, *self),
                s0 == *old(self),
                s0.at_boundary() ==> *self == s0 && body@.len() == 0,
            decreases self.remaining(),
        {
            if self.at_top_level_boundary() {
                return Ok(body);
            }
            if self.current_is(T_NEWLINE) {
                self.advance();
                continue;
            }
            let ghost before = *self;
            match self.parse_statement() {
                Ok(stmt) => body.push(stmt),
                Err(e) => {
                    if self.recover {
                        let span = self.current_token.span.start..self.current_token.span.end;
                        self.errors.push(e);
                        body.push(Spanned { node: StatementKind::Error, span });
                        self.synchronize_statement();
                    } else {
                        return Err(e);
                    }
                },
            }
            assert(self.remaining() < before.remaining());
        }
        Ok(body)
    }

    /// Parses a bare `Label:` at top level: a private function without a
    /// jump-table entry.
    fn parse_bare_label(&mut self) -> (r: ParseResult<Statement>)
        requires
            old(self).wf(),
        ensures
            stepped(*old(self), *final(self)),
            r is Ok ==> final(self).remaining() < old(self).remaining(),
            r matches Ok(st) ==> (st.node matches StatementKind::Function { headers, .. }
                && headers@.len() == 1 && headers@[0].id is None && !headers@[0].is_public
                && headers@[0].name@ == old(self).current().kind@.text),
            r is Err && final(self).remaining() == old(self).remaining() ==> old(
                self,
            ).current().kind@.tag != T_IDENTIFIER,
    {
        let start = self.current_token.span.start;
        let name_token = match self.expect_advance(&TokenType::Identifier(String::new())) {
            Ok(t) => t,
            Err(e) => {
                return Err(e);
            },
        };
        let name = take_identifier(name_token);
        match self.expect_advance(&TokenType::Colon) {
            Ok(_) => {},
            Err(e) => {
                return Err(e);
            },
        }
        let body = match self.parse_function_body() {
            Ok(b) => b,
            Err(e) => {
                return Err(e);
            },
        };
        let end = self.current_token.span.start;
        Ok(
            Spanned {
                node: StatementKind::Function {
                    headers: vec![FunctionHeader { name, id: None, is_public: false }],
                    body,
                },
                span: start..end,
            },
        )
    }

    /// Parses the ids of one script header: `#N` or `#[N, M-P, ...]`.
    fn parse_header_ids(&mut self) -> (r: ParseResult<Vec<u32>>)
        requires
            old(self).wf(),
        ensures
            stepped(*old(self), *final(self)),
            r is Ok ==> final(self).remaining() < old(self).remaining(),
            r matches Ok(ids) ==> ids@.len() > 0,
            old(self).current().kind@.tag == T_NUM ==> (r matches Ok(ids) && ids@ == seq![old(self).current().kind@.num as u32]
                && final(self).current() == old(self).peek()),
            old(self).current().kind@.tag != T_NUM && old(self).current().kind@.tag != T_LBRACKET ==> (
            r matches Err(CompileError::Parse { span, message }) && span == old(self).current().span
                && message@ == unexpected_message(TokenType::Num(0), old(self).current().kind)
                && *final(self) == *old(self)),
            header_range_form(*old(self)) ==> ({
                let (lo, hi) = header_range_bounds(*old(self));
                &&& hi < lo ==> (r matches Err(CompileError::Parse { span, message }) && span
                    == old(self).peek().span && message@ == "Range "@ + nat_to_decimal(lo as nat)
                    + "-"@ + nat_to_decimal(hi as nat) + " is empty: end must be >= start"@)
                &&& lo <= hi && header_range_closed(*old(self)) ==> (r matches Ok(ids) && ids@
                    == Seq::new((hi - lo + 1) as nat, |k: int| (lo + k) as u32))
            }),
    {
        let ghost s0 = *self;
        let ghost form = header_range_form(s0);
        if self.current_is(T_LBRACKET) {
            self.advance();
            let ghost s1 = *self;
            let mut ids: Vec<u32> = Vec::new();
            let ghost mut first = true;
            loop
                invariant_except_break
                    first ==> *self == s1 && ids@.len() == 0,
                invariant
                    stepped(s0, *self),
                    self.remaining() < s0.remaining(),
                    s0 == *old(self),
                    s0.current().kind@.tag == T_LBRACKET,
                    form == header_range_form(s0),
                    s1.current() == s0.peek(),
                    token_matches_step(s1.peek(), s0.source(), spec_next_token(s0.source(), s0.position())),
                    s1.position() == spec_next_token(s0.source(), s0.position()).end,
                    s1.source() == s0.source(),
                    s1.wf(),
                    !first ==> ids@.len() > 0,
                    !first ==> !(form && (header_range_bounds(s0).1 < header_range_bounds(s0).0
                        || header_range_closed(s0))),
                ensures
                    ids@.len() > 0,
                    !(form && header_range_bounds(s0).1 < header_range_bounds(s0).0),
                    form && header_range_bounds(s0).0 <= header_range_bounds(s0).1 && header_range_closed(s0)
                        ==> ids@ == Seq::new(
                        (header_range_bounds(s0).1 - header_range_bounds(s0).0 + 1) as nat,
                        |k: int| (header_range_bounds(s0).0 + k) as u32,
                    ) && self.current().kind@ == spec_next_token(
                        s0.source(),
                        spec_next_token(s0.source(), spec_next_token(s0.source(), s0.position()).end).end,
                    ).kind,
                decreases self.remaining(),
            {
                let lo_token = match self.expect_advance(&TokenType::Num(0)) {
                    Ok(t) => t,
                    Err(e) => {
                        return Err(e);
                    },
                };
                let lo = take_number(&lo_token) as u32;
                if self.current_is(T_MINUS) {
                    self.advance();
                    let hi_token = match self.expect_advance(&TokenType::Num(0)) {
                        Ok(t) => t,
                        Err(e) => {
                            return Err(e);
                        },
                    };
                    let hi = take_number(&hi_token) as u32;
                    if hi < lo {
                        let l = u64_to_string(lo as u64);
                        let h = u64_to_string(hi as u64);
                        let m1 = concat3("Range ", l.as_str(), "-");
                        let m2 = concat3(m1.as_str(), h.as_str(), " is empty: end must be >= start");
                        return Err(parse_error(lo_token.span.start..lo_token.span.end, m2));
                    }
                    let mut k: u64 = lo as u64;
                    let ghost ids0 = ids@;
                    while k <= hi as u64
                        invariant
                            lo <= k <= hi as u64 + 1,
                            k > lo ==> ids@.len() > 0,
                            ids@ == ids0 + Seq::new((k - lo) as nat, |j: int| (lo + j) as u32),
                        decreases hi as u64 + 1 - k,
                    {
                        ids.push(k as u32);
                        k = k + 1;
                        assert(ids@ =~= ids0 + Seq::new((k - lo) as nat, |j: int| (lo + j) as u32));
                    }
                    assert(first ==> ids0.len() == 0);
                } else {
                    ids.push(lo);
                }
                if self.current_is(T_COMMA) {
                    self.advance();
                } else {
                    break;
                }
                proof {
                    first = false;
                }
            }
            match self.expect_advance(&TokenType::RBracket) {
                Ok(_) => {},
                Err(e) => {
                    return Err(e);
                },
            }
            Ok(ids)
        } else {
            let id_token = match self.expect_advance(&TokenType::Num(0)) {
                Ok(t) => t,
                Err(e) => {
                    return Err(e);
                },
            };
            let num = take_number(&id_token);
            Ok(vec![num as u32])
        }
    }

    /// Parses a script: one or more stacked `script Name #N:` headers, then
    /// the body up to the next top-level item.
    pub fn parse_function(&mut self) -> (r: ParseResult<Statement>)
        requires
            old(self).wf(),
        ensures
            stepped(*old(self), *final(self)),
            r is Ok ==> final(self).remaining() < old(self).remaining(),
            r matches Ok(st) ==> (st.node matches StatementKind::Function { headers, .. }
                && headers@.len() > 0 && forall|k: int|
                0 <= k < headers@.len() ==> (#[trigger] headers@[k]).is_public
                && headers@[k].id is Some),
            r is Ok ==> final(self).at_boundary(),
            r is Err && final(self).remaining() == old(self).remaining() ==> old(
                self,
            ).current().kind@.tag != T_SCRIPT,
            old(self).current().kind@.tag != T_SCRIPT ==> *final(self) == *old(self) && (r matches Err(
                CompileError::Parse { span, message },
            ) && span == old(self).current().span && message@
                == "Expected script definition with `script name #N:`"@),
            r matches Ok(st) ==> (st.node matches StatementKind::Function { headers, .. }
                && headers@[0].name@ == old(self).peek().kind@.text),
            old(self).current().kind@.tag == T_SCRIPT && old(self).peek().kind@.tag == T_IDENTIFIER
                && token_after(*old(self), 0).kind.tag == T_HASH && token_after(*old(self), 1).kind.tag == T_NUM
                ==> (r matches Ok(st) ==> (st.node matches StatementKind::Function { headers, .. }
                && headers@[0].id == Some(token_after(*old(self), 1).kind.num as u32))),
    {
        let ghost s0 = *self;
        let start = self.current_token.span.start;
        let mut headers: Vec<FunctionHeader> = Vec::new();
        loop
            invariant
                stepped(s0, *self),
                s0 == *old(self),
                headers@.len() > 0 ==> self.remaining() < s0.remaining(),
                headers@.len() == 0 ==> *self == s0,
                s0.current().kind@.tag != T_SCRIPT ==> headers@.len() == 0,
                forall|k: int|
                    0 <= k < headers@.len() ==> (#[trigger] headers@[k]).is_public
                        && headers@[k].id is Some,
                headers@.len() > 0 ==> headers@[0].name@ == s0.peek().kind@.text,
                headers@.len() > 0 && s0.current().kind@.tag == T_SCRIPT && s0.peek().kind@.tag == T_IDENTIFIER
                    && token_after(s0, 0).kind.tag == T_HASH && token_after(s0, 1).kind.tag == T_NUM
                    ==> headers@[0].id == Some(token_after(s0, 1).kind.num as u32),
            ensures
                self.current().kind@.tag != T_SCRIPT,
            decreases self.remaining(),
        {
            if !self.current_is(T_SCRIPT) {
                break;
            }
            let ghost iteration_start = *self;
            match self.expect_advance(&TokenType::Script) {
                Ok(_) => {},
                Err(e) => {
                    return Err(e);
                },
            }
            let name_token = match self.expect_advance(&TokenType::Identifier(String::new())) {
                Ok(t) => t,
                Err(e) => {
                    return Err(e);
                },
            };
            let name = take_identifier(name_token);
            let ghost after_name = *self;
            match self.expect_advance(&TokenType::Hash) {
                Ok(_) => {},
                Err(e) => {
                    return Err(e);
                },
            }
            proof {
                if headers@.len() == 0 {
                    assert(iteration_start == s0);
                }
            }
            let ids = match self.parse_header_ids() {
                Ok(ids) => ids,
                Err(e) => {
                    return Err(e);
                },
            };
            match self.expect_advance(&TokenType::Colon) {
                Ok(_) => {},
                Err(e) => {
                    return Err(e);
                },
            }
            let mut i: usize = 0;
            let ghost headers_before = headers@.len();
            let ghost old_first = headers@[0];
            while i < ids.len()
                invariant
                    i <= ids@.len(),
                    headers@.len() == headers_before + i,
                    forall|k: int|
                        0 <= k < headers@.len() ==> (#[trigger] headers@[k]).is_public
                            && headers@[k].id is Some,
                    headers_before == 0 ==> name@ == s0.peek().kind@.text,
                    headers@.len() > 0 ==> headers@[0].name@ == s0.peek().kind@.text,
                    headers_before > 0 ==> headers@[0] == old_first,
                    headers_before == 0 && i > 0 ==> headers@[0].id == Some(ids@[0]),
                    ids@.len() > 0,
                decreases ids.len() - i,
            {
                headers.push(FunctionHeader { name: name.clone(), id: Some(ids[i]), is_public: true });
                i = i + 1;
            }
            while self.current_is(T_NEWLINE)
                invariant
                    stepped(s0, *self),
                    self.remaining() < iteration_start.remaining(),
                    iteration_start.remaining() <= s0.remaining(),
                decreases self.remaining(),
            {
                self.advance();
            }
        }
        if headers.len() == 0 {
            return Err(self.error_here(string_from("Expected script definition with `script name #N:`")));
        }
        let body = match self.parse_function_body() {
            Ok(b) => b,
            Err(e) => {
                return Err(e);
            },
        };
        let end = self.current_token.span.start;
        Ok(Spanned { node: StatementKind::Function { headers, body }, span: start..end })
    }

    /// Parses `action Name: ... EndMovement`.
    pub fn parse_action(&mut self) -> (r: ParseResult<Statement>)
        requires
            old(self).wf(),
        ensures
            stepped(*old(self), *final(self)),
            r is Ok ==> final(self).remaining() < old(self).remaining(),
            r matches Ok(st) ==> (st.node matches StatementKind::Action { body, .. } && body@.len()
                > 0 && body@.last().node is EndMovement),
            r is Err && final(self).remaining() == old(self).remaining() ==> old(
                self,
            ).current().kind@.tag != T_ACTION,
    {
        let start = self.current_token.span.start;
        match self.expect_advance(&TokenType::Action) {
            Ok(_) => {},
            Err(e) => {
                return Err(e);
            },
        }
        let name_token = match self.expect_advance(&TokenType::Identifier(String::new())) {
            Ok(t) => t,
            Err(e) => {
                return Err(e);
            },
        };
        let name = take_identifier(name_token);
        match self.expect_advance(&TokenType::Colon) {
            Ok(_) => {},
            Err(e) => {
                return Err(e);
            },
        }
        let mut body = match self.parse_block(&[TokenType::EndMovement]) {
            Ok(b) => b,
            Err(e) => {
                return Err(e);
            },
        };
        if self.current_is(T_ENDMOVEMENT) {
            let span = self.current_token.span.start..self.current_token.span.end;
            self.advance();
            body.push(Spanned { node: StatementKind::EndMovement, span });
        } else {
            return Err(self.error_here(string_from("Expected 'EndMovement' to close action")));
        }
        let end = self.current_token.span.start;
        Ok(Spanned { node: StatementKind::Action { name, body }, span: start..end })
    }

    /// Parses `#include "path"`; the path is the literal's segments joined.
    pub fn parse_include(&mut self) -> (r: ParseResult<Statement>)
        requires
            old(self).wf(),
        ensures
            stepped(*old(self), *final(self)),
            r is Ok ==> final(self).remaining() < old(self).remaining(),
            r matches Ok(st) ==> st.node is Include,
            r is Err && final(self).remaining() == old(self).remaining() ==> old(
                self,
            ).current().kind@.tag != T_INCLUDE,
    {
        let start = self.current_token.span.start;
        match self.expect_advance(&TokenType::Include) {
            Ok(_) => {},
            Err(e) => {
                return Err(e);
            },
        }
        let path_token = match self.expect_advance(&TokenType::String(Vec::new())) {
            Ok(t) => t,
            Err(e) => {
                return Err(e);
            },
        };
        let path = match &path_token.kind {
            TokenType::String(segs) => join_texts(segs),
            _ => {
                proof {
                    lemma_tag_payload(path_token.kind);
                }
                vstd::pervasive::unreached()
            },
        };
        let end = self.current_token.span.start;
        Ok(Spanned { node: StatementKind::Include { path }, span: start..end })
    }

    /// Parses `#define NAME value`.
    pub fn parse_define(&mut self) -> (r: ParseResult<Statement>)
        requires
            old(self).wf(),
        ensures
            stepped(*old(self), *final(self)),
            r is Ok ==> final(self).remaining() < old(self).remaining(),
            r matches Ok(st) ==> st.node is Define,
            r is Err && final(self).remaining() == old(self).remaining() ==> old(
                self,
            ).current().kind@.tag != T_DEFINE,
    {
        let start = self.current_token.span.start;
        match self.expect_advance(&TokenType::Define) {
            Ok(_) => {},
            Err(e) => {
                return Err(e);
            },
        }
        let name_token = match self.expect_advance(&TokenType::Identifier(String::new())) {
            Ok(t) => t,
            Err(e) => {
                return Err(e);
            },
        };
        let name = take_identifier(name_token);
        let value = match self.parse_expression(Precedence::Lowest) {
            Ok(e) => e,
            Err(e) => {
                return Err(e);
            },
        };
        let end = self.current_token.span.start;
        Ok(Spanned { node: StatementKind::Define { name, value }, span: start..end })
    }

    /// Parses one top-level item: a script, action, alias, include, define
    /// or bare label.
    pub fn parse_top_level_stmt(&mut self) -> (r: ParseResult<Statement>)
        requires
            old(self).wf(),
        ensures
            stepped(*old(self), *final(self)),
            r is Ok ==> final(self).remaining() < old(self).remaining(),
            r matches Ok(st) ==> is_top_level_item(st),
            old(self).current().kind@.tag == T_SCRIPT ==> (r matches Ok(st) ==> (st.node matches StatementKind::Function {
                headers,
                ..
            } && headers@[0].name@ == old(self).peek().kind@.text)),
            old(self).current().kind@.tag == T_ACTION ==> (r matches Ok(st) ==> st.node is Action),
            r is Err && final(self).remaining() == old(self).remaining() ==> !old(self).at_boundary()
                || old(self).current().kind@.tag == T_EOF,
            !is_top_level_start(*old(self)) ==> *final(self) == *old(self) && (r matches Err(
                CompileError::Parse { span, message },
            ) && span == old(self).current().span && message@
                == "Expected top-level definition (script, label, action, or alias), found "@
                + token_display(old(self).current().kind@)),
    {
        let t = self.current_token.kind.tag();
        if t == T_SCRIPT {
            self.parse_function()
        } else if t == T_ACTION {
            self.parse_action()
        } else if t == T_ALIAS {
            self.parse_alias()
        } else if t == T_INCLUDE {
            self.parse_include()
        } else if t == T_DEFINE {
            self.parse_define()
        } else if t == T_IDENTIFIER && self.peek_token.kind.is_tag(T_COLON) {
            self.parse_bare_label()
        } else {
            Err(
                self.error_found(
                    "Expected top-level definition (script, label, action, or alias), found ",
                ),
            )
        }
    }
}

/// Whether the parser stands at the start of a top-level item.
pub open spec fn is_top_level_start(p: Parser) -> bool {
    let t = p.current().kind@.tag;
    t == T_SCRIPT || t == T_ACTION || t == T_ALIAS || t == T_INCLUDE || t == T_DEFINE || (t
        == T_IDENTIFIER && p.peek().kind@.tag == T_COLON)
}

/// The segment texts of a string literal, concatenated.
fn join_texts(segs: &Vec<(String, usize)>) -> (r: String)
    ensures
        r@ == concat_segments(segs@),
{
    let mut out = String::new();
    let mut i: usize = 0;
    while i < segs.len()
        invariant
            i <= segs@.len(),
            out@ == concat_segments(segs@.take(i as int)),
        decreases segs.len() - i,
    {
        assert(segs@.take(i + 1).drop_last() =~= segs@.take(i as int));
        out = concat(out.as_str(), segs[i].0.as_str());
        i = i + 1;
    }
    assert(segs@.take(segs@.len() as int) =~= segs@);
    out
}

/// Whether a parser stands at a header slot range `[lo-hi`: the current
/// token is `[`, then a number, `-` and a number follow.
pub open spec fn header_range_form(p: Parser) -> bool {
    let src = p.source();
    let t3 = spec_next_token(src, p.position());
    let t4 = spec_next_token(src, t3.end);
    &&& p.current().kind@.tag == T_LBRACKET
    &&& p.peek().kind@.tag == T_NUM
    &&& t3.kind.tag == T_MINUS
    &&& t4.kind.tag == T_NUM
}

/// The bounds of a header slot range `[lo-hi`, as slot numbers.
pub open spec fn header_range_bounds(p: Parser) -> (u32, u32) {
    let src = p.source();
    let t3 = spec_next_token(src, p.position());
    let t4 = spec_next_token(src, t3.end);
    (p.peek().kind@.num as u32, t4.kind.num as u32)
}

/// Whether `]` follows a header slot range `[lo-hi`.
pub open spec fn header_range_closed(p: Parser) -> bool {
    let src = p.source();
    let t3 = spec_next_token(src, p.position());
    let t4 = spec_next_token(src, t3.end);
    spec_next_token(src, t4.end).kind.tag == T_RBRACKET
}

/// Every alias statement of `aliases` is also among `items`, at the same
/// place.
pub open spec fn aliases_among(items: Seq<Statement>, aliases: Seq<Statement>) -> bool {
    forall|k: int|
        #![trigger aliases[k]]
        0 <= k < aliases.len() ==> exists|i: int|
            #![trigger items[i]]
            0 <= i < items.len() && items[i].span.start == aliases[k].span.start && items[i].span.end
                == aliases[k].span.end && items[i].node is AliasStatement
}

/// The spans of the alias statements among `items`, in order.
pub open spec fn alias_spans(items: Seq<Statement>) -> Seq<(usize, usize)>
    decreases items.len(),
{
    if items.len() == 0 {
        Seq::empty()
    } else if items.last().node is AliasStatement {
        alias_spans(items.drop_last()).push((items.last().span.start, items.last().span.end))
    } else {
        alias_spans(items.drop_last())
    }
}

/// The spans of statements, in order.
pub open spec fn spans_of(ss: Seq<Statement>) -> Seq<(usize, usize)> {
    ss.map_values(|st: Statement| (st.span.start, st.span.end))
}

/// No two scripts among `items` are declared under the same first name.
pub open spec fn distinct_script_names(items: Seq<Statement>) -> bool {
    forall|i: int, j: int|
        0 <= i < j < items.len() && (#[trigger] first_header_name(items[i])) is Some
            ==> first_header_name(items[i]) != #[trigger] first_header_name(items[j])
}

impl Parser {
    /// Parses a whole file.
    ///
    /// A script name may be declared by one block of stacked headers only: a
    /// second block with the same first name is a duplicate definition. With
    /// recovery on, errors are collected and parsing always succeeds.
    pub fn parse_script_file(&mut self) -> (r: ParseResult<ScriptFile>)
        requires
            old(self).wf(),
        ensures
            stepped(*old(self), *final(self)),
            old(self).recovering() ==> r is Ok,
            r is Ok ==> final(self).current().kind@.tag == T_EOF,
            r matches Ok(f) ==> f.jump_table_end_marker_count == 1 && (forall|i: int|
                0 <= i < f.items@.len() ==> is_top_level_item(#[trigger] f.items@[i])) && (forall|
                k: int,
            | 0 <= k < f.aliases@.len() ==> (#[trigger] f.aliases@[k]).node is AliasStatement),
            !old(self).recovering() ==> (r matches Ok(f) ==> distinct_script_names(f.items@)),
            r matches Ok(f) ==> aliases_among(f.items@, f.aliases@),
            r matches Ok(f) ==> spans_of(f.aliases@) == alias_spans(f.items@),
            old(self).current().kind@.tag == T_EOF ==> (r matches Ok(f) && f.items@.len() == 0
                && f.aliases@.len() == 0 && *final(self) == *old(self)),
            !old(self).recovering() && old(self).current().kind@.tag != T_EOF && old(self).current().kind@.tag
                != T_NEWLINE ==> (r matches Ok(f) ==> f.items@.len() > 0),
            !old(self).recovering() && old(self).current().kind@.tag == T_SCRIPT ==> (r matches Ok(f) ==> (
            f.items@[0].node matches StatementKind::Function { headers, .. } && headers@[0].name@ == old(
                self,
            ).peek().kind@.text)),
            !old(self).recovering() && old(self).current().kind@.tag == T_ACTION ==> (r matches Ok(f) ==> f.items@[
                0].node is Action),
    {
        let ghost s0 = *self;
        let mut aliases: Vec<Statement> = Vec::new();
        let mut items: Vec<Statement> = Vec::new();
        let mut seen: Vec<String> = Vec::new();
        while !self.current_is(T_EOF)
            invariant
                stepped(s0, *self),
                s0 == *old(self),
                forall|k: int|
                    0 <= k < aliases@.len() ==> (#[trigger] aliases@[k]).node is AliasStatement,
                forall|i: int| 0 <= i < items@.len() ==> is_top_level_item(#[trigger] items@[i]),
                forall|i: int|
                    0 <= i < items@.len() ==> (#[trigger] first_header_name(items@[i]) matches Some(
                        n,
                    ) ==> exists|k: int| 0 <= k < seen@.len() && (#[trigger] seen@[k])@ == n),
                !s0.recovering() ==> distinct_script_names(items@),
                aliases_among(items@, aliases@),
                spans_of(aliases@) == alias_spans(items@),
                s0.current().kind@.tag == T_EOF ==> *self == s0 && items@.len() == 0 && aliases@.len() == 0,
                !s0.recovering() && s0.current().kind@.tag != T_EOF && s0.current().kind@.tag != T_NEWLINE
                    ==> items@.len() > 0 || *self == s0,
                !s0.recovering() && s0.current().kind@.tag == T_SCRIPT && items@.len() > 0 ==> (
                items@[0].node matches StatementKind::Function { headers, .. } && headers@[0].name@
                    == s0.peek().kind@.text),
                !s0.recovering() && s0.current().kind@.tag == T_ACTION && items@.len() > 0 ==> items@[0].node is Action,
            decreases self.remaining(),
        {
            if self.current_is(T_NEWLINE) {
                self.advance();
                continue;
            }
            let ghost before = *self;
            let stmt = match self.parse_top_level_stmt() {
                Ok(st) => st,
                Err(e) => {
                    if self.recover {
                        self.errors.push(e);
                        self.synchronize_top_level();
                        continue;
                    }
                    return Err(e);
                },
            };
            let ghost items_before = items@;
            let ghost seen_before = seen@;
            let ghost aliases_before = aliases@;
            match &stmt.node {
                StatementKind::Function { headers, .. } => {
                    if headers.len() > 0 {
                        let first = &headers[0].name;
                        if contains_name(&seen, first) {
                            let msg = concat3(
                                "Duplicate definition for script '",
                                first.as_str(),
                                "'. All headers for a script must be stacked together before the body.",
                            );
                            let err = parse_error(stmt.span.start..stmt.span.end, msg);
                            if self.recover {
                                self.errors.push(err);
                            } else {
                                return Err(err);
                            }
                        } else {
                            seen.push(first.clone());
                            assert(seen@[seen@.len() - 1]@ == first@);
                        }
                    }
                },
                StatementKind::AliasStatement { value, name } => {
                    aliases.push(
                        Spanned {
                            node: StatementKind::AliasStatement {
                                value: copy_expression(value),
                                name: name.clone(),
                            },
                            span: stmt.span.start..stmt.span.end,
                        },
                    );
                },
                _ => {},
            }
            proof {
                assert(aliases@ == aliases_before || (aliases@.len() == aliases_before.len() + 1
                    && aliases@.last().span.start == stmt.span.start && aliases@.last().span.end
                    == stmt.span.end && stmt.node is AliasStatement && aliases@.drop_last() =~= aliases_before));
            }
            let ghost new_name = first_header_name(stmt);
            assert(new_name matches Some(n) ==> exists|k: int|
                0 <= k < seen@.len() && (#[trigger] seen@[k])@ == n);
            assert(forall|k: int| 0 <= k < seen_before.len() ==> seen@[k] == seen_before[k]);
            assert(!s0.recovering() && new_name is Some ==> forall|k: int|
                0 <= k < seen_before.len() ==> (#[trigger] seen_before[k])@ != new_name->0);
            items.push(stmt);
            proof {
                assert(items@.drop_last() == items_before);
                assert(items@.last() == stmt);
                if stmt.node is AliasStatement {
                    assert(spans_of(aliases@) =~= spans_of(aliases_before).push((stmt.span.start, stmt.span.end)));
                } else {
                    assert(aliases@ == aliases_before);
                }
                assert forall|k: int| #![trigger aliases@[k]] 0 <= k < aliases@.len() implies exists|i: int|
                    #![trigger items@[i]]
                    0 <= i < items@.len() && items@[i].span.start == aliases@[k].span.start && items@[i].span.end
                        == aliases@[k].span.end && items@[i].node is AliasStatement by {
                    if k < aliases_before.len() {
                        assert(aliases@[k] == aliases_before[k]) by {
                            if aliases@ != aliases_before {
                                assert(aliases@.drop_last()[k] == aliases@[k]);
                            }
                        }
                        let i = choose|i: int|
                            #![trigger items_before[i]]
                            0 <= i < items_before.len() && items_before[i].span.start == aliases_before[k].span.start
                                && items_before[i].span.end == aliases_before[k].span.end
                                && items_before[i].node is AliasStatement;
                        assert(items@[i] == items_before[i]);
                    } else {
                        let i = items@.len() - 1;
                        assert(items@[i] == stmt);
                    }
                }
                assert forall|i: int|
                    0 <= i < items@.len() implies (#[trigger] first_header_name(items@[i]) matches Some(
                    n,
                ) ==> exists|k: int| 0 <= k < seen@.len() && (#[trigger] seen@[k])@ == n) by {
                    if i < items_before.len() {
                        assert(items@[i] == items_before[i]);
                        if first_header_name(items@[i]) is Some {
                            let n = first_header_name(items@[i])->0;
                            let k = choose|k: int|
                                0 <= k < seen_before.len() && (#[trigger] seen_before[k])@ == n;
                            assert(seen@[k] == seen_before[k]);
                        }
                    }
                }
                if !s0.recovering() {
                    assert forall|i: int, j: int|
                        0 <= i < j < items@.len() && (#[trigger] first_header_name(
                            items@[i],
                        )) is Some implies first_header_name(items@[i])
                        != #[trigger] first_header_name(items@[j]) by {
                        if j == items@.len() - 1 {
                            assert(items@[i] == items_before[i]);
                            let n = first_header_name(items@[i])->0;
                            let k = choose|k: int|
                                0 <= k < seen_before.len() && (#[trigger] seen_before[k])@ == n;
                        } else {
                            assert(items@[i] == items_before[i]);
                            assert(items@[j] == items_before[j]);
                        }
                    }
                }
            }
        }
        Ok(ScriptFile { aliases, items, jump_table_end_marker_count: 1 })
    }
}
} // verus!

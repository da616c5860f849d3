//! The syntax tree produced by the parser.

use vstd::prelude::*;

use super::token::{
    copy_segments, join_segment_texts, join_segments, segments_view, token_debug, TokenType, T_AND, T_EQUAL,
    T_GREATER_EQUAL, T_GREATER_THAN, T_LESSER_EQUAL, T_LESSER_THAN, T_MINUS, T_MUL, T_NOT,
    T_NOT_EQUAL, T_OR, T_PLUS,
};
use crate::text::{concat, concat3, i32_to_string, int_to_decimal, string_from};

verus! {

/// One `case` arm of a `match` statement.
#[derive(Debug)]
pub struct MatchCase {
    pub values: Vec<Expression>,
    pub body: Vec<Statement>,
    pub span: core::ops::Range<usize>,
}

/// A parsed script file.
#[derive(Debug)]
pub struct ScriptFile {
    pub aliases: Vec<Statement>,
    /// Top-level statements in source order: functions, actions, includes,
    /// defines and top-level aliases.
    pub items: Vec<Statement>,
    /// Number of jump table end markers (0xFD13) to emit in the binary.
    pub jump_table_end_marker_count: u8,
}

/// The metadata of one jump-table entry of a script (a script may have
/// several stacked headers).
#[derive(Debug, Clone)]
pub struct FunctionHeader {
    pub name: String,
    pub id: Option<u32>,
    pub is_public: bool,
}

/// One entry of a `Menu(...)` builder: a label, optional hover text, and the
/// jump target.
#[derive(Debug)]
pub struct MenuEntry {
    pub label: Expression,
    pub hover: Option<Expression>,
    pub target: Expression,
}

/// The settings a `Menu(...)` builder's method chain configures.
#[derive(Debug)]
pub struct MenuConfig {
    pub anchor: Option<bool>,
    pub scrollable: Option<bool>,
    pub position: Option<(Expression, Expression)>,
    pub cursor: Option<Expression>,
    pub prompt: Option<Expression>,
    pub width: Option<Expression>,
    pub columns: Option<Expression>,
    pub cancel: Option<Expression>,
}

impl MenuConfig {
    /// Whether no setting has been made.
    pub open spec fn is_unset(&self) -> bool {
        &&& self.anchor is None
        &&& self.scrollable is None
        &&& self.position is None
        &&& self.cursor is None
        &&& self.prompt is None
        &&& self.width is None
        &&& self.columns is None
        &&& self.cancel is None
    }
}

impl Default for MenuConfig {
    fn default() -> (r: MenuConfig)
        ensures
            r.is_unset(),
    {
        MenuConfig {
            anchor: None,
            scrollable: None,
            position: None,
            cursor: None,
            prompt: None,
            width: None,
            columns: None,
            cancel: None,
        }
    }
}

/// The kinds of statements.
#[derive(Debug)]
pub enum StatementKind {
    Function { headers: Vec<FunctionHeader>, body: Vec<Statement> },
    Action { name: String, body: Vec<Statement> },
    AliasStatement { value: Expression, name: String },
    Include { path: String },
    Define { name: String, value: Expression },
    IfStatement {
        condition: Box<Expression>,
        body: Vec<Statement>,
        elseblock: Option<Vec<Statement>>,
    },
    WhileStatement { condition: Box<Expression>, body: Vec<Statement> },
    MatchStatement {
        subject: Box<Expression>,
        cases: Vec<MatchCase>,
        default: Option<Vec<Statement>>,
    },
    MenuBuilder { is_global: bool, entries: Vec<MenuEntry>, config: Box<MenuConfig> },
    Break,
    ScriptCommand { command: String, args: Vec<Expression> },
    Label(String),
    Jump(Expression),
    Return,
    End,
    EndMovement,
    /// A placeholder for a statement that could not be parsed (used when the
    /// parser recovers from syntax errors).
    Error,
}

/// The kinds of expressions.
#[derive(Debug)]
pub enum ExpressionKind {
    Number(i32),
    Identifier(String),
    Prefix { operator: TokenType, id: Box<Expression> },
    Infix { left: Box<Expression>, operator: TokenType, right: Box<Expression> },
    Label(String),
    Call { function: Box<Expression>, args: Vec<Expression> },
    String(Vec<(String, usize)>),
    /// A cross-file script reference `module::label`.
    ModuleRef { module: String, label: String },
    /// A placeholder for an expression that could not be parsed.
    Error,
}

/// Binding strength of operators, weakest first.
#[derive(Debug, PartialEq, Eq, PartialOrd, Copy, Clone)]
pub enum Precedence {
    Lowest,
    LogicalOr,
    LogicalAnd,
    Comparison,
    Sum,
    Product,
    Prefix,
    Call,
}

/// The rank of a precedence level (its position in the declaration).
pub open spec fn precedence_rank(p: Precedence) -> nat {
    match p {
        Precedence::Lowest => 0,
        Precedence::LogicalOr => 1,
        Precedence::LogicalAnd => 2,
        Precedence::Comparison => 3,
        Precedence::Sum => 4,
        Precedence::Product => 5,
        Precedence::Prefix => 6,
        Precedence::Call => 7,
    }
}

/// [`precedence_rank`] in exec code.
pub fn precedence_level(p: Precedence) -> (r: u8)
    ensures
        r == precedence_rank(p),
{
    match p {
        Precedence::Lowest => 0,
        Precedence::LogicalOr => 1,
        Precedence::LogicalAnd => 2,
        Precedence::Comparison => 3,
        Precedence::Sum => 4,
        Precedence::Product => 5,
        Precedence::Prefix => 6,
        Precedence::Call => 7,
    }
}

/// A syntax node with its source span (byte offsets).
#[derive(Debug)]
pub struct Spanned<T> {
    pub node: T,
    pub span: core::ops::Range<usize>,
}

pub type Expression = Spanned<ExpressionKind>;

pub type Statement = Spanned<StatementKind>;

// ---------------------------------------------------------------------------
// Rendering an expression back to source-like text
// ---------------------------------------------------------------------------

/// The source text of a prefix operator, if it is one of `-`, `+`, `!`.
pub open spec fn prefix_operator_text(tag: u8) -> Option<Seq<char>> {
    if tag == T_MINUS {
        Some("-"@)
    } else if tag == T_PLUS {
        Some("+"@)
    } else if tag == T_NOT {
        Some("!"@)
    } else {
        None
    }
}

/// The source text of a binary operator, if it is a supported one.
pub open spec fn infix_operator_text(tag: u8) -> Option<Seq<char>> {
    if tag == T_PLUS {
        Some("+"@)
    } else if tag == T_MINUS {
        Some("-"@)
    } else if tag == T_MUL {
        Some("*"@)
    } else if tag == T_LESSER_THAN {
        Some("<"@)
    } else if tag == T_GREATER_THAN {
        Some(">"@)
    } else if tag == T_LESSER_EQUAL {
        Some("<="@)
    } else if tag == T_GREATER_EQUAL {
        Some(">="@)
    } else if tag == T_EQUAL {
        Some("=="@)
    } else if tag == T_NOT_EQUAL {
        Some("!="@)
    } else if tag == T_AND {
        Some("&&"@)
    } else if tag == T_OR {
        Some("||"@)
    } else {
        None
    }
}

/// `parts` joined with `", "`.
pub open spec fn join_comma(parts: Seq<Seq<char>>) -> Seq<char>
    decreases parts.len(),
{
    if parts.len() == 0 {
        Seq::empty()
    } else if parts.len() == 1 {
        parts[0]
    } else {
        join_comma(parts.drop_last()) + ", "@ + parts.last()
    }
}

/// The source-like text of `e`. Infix expressions are parenthesized when
/// `paren` holds; `domain` and `err_domain` name the context in errors.
pub open spec fn source_like(
    e: Expression,
    paren: bool,
    domain: Seq<char>,
    err_domain: Seq<char>,
) -> Result<Seq<char>, Seq<char>>
    decreases e,
{
    match e.node {
        ExpressionKind::Number(n) => Ok(int_to_decimal(n as int)),
        ExpressionKind::Identifier(s) => Ok(s@),
        ExpressionKind::Label(s) => Ok(s@),
        ExpressionKind::ModuleRef { module, label } => Ok(module@ + "::"@ + label@),
        ExpressionKind::String(segs) => Ok(join_segments(segments_view(segs@))),
        ExpressionKind::Prefix { operator, id } => match source_like(*id, paren, domain, err_domain) {
            Err(m) => Err(m),
            Ok(inner) => match prefix_operator_text(operator@.tag) {
                Some(op) => Ok(op + inner),
                None => Err(
                    "Unsupported prefix operator "@ + token_debug(operator@) + " in "@ + domain,
                ),
            },
        },
        ExpressionKind::Infix { left, operator, right } => match source_like(
            *left,
            paren,
            domain,
            err_domain,
        ) {
            Err(m) => Err(m),
            Ok(l) => match source_like(*right, paren, domain, err_domain) {
                Err(m) => Err(m),
                Ok(r) => match infix_operator_text(operator@.tag) {
                    Some(op) => {
                        let f = l + " "@ + op + " "@ + r;
                        if paren {
                            Ok("("@ + f + ")"@)
                        } else {
                            Ok(f)
                        }
                    },
                    None => Err("Unsupported operator "@ + token_debug(operator@) + " in "@ + domain),
                },
            },
        },
        ExpressionKind::Call { function, args } => match function.node {
            ExpressionKind::Identifier(name) => match source_like_list(
                args@,
                paren,
                domain,
                err_domain,
            ) {
                Err(m) => Err(m),
                Ok(parts) => Ok(name@ + "("@ + join_comma(parts) + ")"@),
            },
            _ => Err("Call-like "@ + err_domain + " must use a simple name"@),
        },
        ExpressionKind::Error => Err("Invalid expression in "@ + err_domain),
    }
}

/// [`source_like`] of each expression in turn; the first error wins.
pub open spec fn source_like_list(
    es: Seq<Expression>,
    paren: bool,
    domain: Seq<char>,
    err_domain: Seq<char>,
) -> Result<Seq<Seq<char>>, Seq<char>>
    decreases es,
{
    if es.len() == 0 {
        Ok(Seq::empty())
    } else {
        match source_like_list(es.drop_last(), paren, domain, err_domain) {
            Err(m) => Err(m),
            Ok(parts) => match source_like(es.last(), paren, domain, err_domain) {
                Err(m) => Err(m),
                Ok(p) => Ok(parts.push(p)),
            },
        }
    }
}

/// Whether an expression has no infix operation anywhere in it.
pub open spec fn infix_free(e: Expression) -> bool
    decreases e,
{
    match e.node {
        ExpressionKind::Prefix { operator: _, id } => infix_free(*id),
        ExpressionKind::Infix { .. } => false,
        ExpressionKind::Call { function: _, args } => infix_free_list(args@),
        _ => true,
    }
}

/// Whether no expression of `es` has an infix operation.
pub open spec fn infix_free_list(es: Seq<Expression>) -> bool
    decreases es,
{
    if es.len() == 0 {
        true
    } else {
        infix_free_list(es.drop_last()) && infix_free(es.last())
    }
}

/// The constant-evaluation text and the macro-argument text of an
/// expression (`to_constant_eval_source`, `to_macro_arg_source`) are had or
/// refused together, and for an expression without infix operations they
/// are the same text: they differ only in the parentheses around infix
/// operations.
pub proof fn lemma_source_texts_agree(e: Expression, d1: Seq<char>, e1: Seq<char>, d2: Seq<char>, e2: Seq<char>)
    ensures
        source_like(e, true, d1, e1) is Ok <==> source_like(e, false, d2, e2) is Ok,
        infix_free(e) && source_like(e, true, d1, e1) is Ok ==> source_like(e, true, d1, e1) == source_like(
            e,
            false,
            d2,
            e2,
        ),
    decreases e,
{
    match e.node {
        ExpressionKind::Prefix { operator: _, id } => {
            lemma_source_texts_agree(*id, d1, e1, d2, e2);
        },
        ExpressionKind::Infix { left, operator: _, right } => {
            lemma_source_texts_agree(*left, d1, e1, d2, e2);
            lemma_source_texts_agree(*right, d1, e1, d2, e2);
        },
        ExpressionKind::Call { function: _, args } => {
            lemma_source_lists_agree(args@, d1, e1, d2, e2);
        },
        _ => {},
    }
}

/// [`lemma_source_texts_agree`] for a list of expressions.
pub proof fn lemma_source_lists_agree(es: Seq<Expression>, d1: Seq<char>, e1: Seq<char>, d2: Seq<char>, e2: Seq<char>)
    ensures
        source_like_list(es, true, d1, e1) is Ok <==> source_like_list(es, false, d2, e2) is Ok,
        infix_free_list(es) && source_like_list(es, true, d1, e1) is Ok ==> source_like_list(es, true, d1, e1)
            == source_like_list(es, false, d2, e2),
    decreases es,
{
    if es.len() > 0 {
        lemma_source_lists_agree(es.drop_last(), d1, e1, d2, e2);
        lemma_source_texts_agree(es.last(), d1, e1, d2, e2);
    }
}

impl Spanned<ExpressionKind> {
    /// The expression as C-like source for constant evaluation; binary
    /// operations are parenthesized.
    pub fn to_constant_eval_source(&self) -> (r: Result<String, String>)
        ensures
            match source_like(*self, true, "constant expression"@, "constant evaluation"@) {
                Ok(t) => r matches Ok(s) && s@ == t,
                Err(m) => r matches Err(s) && s@ == m,
            },
    {
        self.format_source_like(true, "constant expression", "constant evaluation")
    }

    /// The expression as source text for a macro argument.
    pub fn to_macro_arg_source(&self) -> (r: Result<String, String>)
        ensures
            match source_like(*self, false, "macro argument"@, "macro argument"@) {
                Ok(t) => r matches Ok(s) && s@ == t,
                Err(m) => r matches Err(s) && s@ == m,
            },
    {
        self.format_source_like(false, "macro argument", "macro argument")
    }

    fn format_source_like(&self, parenthesize_infix: bool, domain: &str, err_domain: &str) -> (r:
        Result<String, String>)
        ensures
            match source_like(*self, parenthesize_infix, domain@, err_domain@) {
                Ok(t) => r matches Ok(s) && s@ == t,
                Err(m) => r matches Err(s) && s@ == m,
            },
        decreases self,
    {
        match &self.node {
            ExpressionKind::Number(n) => Ok(i32_to_string(*n)),
            ExpressionKind::Identifier(s) => Ok(s.clone()),
            ExpressionKind::Label(s) => Ok(s.clone()),
            ExpressionKind::ModuleRef { module, label } => Ok(
                concat3(module.as_str(), "::", label.as_str()),
            ),
            ExpressionKind::String(segs) => Ok(join_segment_texts(segs)),
            ExpressionKind::Prefix { operator, id } => {
                let inner = match id.format_source_like(parenthesize_infix, domain, err_domain) {
                    Ok(t) => t,
                    Err(m) => {
                        return Err(m);
                    },
                };
                let op = if operator.is_tag(T_MINUS) {
                    "-"
                } else if operator.is_tag(T_PLUS) {
                    "+"
                } else if operator.is_tag(T_NOT) {
                    "!"
                } else {
                    let d = operator.debug_text();
                    let m1 = concat3("Unsupported prefix operator ", d.as_str(), " in ");
                    return Err(concat(m1.as_str(), domain));
                };
                Ok(concat(op, inner.as_str()))
            },
            ExpressionKind::Infix { left, operator, right } => {
                let left_str = match left.format_source_like(parenthesize_infix, domain, err_domain) {
                    Ok(t) => t,
                    Err(m) => {
                        return Err(m);
                    },
                };
                let right_str = match right.format_source_like(
                    parenthesize_infix,
                    domain,
                    err_domain,
                ) {
                    Ok(t) => t,
                    Err(m) => {
                        return Err(m);
                    },
                };
                let t = operator.tag();
                let op = if t == T_PLUS {
                    "+"
                } else if t == T_MINUS {
                    "-"
                } else if t == T_MUL {
                    "*"
                } else if t == T_LESSER_THAN {
                    "<"
                } else if t == T_GREATER_THAN {
                    ">"
                } else if t == T_LESSER_EQUAL {
                    "<="
                } else if t == T_GREATER_EQUAL {
                    ">="
                } else if t == T_EQUAL {
                    "=="
                } else if t == T_NOT_EQUAL {
                    "!="
                } else if t == T_AND {
                    "&&"
                } else if t == T_OR {
                    "||"
                } else {
                    let d = operator.debug_text();
                    let m1 = concat3("Unsupported operator ", d.as_str(), " in ");
                    return Err(concat(m1.as_str(), domain));
                };
                let a = concat3(left_str.as_str(), " ", op);
                let formatted = concat3(a.as_str(), " ", right_str.as_str());
                if parenthesize_infix {
                    Ok(concat3("(", formatted.as_str(), ")"))
                } else {
                    Ok(formatted)
                }
            },
            ExpressionKind::Call { function, args } => {
                let name = match &function.node {
                    ExpressionKind::Identifier(name) => name,
                    _ => {
                        return Err(concat3("Call-like ", err_domain, " must use a simple name"));
                    },
                };
                let mut joined = String::new();
                let mut i: usize = 0;
                while i < args.len()
                    invariant
                        i <= args@.len(),
                        self.node == (ExpressionKind::Call { function: *function, args: *args }),
                        function.node == ExpressionKind::Identifier(*name),
                        source_like_list(args@.take(i as int), parenthesize_infix, domain@, err_domain@)
                            matches Ok(parts) && joined@ == join_comma(parts) && parts.len() == i,
                    decreases args.len() - i,
                {
                    let ghost prev = args@.take(i as int);
                    assert(args@.take(i + 1).drop_last() =~= prev);
                    assert(decreases_to!(self => args@[i as int]));
                    let part = match args[i].format_source_like(
                        parenthesize_infix,
                        domain,
                        err_domain,
                    ) {
                        Ok(t) => t,
                        Err(m) => {
                            proof {
                                lemma_source_like_list_err(
                                    args@,
                                    i as int,
                                    parenthesize_infix,
                                    domain@,
                                    err_domain@,
                                );
                            }
                            return Err(m);
                        },
                    };
                    proof {
                        lemma_source_like_list_len(
                            args@.take(i + 1),
                            parenthesize_infix,
                            domain@,
                            err_domain@,
                        );
                    }
                    let ghost parts_prev = source_like_list(
                        prev,
                        parenthesize_infix,
                        domain@,
                        err_domain@,
                    )->Ok_0;
                    let ghost parts_next = parts_prev.push(part@);
                    assert(source_like_list(args@.take(i + 1), parenthesize_infix, domain@, err_domain@)
                        == Ok::<Seq<Seq<char>>, Seq<char>>(parts_next));
                    assert(parts_next.drop_last() =~= parts_prev);
                    if i == 0 {
                        joined = part;
                    } else {
                        joined = concat3(joined.as_str(), ", ", part.as_str());
                    }
                    assert(joined@ =~= join_comma(parts_next));
                    i = i + 1;
                }
                assert(args@.take(args@.len() as int) =~= args@);
                let a = concat3(name.as_str(), "(", joined.as_str());
                Ok(concat(a.as_str(), ")"))
            },
            ExpressionKind::Error => Err(concat("Invalid expression in ", err_domain)),
        }
    }
}

proof fn lemma_source_like_list_len(
    es: Seq<Expression>,
    paren: bool,
    domain: Seq<char>,
    err_domain: Seq<char>,
)
    ensures
        source_like_list(es, paren, domain, err_domain) matches Ok(parts) ==> parts.len()
            == es.len(),
    decreases es.len(),
{
    if es.len() > 0 {
        lemma_source_like_list_len(es.drop_last(), paren, domain, err_domain);
    }
}

/// If the list prefix of length `i` renders and element `i` fails, then every
/// longer prefix, and the whole list, fails with that element's error.
proof fn lemma_source_like_list_err(
    es: Seq<Expression>,
    i: int,
    paren: bool,
    domain: Seq<char>,
    err_domain: Seq<char>,
)
    requires
        0 <= i < es.len(),
        source_like_list(es.take(i), paren, domain, err_domain) is Ok,
        source_like(es[i], paren, domain, err_domain) is Err,
    ensures
        source_like_list(es, paren, domain, err_domain) == Err::<Seq<Seq<char>>, Seq<char>>(
            source_like(es[i], paren, domain, err_domain)->Err_0,
        ),
    decreases es.len(),
{
    if i == es.len() - 1 {
        assert(es.drop_last() =~= es.take(i));
    } else {
        assert(es.drop_last().take(i) =~= es.take(i));
        lemma_source_like_list_err(es.drop_last(), i, paren, domain, err_domain);
    }
}


// ---------------------------------------------------------------------------
// Deep copies
// ---------------------------------------------------------------------------

/// `a` and `b` are the same expression: same spans, variants and payloads,
/// recursively.
pub open spec fn same_expression(a: Expression, b: Expression) -> bool
    decreases a,
{
    &&& a.span == b.span
    &&& match a.node {
        ExpressionKind::Number(x) => b.node == ExpressionKind::Number(x),
        ExpressionKind::Identifier(x) => b.node matches ExpressionKind::Identifier(y) && x@ == y@,
        ExpressionKind::Label(x) => b.node matches ExpressionKind::Label(y) && x@ == y@,
        ExpressionKind::ModuleRef { module, label } => b.node matches ExpressionKind::ModuleRef {
            module: m2,
            label: l2,
        } && module@ == m2@ && label@ == l2@,
        ExpressionKind::String(x) => b.node matches ExpressionKind::String(y) && segments_view(x@)
            == segments_view(y@),
        ExpressionKind::Prefix { operator, id } => b.node matches ExpressionKind::Prefix {
            operator: o2,
            id: i2,
        } && operator@ == o2@ && same_expression(*id, *i2),
        ExpressionKind::Infix { left, operator, right } => b.node matches ExpressionKind::Infix {
            left: l2,
            operator: o2,
            right: r2,
        } && operator@ == o2@ && same_expression(*left, *l2) && same_expression(*right, *r2),
        ExpressionKind::Call { function, args } => b.node matches ExpressionKind::Call {
            function: f2,
            args: a2,
        } && same_expression(*function, *f2) && same_expressions(args@, a2@),
        ExpressionKind::Error => b.node is Error,
    }
}

/// Element-wise [`same_expression`].
pub open spec fn same_expressions(a: Seq<Expression>, b: Seq<Expression>) -> bool
    decreases a,
{
    if a.len() == 0 {
        b.len() == 0
    } else {
        b.len() == a.len() && same_expressions(a.drop_last(), b.drop_last()) && same_expression(
            a.last(),
            b.last(),
        )
    }
}

/// A deep copy of an expression.
pub fn copy_expression(e: &Expression) -> (r: Expression)
    ensures
        same_expression(*e, r),
    decreases e,
{
    let node = match &e.node {
        ExpressionKind::Number(x) => ExpressionKind::Number(*x),
        ExpressionKind::Identifier(x) => ExpressionKind::Identifier(x.clone()),
        ExpressionKind::Label(x) => ExpressionKind::Label(x.clone()),
        ExpressionKind::ModuleRef { module, label } => ExpressionKind::ModuleRef {
            module: module.clone(),
            label: label.clone(),
        },
        ExpressionKind::String(segs) => ExpressionKind::String(copy_segments(segs)),
        ExpressionKind::Prefix { operator, id } => ExpressionKind::Prefix {
            operator: operator.copy_kind(),
            id: Box::new(copy_expression(id)),
        },
        ExpressionKind::Infix { left, operator, right } => ExpressionKind::Infix {
            left: Box::new(copy_expression(left)),
            operator: operator.copy_kind(),
            right: Box::new(copy_expression(right)),
        },
        ExpressionKind::Call { function, args } => {
            let f = copy_expression(function);
            let mut out: Vec<Expression> = Vec::new();
            let mut i: usize = 0;
            while i < args.len()
                invariant
                    i <= args@.len(),
                    e.node == (ExpressionKind::Call { function: *function, args: *args }),
                    out@.len() == i,
                    same_expressions(args@.take(i as int), out@),
                decreases args.len() - i,
            {
                assert(decreases_to!(*e => e.node));
                assert(decreases_to!(e.node => e.node->Call_args));
                assert(decreases_to!(*args => args@));
                assert(decreases_to!(args@ => args@[i as int]));
                assert(decreases_to!(e => args@[i as int]));
                let c = copy_expression(&args[i]);
                let ghost prev = out@;
                out.push(c);
                assert(args@.take(i + 1).drop_last() =~= args@.take(i as int));
                assert(out@.drop_last() =~= prev);
                i = i + 1;
            }
            assert(args@.take(args@.len() as int) =~= args@);
            ExpressionKind::Call { function: Box::new(f), args: out }
        },
        ExpressionKind::Error => ExpressionKind::Error,
    };
    Spanned { node, span: e.span.start..e.span.end }
}

} // verus!

//! Lowering of statements to IR opcodes: control flow becomes generated
//! labels and conditional jumps, arguments become numbers and label
//! references.

use vstd::prelude::*;

use super::analysis::{SymbolTable, SymbolType};
use super::ast::{source_like, Expression, ExpressionKind, FunctionHeader, MatchCase, ScriptFile, Statement, StatementKind};
use super::diagnostic::error::{lowering_error, CompileError, ParseResult};
use super::ir::{Arg, IrAction, IrFunction, IrOpcode, TopLevelItem};
use super::token::TokenType;
use crate::database::{comparison_of_id, comparison_of_upper, ComparisonOperator, DatabaseV2};
use crate::text::{concat, concat3, nat_to_decimal, str_eq, string_from, unicode_uppercase, usize_to_string};

verus! {

/// An argument as a value: a number, or the name of a label.
pub enum ArgV {
    Value(i32),
    Pointer(Seq<char>),
}

/// An IR opcode as a value.
pub enum OpV {
    Command(Seq<char>, Seq<ArgV>),
    Label(Seq<char>),
}

/// The value of an argument.
pub open spec fn arg_v(a: Arg) -> ArgV {
    match a {
        Arg::Value(v) => ArgV::Value(v),
        Arg::Pointer(p) => ArgV::Pointer(p@),
    }
}

/// The value of an opcode.
pub open spec fn op_v(o: IrOpcode) -> OpV {
    match o {
        IrOpcode::Command { name, args } => OpV::Command(name@, args@.map_values(|a: Arg| arg_v(a))),
        IrOpcode::Label(l) => OpV::Label(l@),
    }
}

/// What resolving an argument gives.
pub enum ArgOutcome {
    /// The argument.
    Resolved(ArgV),
    /// A lowering error.
    Fails,
    /// Arithmetic that leaves the 32-bit range, which the lowering does not
    /// accept.
    Overflows,
}

/// What resolving an integer gives.
pub enum IntResult {
    Value(i32),
    Fails,
    Overflows,
}

/// The state lowering threads through a body: the label counter, the
/// opcodes so far, the aliases set (the latest setting of a name wins), and
/// the labels a `break` jumps to, innermost last.
pub struct LowerState {
    pub counter: nat,
    pub ops: Seq<OpV>,
    pub aliases: Seq<(Seq<char>, i32)>,
    pub breaks: Seq<Seq<char>>,
}

/// What lowering a statement gives.
pub enum LowerOutcome {
    Done(LowerState),
    Fails,
    Overflows,
}

/// The most recent value set for an alias.
pub open spec fn alias_value(aliases: Seq<(Seq<char>, i32)>, name: Seq<char>) -> Option<i32>
    decreases aliases.len(),
{
    if aliases.len() == 0 {
        None
    } else if aliases.last().0 == name {
        Some(aliases.last().1)
    } else {
        alias_value(aliases.drop_last(), name)
    }
}

/// A generated label: `.prefix_gen_n`.
pub open spec fn gen_label(prefix: Seq<char>, n: nat) -> Seq<char> {
    "."@ + prefix + "_gen_"@ + nat_to_decimal(n)
}

/// Whether the database has a command under exactly this name.
pub open spec fn has_command_key(db: DatabaseV2, name: Seq<char>) -> bool {
    exists|i: int| 0 <= i < db.commands@.len() && (#[trigger] db.commands@[i]).0@ == name
}

/// Whether `e` is `format("...")`.
pub open spec fn is_format_call(e: Expression) -> bool {
    e.node matches ExpressionKind::Call { function, args } && function.node matches ExpressionKind::Identifier(n)
        && n@ == "format"@ && args@.len() == 1 && args@[0].node is String
}

/// The number of an outcome, where it is one.
pub open spec fn number_of(o: ArgOutcome) -> IntResult {
    match o {
        ArgOutcome::Resolved(ArgV::Value(v)) => IntResult::Value(v),
        ArgOutcome::Resolved(ArgV::Pointer(_)) => IntResult::Fails,
        ArgOutcome::Fails => IntResult::Fails,
        ArgOutcome::Overflows => IntResult::Overflows,
    }
}

/// `a op b` for `+`, `-` and `*`; any other operator fails.
pub open spec fn arith(op: TokenType, a: i32, b: i32) -> IntResult {
    let v: int = match op {
        TokenType::Plus => a + b,
        TokenType::Minus => a - b,
        TokenType::Mul => a * b,
        _ => 0,
    };
    if !(op is Plus || op is Minus || op is Mul) {
        IntResult::Fails
    } else if i32::MIN <= v <= i32::MAX {
        IntResult::Value(v as i32)
    } else {
        IntResult::Overflows
    }
}

/// The operator a comparison becomes when its operands are swapped.
pub open spec fn swapped_op(t: TokenType) -> TokenType {
    match t {
        TokenType::GreaterThan => TokenType::LesserThan,
        TokenType::LesserThan => TokenType::GreaterThan,
        TokenType::GreaterEqual => TokenType::LesserEqual,
        TokenType::LesserEqual => TokenType::GreaterEqual,
        _ => t,
    }
}

/// The comparison a condition operator tests (equality for any other
/// operator).
pub open spec fn condition_of(t: TokenType, swapped: bool) -> ComparisonOperator {
    let t = if swapped {
        swapped_op(t)
    } else {
        t
    };
    match t {
        TokenType::NotEqual => ComparisonOperator::Different,
        TokenType::GreaterThan => ComparisonOperator::Greater,
        TokenType::LesserThan => ComparisonOperator::Less,
        TokenType::GreaterEqual => ComparisonOperator::GreaterEqual,
        TokenType::LesserEqual => ComparisonOperator::LessEqual,
        _ => ComparisonOperator::Equal,
    }
}

/// The comparison that fails exactly when the condition operator holds.
pub open spec fn inverted_condition_of(t: TokenType, swapped: bool) -> ComparisonOperator {
    let t = if swapped {
        swapped_op(t)
    } else {
        t
    };
    match t {
        TokenType::NotEqual => ComparisonOperator::Equal,
        TokenType::GreaterThan => ComparisonOperator::LessEqual,
        TokenType::LesserThan => ComparisonOperator::GreaterEqual,
        TokenType::GreaterEqual => ComparisonOperator::Less,
        TokenType::LesserEqual => ComparisonOperator::Greater,
        _ => ComparisonOperator::Different,
    }
}

/// Whether the script engine's comparison `op` holds between `x` and `y`
/// (the two operands of the comparison command, in order).
pub open spec fn op_holds(op: ComparisonOperator, x: int, y: int) -> bool {
    match op {
        ComparisonOperator::Less => x < y,
        ComparisonOperator::Equal => x == y,
        ComparisonOperator::Greater => x > y,
        ComparisonOperator::LessEqual => x <= y,
        ComparisonOperator::GreaterEqual => x >= y,
        ComparisonOperator::Different => x != y,
    }
}

/// Whether a source comparison operator is one of `==`, `!=`, `<`, `>`,
/// `<=`, `>=`.
pub open spec fn is_comparison_token(t: TokenType) -> bool {
    t is Equal || t is NotEqual || t is LesserThan || t is GreaterThan || t is LesserEqual || t is GreaterEqual
}

/// What a source comparison `x t y` means.
pub open spec fn token_holds(t: TokenType, x: int, y: int) -> bool {
    match t {
        TokenType::Equal => x == y,
        TokenType::NotEqual => x != y,
        TokenType::LesserThan => x < y,
        TokenType::GreaterThan => x > y,
        TokenType::LesserEqual => x <= y,
        TokenType::GreaterEqual => x >= y,
        _ => false,
    }
}

/// A comparison condition tests what its source operator means: for `x t y`
/// the comparison `condition_of(t, false)` holds of `(x, y)` exactly when
/// `x t y` does, and with the operands swapped `condition_of(t, true)`
/// holds of `(y, x)` exactly then; the inverted condition holds exactly when
/// the condition does not.
pub proof fn lemma_condition_semantics(t: TokenType, x: int, y: int)
    requires
        is_comparison_token(t),
    ensures
        op_holds(condition_of(t, false), x, y) == token_holds(t, x, y),
        op_holds(condition_of(t, true), y, x) == token_holds(t, x, y),
        op_holds(inverted_condition_of(t, false), x, y) == !token_holds(t, x, y),
        op_holds(inverted_condition_of(t, true), y, x) == !token_holds(t, x, y),
{
}

/// The byte value of a comparison names it back.
pub proof fn lemma_comparison_id(op: ComparisonOperator)
    ensures
        comparison_of_id(op.spec_id()) == Some(op),
{
}

/// What lowering a condition gives: the opcodes, or a failure.
pub enum OpsOutcome {
    Emitted(Seq<OpV>),
    Fails,
    Overflows,
}

/// What resolving a list of arguments gives.
pub enum ArgsOutcome {
    Resolved(Seq<ArgV>),
    Fails,
    Overflows,
}

/// A lowered top-level item: a script's opcodes, or an action's name and
/// opcodes.
pub enum ItemV {
    Function(Seq<OpV>),
    Action(Seq<char>, Seq<OpV>),
}

/// What lowering the items of a script file gives.
pub enum ItemsOutcome {
    Done(LowerState, Seq<ItemV>),
    Fails,
    Overflows,
}

/// The value of a lowered item.
pub open spec fn item_v(t: TopLevelItem) -> ItemV {
    match t {
        TopLevelItem::Function(f) => ItemV::Function(f.instructions@.map_values(|o: IrOpcode| op_v(o))),
        TopLevelItem::Action(a) => ItemV::Action(a.name@, a.instructions@.map_values(|o: IrOpcode| op_v(o))),
    }
}

/// The state with no opcodes.
pub open spec fn cleared(st: LowerState) -> LowerState {
    LowerState { ops: Seq::empty(), ..st }
}

/// The labels lowering the items of a file may generate, at most.
pub open spec fn items_labels(items: Seq<Statement>) -> nat
    decreases items.len(),
{
    if items.len() == 0 {
        0
    } else {
        items_labels(items.drop_last()) + match items.last().node {
            StatementKind::Function { headers: _, body } => body_labels(body@),
            StatementKind::Action { name: _, body } => body_labels(body@),
            _ => 0,
        }
    }
}

/// A command with no arguments.
pub open spec fn bare(name: Seq<char>) -> OpV {
    OpV::Command(name, Seq::empty())
}

/// A jump to a label.
pub open spec fn jump_to(label: Seq<char>) -> OpV {
    OpV::Command("Jump"@, seq![ArgV::Pointer(label)])
}

/// The state with more opcodes.
pub open spec fn with_ops(st: LowerState, more: Seq<OpV>) -> LowerState {
    LowerState { ops: st.ops + more, ..st }
}

/// The labels lowering a statement may generate, at most.
pub open spec fn stmt_labels(s: Statement) -> nat
    decreases s,
{
    match s.node {
        StatementKind::IfStatement { condition: _, body, elseblock } => 2 + body_labels(body@) + match elseblock {
            Some(e) => body_labels(e@),
            None => 0,
        },
        StatementKind::WhileStatement { condition: _, body } => 2 + body_labels(body@),
        StatementKind::MatchStatement { subject: _, cases, default } => 1 + cases_labels(cases@) + match default {
            Some(d) => body_labels(d@),
            None => 0,
        },
        _ => 0,
    }
}

/// The labels lowering the cases of a match may generate, at most.
pub open spec fn cases_labels(cases: Seq<MatchCase>) -> nat
    decreases cases,
{
    if cases.len() == 0 {
        0
    } else {
        cases_labels(cases.drop_last()) + case_labels(cases.last())
    }
}

/// The labels lowering one case may generate, at most.
pub open spec fn case_labels(case: MatchCase) -> nat
    decreases case,
{
    2 + body_labels(case.body@)
}

/// The label a case jumps to directly: a case with one value whose body is
/// one `Call` of a label or one jump.
pub open spec fn direct_target(case: MatchCase) -> Option<Seq<char>> {
    if case.values@.len() == 1 && case.body@.len() == 1 {
        match case.body@[0].node {
            StatementKind::ScriptCommand { command, args } => if command@ == "Call"@ && args@.len() > 0 {
                match args@[0].node {
                    ExpressionKind::Identifier(n) => Some(n@),
                    ExpressionKind::Label(n) => Some(n@),
                    _ => None,
                }
            } else {
                None
            },
            StatementKind::Jump(t) => match t.node {
                ExpressionKind::Identifier(n) => Some(n@),
                ExpressionKind::Label(n) => Some(n@),
                _ => None,
            },
            _ => None,
        }
    } else {
        None
    }
}

/// What lowering the cases of a match gives: the state, and whether the
/// end label is jumped to.
pub enum CasesOutcome {
    Done(LowerState, bool),
    Fails,
    Overflows,
}

/// The labels lowering a body may generate, at most.
pub open spec fn body_labels(ss: Seq<Statement>) -> nat
    decreases ss,
{
    if ss.len() == 0 {
        0
    } else {
        body_labels(ss.drop_last()) + stmt_labels(ss.last())
    }
}

/// What lowering reads and never changes: the symbol table and the command
/// database.
pub struct LowerCtx {
    pub symbols: SymbolTable,
    pub db: DatabaseV2,
}

impl LowerCtx {
    /// What a name resolves to: an alias, a definition (a number for a
    /// variable or constant, a label reference for a script, label or
    /// action), or a comparison operator name.
    pub open spec fn name_outcome(&self, aliases: Seq<(Seq<char>, i32)>, name: Seq<char>) -> ArgOutcome {
        match alias_value(aliases, name) {
            Some(v) => ArgOutcome::Resolved(ArgV::Value(v)),
            None => match self.symbols.resolved(name) {
                Some(SymbolType::Variable(id)) => ArgOutcome::Resolved(ArgV::Value(id)),
                Some(SymbolType::Constant(id)) => ArgOutcome::Resolved(ArgV::Value(id)),
                Some(_) => ArgOutcome::Resolved(ArgV::Pointer(name)),
                None => match comparison_of_upper(unicode_uppercase(name)) {
                    Some(c) => ArgOutcome::Resolved(ArgV::Value(c.spec_id() as i32)),
                    None => ArgOutcome::Fails,
                },
            },
        }
    }

    /// What an argument expression resolves to. A string literal needs a
    /// project's text archive, and a call a constant database to evaluate
    /// it, neither of which this lowerer has.
    pub open spec fn arg_outcome(&self, aliases: Seq<(Seq<char>, i32)>, e: Expression) -> ArgOutcome
        decreases e,
    {
        match e.node {
            ExpressionKind::Identifier(name) => self.name_outcome(aliases, name@),
            ExpressionKind::Number(v) => ArgOutcome::Resolved(ArgV::Value(v)),
            ExpressionKind::Label(name) => ArgOutcome::Resolved(ArgV::Pointer(name@)),
            ExpressionKind::Infix { left, operator, right } => match number_of(self.arg_outcome(aliases, *left)) {
                IntResult::Value(a) => match number_of(self.arg_outcome(aliases, *right)) {
                    IntResult::Value(b) => match arith(operator, a, b) {
                        IntResult::Value(v) => ArgOutcome::Resolved(ArgV::Value(v)),
                        IntResult::Fails => ArgOutcome::Fails,
                        IntResult::Overflows => ArgOutcome::Overflows,
                    },
                    IntResult::Fails => ArgOutcome::Fails,
                    IntResult::Overflows => ArgOutcome::Overflows,
                },
                IntResult::Fails => ArgOutcome::Fails,
                IntResult::Overflows => ArgOutcome::Overflows,
            },
            ExpressionKind::Prefix { operator, id } => match number_of(self.arg_outcome(aliases, *id)) {
                IntResult::Value(v) => if operator is Minus {
                    if v == i32::MIN {
                        ArgOutcome::Overflows
                    } else {
                        ArgOutcome::Resolved(ArgV::Value(-v as i32))
                    }
                } else {
                    ArgOutcome::Fails
                },
                IntResult::Fails => ArgOutcome::Fails,
                IntResult::Overflows => ArgOutcome::Overflows,
            },
            ExpressionKind::Call { .. } => ArgOutcome::Fails,
            _ => ArgOutcome::Fails,
        }
    }

    /// What an alias value resolves to: numbers, the built-in variable
    /// range names, aliases, variables and constants of the symbol table,
    /// and `-`, `+` prefixes and `+`, `-`, `*` (an overflow is
    /// an error).
    pub open spec fn int_outcome(&self, aliases: Seq<(Seq<char>, i32)>, e: Expression) -> IntResult
        decreases e,
    {
        match e.node {
            ExpressionKind::Number(n) => IntResult::Value(n),
            ExpressionKind::Identifier(name) => if name@ == "VARS_START"@ {
                IntResult::Value(0x4000)
            } else if name@ == "SCRIPT_LOCAL_VARS_START"@ {
                IntResult::Value(0x8000)
            } else if name@ == "VARS_END"@ || name@ == "SCRIPT_LOCAL_VARS_END"@ {
                IntResult::Value(0x800D)
            } else {
                match alias_value(aliases, name@) {
                    Some(v) => IntResult::Value(v),
                    None => match self.symbols.resolved(name@) {
                        Some(SymbolType::Constant(v)) => IntResult::Value(v),
                        Some(SymbolType::Variable(v)) => IntResult::Value(v),
                        _ => IntResult::Fails,
                    },
                }
            },
            ExpressionKind::Prefix { operator, id } => match self.int_outcome(aliases, *id) {
                IntResult::Value(v) => match operator {
                    TokenType::Minus => if v == i32::MIN {
                        IntResult::Overflows
                    } else {
                        IntResult::Value(-v as i32)
                    },
                    TokenType::Plus => IntResult::Value(v),
                    _ => IntResult::Fails,
                },
                o => o,
            },
            ExpressionKind::Infix { left, operator, right } => match self.int_outcome(aliases, *left) {
                IntResult::Value(a) => match self.int_outcome(aliases, *right) {
                    IntResult::Value(b) => match arith(operator, a, b) {
                        IntResult::Overflows => IntResult::Fails,
                        o => o,
                    },
                    o => o,
                },
                o => o,
            },
            _ => IntResult::Fails,
        }
    }

    /// Whether `e` calls a command of the database.
    pub open spec fn is_command_call(&self, e: Expression) -> bool {
        e.node matches ExpressionKind::Call { function, .. } && function.node matches ExpressionKind::Identifier(n)
            && has_command_key(self.db, n@)
    }

    /// A condition operand: a number from `0x4000` up is a variable.
    pub open spec fn operand_outcome(&self, aliases: Seq<(Seq<char>, i32)>, e: Expression) -> IntResult {
        number_of(self.arg_outcome(aliases, e))
    }

    /// The opcodes a comparison condition lowers to: a comparison of the
    /// two operands (of two variables, or of a variable and a number, the
    /// variable first), then a conditional jump to `target` taken when the
    /// condition fails (`invert`) or holds.
    pub open spec fn cond_ops(&self, aliases: Seq<(Seq<char>, i32)>, e: Expression, target: Seq<char>, invert: bool) -> OpsOutcome {
        if self.is_command_call(e) {
            OpsOutcome::Fails
        } else {
            match e.node {
                ExpressionKind::Infix { left, operator, right } => self.compare_ops(aliases, *left, operator, *right, target, invert),
                _ => OpsOutcome::Fails,
            }
        }
    }

    /// The opcodes `left op right` lowers to as a condition.
    pub open spec fn compare_ops(
        &self,
        aliases: Seq<(Seq<char>, i32)>,
        left: Expression,
        operator: TokenType,
        right: Expression,
        target: Seq<char>,
        invert: bool,
    ) -> OpsOutcome {
        if self.is_command_call(left) || self.is_command_call(right) {
            OpsOutcome::Fails
        } else {
            match self.operand_outcome(aliases, left) {
                IntResult::Value(lv) => match self.operand_outcome(aliases, right) {
                    IntResult::Value(rv) => {
                        let lvar = lv >= 0x4000;
                        let rvar = rv >= 0x4000;
                        let swapped = !lvar && rvar;
                        let name = if lvar && rvar {
                            "CompareVars"@
                        } else {
                            "CompareVarValue"@
                        };
                        let (a, b) = if swapped {
                            (rv, lv)
                        } else {
                            (lv, rv)
                        };
                        let c = if invert {
                            inverted_condition_of(operator, swapped)
                        } else {
                            condition_of(operator, swapped)
                        };
                        OpsOutcome::Emitted(
                            seq![
                                OpV::Command(name, seq![ArgV::Value(a), ArgV::Value(b)]),
                                OpV::Command("JumpIf"@, seq![ArgV::Value(c.spec_id() as i32), ArgV::Pointer(target)]),
                            ],
                        )
                    },
                    IntResult::Fails => OpsOutcome::Fails,
                    IntResult::Overflows => OpsOutcome::Overflows,
                },
                IntResult::Fails => OpsOutcome::Fails,
                IntResult::Overflows => OpsOutcome::Overflows,
            }
        }
    }

    /// A lowered comparison jumps exactly when it should: the jump's
    /// comparison, tested on the two operands of the comparison command
    /// before it (the left and right operand values, in either order), holds
    /// exactly when `left op right` fails (with `invert`) or holds (without).
    pub proof fn lemma_compare_ops_semantics(
        &self,
        aliases: Seq<(Seq<char>, i32)>,
        left: Expression,
        operator: TokenType,
        right: Expression,
        target: Seq<char>,
        invert: bool,
    )
        requires
            is_comparison_token(operator),
            self.compare_ops(aliases, left, operator, right, target, invert) is Emitted,
        ensures
            ({
                let ops = self.compare_ops(aliases, left, operator, right, target, invert)->Emitted_0;
                let lv = self.operand_outcome(aliases, left)->Value_0;
                let rv = self.operand_outcome(aliases, right)->Value_0;
                &&& ops.len() == 2
                &&& ops[0] is Command
                &&& exists|a: i32, b: i32, c: ComparisonOperator|
                    #![trigger op_holds(c, a as int, b as int)]
                    ops[0]->Command_1 == seq![ArgV::Value(a), ArgV::Value(b)] && ops[1] == OpV::Command(
                        "JumpIf"@,
                        seq![ArgV::Value(c.spec_id() as i32), ArgV::Pointer(target)],
                    ) && ((a == lv && b == rv) || (a == rv && b == lv)) && (op_holds(c, a as int, b as int) <==> (
                    invert != token_holds(operator, lv as int, rv as int)))
            }),
    {
        let lv = self.operand_outcome(aliases, left)->Value_0;
        let rv = self.operand_outcome(aliases, right)->Value_0;
        let lvar = lv >= 0x4000;
        let rvar = rv >= 0x4000;
        let swapped = !lvar && rvar;
        let name = if lvar && rvar {
            "CompareVars"@
        } else {
            "CompareVarValue"@
        };
        let (a, b) = if swapped {
            (rv, lv)
        } else {
            (lv, rv)
        };
        let c = if invert {
            inverted_condition_of(operator, swapped)
        } else {
            condition_of(operator, swapped)
        };
        lemma_condition_semantics(operator, lv as int, rv as int);
        assert(op_holds(c, a as int, b as int) <==> (invert != token_holds(operator, lv as int, rv as int)));
    }

    /// The arguments of a command, resolved in order.
    pub open spec fn args_outcome(&self, aliases: Seq<(Seq<char>, i32)>, args: Seq<Expression>) -> ArgsOutcome
        decreases args.len(),
    {
        if args.len() == 0 {
            ArgsOutcome::Resolved(Seq::empty())
        } else {
            match self.args_outcome(aliases, args.drop_last()) {
                ArgsOutcome::Resolved(vs) => match self.arg_outcome(aliases, args.last()) {
                    ArgOutcome::Resolved(v) => ArgsOutcome::Resolved(vs.push(v)),
                    ArgOutcome::Fails => ArgsOutcome::Fails,
                    ArgOutcome::Overflows => ArgsOutcome::Overflows,
                },
                o => o,
            }
        }
    }

    /// What lowering a statement from state `st` gives.
    pub open spec fn stmt_outcome(&self, st: LowerState, s: Statement) -> LowerOutcome
        decreases s,
    {
        match s.node {
            StatementKind::IfStatement { condition, body, elseblock } => {
                let end = gen_label("end_if"@, st.counter + 1);
                let c = if elseblock is Some {
                    st.counter + 2
                } else {
                    st.counter + 1
                };
                let els = gen_label("else"@, st.counter + 2);
                let target = if elseblock is Some {
                    els
                } else {
                    end
                };
                match self.cond_ops(st.aliases, *condition, target, true) {
                    OpsOutcome::Emitted(cops) => {
                        let st1 = LowerState { counter: c, ops: st.ops + cops, ..st };
                        match self.body_outcome(st1, body@) {
                            LowerOutcome::Done(st2) => match elseblock {
                                Some(eb) => match self.body_outcome(with_ops(st2, seq![jump_to(end), OpV::Label(els)]), eb@) {
                                    LowerOutcome::Done(st3) => LowerOutcome::Done(with_ops(st3, seq![OpV::Label(end)])),
                                    o => o,
                                },
                                None => LowerOutcome::Done(with_ops(st2, seq![OpV::Label(end)])),
                            },
                            o => o,
                        }
                    },
                    OpsOutcome::Fails => LowerOutcome::Fails,
                    OpsOutcome::Overflows => LowerOutcome::Overflows,
                }
            },
            StatementKind::WhileStatement { condition, body } => {
                let start = gen_label("while_start"@, st.counter + 1);
                let end = gen_label("while_end"@, st.counter + 2);
                let st1 = LowerState {
                    counter: st.counter + 2,
                    ops: st.ops.push(OpV::Label(start)),
                    breaks: st.breaks.push(end),
                    ..st
                };
                match self.cond_ops(st.aliases, *condition, end, true) {
                    OpsOutcome::Emitted(cops) => match self.body_outcome(with_ops(st1, cops), body@) {
                        LowerOutcome::Done(st2) => LowerOutcome::Done(
                            LowerState {
                                ops: st2.ops + seq![jump_to(start), OpV::Label(end)],
                                breaks: st2.breaks.drop_last(),
                                ..st2
                            },
                        ),
                        o => o,
                    },
                    OpsOutcome::Fails => LowerOutcome::Fails,
                    OpsOutcome::Overflows => LowerOutcome::Overflows,
                }
            },
            StatementKind::Break => if st.breaks.len() == 0 {
                LowerOutcome::Fails
            } else {
                LowerOutcome::Done(with_ops(st, seq![jump_to(st.breaks.last())]))
            },
            StatementKind::ScriptCommand { command, args } => match self.args_outcome(st.aliases, args@) {
                ArgsOutcome::Resolved(vs) => LowerOutcome::Done(with_ops(st, seq![OpV::Command(command@, vs)])),
                ArgsOutcome::Fails => LowerOutcome::Fails,
                ArgsOutcome::Overflows => LowerOutcome::Overflows,
            },
            StatementKind::Label(name) => LowerOutcome::Done(with_ops(st, seq![OpV::Label(name@)])),
            StatementKind::Jump(target) => match target.node {
                ExpressionKind::Label(n) => LowerOutcome::Done(with_ops(st, seq![jump_to(n@)])),
                ExpressionKind::Identifier(n) => LowerOutcome::Done(with_ops(st, seq![jump_to(n@)])),
                _ => LowerOutcome::Done(st),
            },
            StatementKind::Return => LowerOutcome::Done(with_ops(st, seq![bare("Return"@)])),
            StatementKind::End => LowerOutcome::Done(with_ops(st, seq![bare("End"@)])),
            StatementKind::EndMovement => LowerOutcome::Done(with_ops(st, seq![bare("EndMovement"@)])),
            StatementKind::AliasStatement { value, name } => match self.int_outcome(st.aliases, value) {
                IntResult::Value(v) => LowerOutcome::Done(LowerState { aliases: st.aliases.push((name@, v)), ..st }),
                IntResult::Fails => LowerOutcome::Fails,
                IntResult::Overflows => LowerOutcome::Overflows,
            },
            StatementKind::MatchStatement { subject, cases, default } => if self.is_command_call(*subject) {
                LowerOutcome::Fails
            } else {
                match number_of(self.arg_outcome(st.aliases, *subject)) {
                    IntResult::Value(sv) => {
                        let end = gen_label("end_match"@, st.counter + 1);
                        let st1 = LowerState { counter: st.counter + 1, ..st };
                        match self.cases_outcome(st1, *subject, sv, cases@, cases@.len() as int, default is Some, end) {
                            CasesOutcome::Done(st2, need) => match default {
                                Some(d) => match self.body_outcome(st2, d@) {
                                    LowerOutcome::Done(st3) => LowerOutcome::Done(with_ops(st3, seq![OpV::Label(end)])),
                                    o => o,
                                },
                                None => if need {
                                    LowerOutcome::Done(with_ops(st2, seq![OpV::Label(end)]))
                                } else {
                                    LowerOutcome::Done(st2)
                                },
                            },
                            CasesOutcome::Fails => LowerOutcome::Fails,
                            CasesOutcome::Overflows => LowerOutcome::Overflows,
                        }
                    },
                    IntResult::Fails => LowerOutcome::Fails,
                    IntResult::Overflows => LowerOutcome::Overflows,
                }
            },
            _ => LowerOutcome::Done(st),
        }
    }

    /// The conditions of a case's values, tested against the subject: each
    /// but the last jumps to `body` when it holds, the last jumps to `next`
    /// when it fails.
    pub open spec fn values_ops(
        &self,
        aliases: Seq<(Seq<char>, i32)>,
        subject: Expression,
        values: Seq<Expression>,
        n: int,
        next: Seq<char>,
        body: Seq<char>,
    ) -> OpsOutcome
        decreases values.len(),
    {
        if values.len() == 0 {
            OpsOutcome::Emitted(Seq::empty())
        } else {
            match self.values_ops(aliases, subject, values.drop_last(), n, next, body) {
                OpsOutcome::Emitted(ops) => {
                    let last = values.len() >= n;
                    let o = if last {
                        self.compare_ops(aliases, subject, TokenType::Equal, values.last(), next, true)
                    } else {
                        self.compare_ops(aliases, subject, TokenType::Equal, values.last(), body, false)
                    };
                    match o {
                        OpsOutcome::Emitted(o2) => OpsOutcome::Emitted(ops + o2),
                        other => other,
                    }
                },
                other => other,
            }
        }
    }

    /// What lowering the cases of a match gives, in order; `n` is the number
    /// of cases of the match.
    pub open spec fn cases_outcome(
        &self,
        st: LowerState,
        subject: Expression,
        sv: i32,
        cases: Seq<MatchCase>,
        n: int,
        has_default: bool,
        end: Seq<char>,
    ) -> CasesOutcome
        decreases cases,
    {
        if cases.len() == 0 {
            CasesOutcome::Done(st, false)
        } else {
            match self.cases_outcome(st, subject, sv, cases.drop_last(), n, has_default, end) {
                CasesOutcome::Done(st1, need) => self.case_outcome(
                    st1,
                    need,
                    subject,
                    sv,
                    cases.last(),
                    cases.len() - 1,
                    n,
                    has_default,
                    end,
                ),
                o => o,
            }
        }
    }

    /// What lowering case `i` of a match gives: a direct conditional jump,
    /// or the value conditions, a `.match_case_gen_n` label, the body and a
    /// jump to the end, then the next case's label `.match_next_gen_n`
    /// (`.match_default_gen_n` before a default).
    pub open spec fn case_outcome(
        &self,
        st: LowerState,
        need: bool,
        subject: Expression,
        sv: i32,
        case: MatchCase,
        i: int,
        n: int,
        has_default: bool,
        end: Seq<char>,
    ) -> CasesOutcome
        decreases case,
    {
        match direct_target(case) {
            Some(t) => match number_of(self.arg_outcome(st.aliases, case.values@[0])) {
                IntResult::Value(cv) => CasesOutcome::Done(
                    with_ops(
                        st,
                        seq![
                            OpV::Command("CompareVarValue"@, seq![ArgV::Value(sv), ArgV::Value(cv)]),
                            OpV::Command("JumpIf"@, seq![ArgV::Value(1), ArgV::Pointer(t)]),
                        ],
                    ),
                    need,
                ),
                IntResult::Fails => CasesOutcome::Fails,
                IntResult::Overflows => CasesOutcome::Overflows,
            },
            None => {
                let c1: nat = if i + 1 < n || has_default {
                    st.counter + 1
                } else {
                    st.counter
                };
                let next = if i + 1 < n {
                    gen_label("match_next"@, st.counter + 1)
                } else if has_default {
                    gen_label("match_default"@, st.counter + 1)
                } else {
                    end
                };
                let body_label = gen_label("match_case"@, c1 + 1);
                let st1 = LowerState { counter: c1 + 1, ..st };
                match self.values_ops(st.aliases, subject, case.values@, case.values@.len() as int, next, body_label) {
                    OpsOutcome::Emitted(vops) => match self.body_outcome(
                        with_ops(st1, vops.push(OpV::Label(body_label))),
                        case.body@,
                    ) {
                        LowerOutcome::Done(st2) => CasesOutcome::Done(
                            with_ops(
                                st2,
                                if i + 1 < n || has_default {
                                    seq![jump_to(end), OpV::Label(next)]
                                } else {
                                    seq![jump_to(end)]
                                },
                            ),
                            true,
                        ),
                        LowerOutcome::Fails => CasesOutcome::Fails,
                        LowerOutcome::Overflows => CasesOutcome::Overflows,
                    },
                    OpsOutcome::Fails => CasesOutcome::Fails,
                    OpsOutcome::Overflows => CasesOutcome::Overflows,
                }
            },
        }
    }

    /// What lowering the statements of a body in order gives.
    pub open spec fn body_outcome(&self, st: LowerState, ss: Seq<Statement>) -> LowerOutcome
        decreases ss,
    {
        if ss.len() == 0 {
            LowerOutcome::Done(st)
        } else {
            match self.body_outcome(st, ss.drop_last()) {
                LowerOutcome::Done(st1) => self.stmt_outcome(st1, ss.last()),
                o => o,
            }
        }
    }

    /// What lowering the items of a file gives: an alias is set for what
    /// follows; a script or an action is lowered from no opcodes.
    pub open spec fn items_outcome(&self, st: LowerState, items: Seq<Statement>) -> ItemsOutcome
        decreases items.len(),
    {
        if items.len() == 0 {
            ItemsOutcome::Done(st, Seq::empty())
        } else {
            match self.items_outcome(st, items.drop_last()) {
                ItemsOutcome::Done(st1, vs) => match items.last().node {
                    StatementKind::AliasStatement { .. } => match self.stmt_outcome(st1, items.last()) {
                        LowerOutcome::Done(st2) => ItemsOutcome::Done(st2, vs),
                        LowerOutcome::Fails => ItemsOutcome::Fails,
                        LowerOutcome::Overflows => ItemsOutcome::Overflows,
                    },
                    StatementKind::Function { headers: _, body } => match self.body_outcome(cleared(st1), body@) {
                        LowerOutcome::Done(st2) => ItemsOutcome::Done(cleared(st2), vs.push(ItemV::Function(st2.ops))),
                        LowerOutcome::Fails => ItemsOutcome::Fails,
                        LowerOutcome::Overflows => ItemsOutcome::Overflows,
                    },
                    StatementKind::Action { name, body } => match self.body_outcome(cleared(st1), body@) {
                        LowerOutcome::Done(st2) => ItemsOutcome::Done(
                            cleared(st2),
                            vs.push(ItemV::Action(name@, st2.ops)),
                        ),
                        LowerOutcome::Fails => ItemsOutcome::Fails,
                        LowerOutcome::Overflows => ItemsOutcome::Overflows,
                    },
                    _ => ItemsOutcome::Done(st1, vs),
                },
                o => o,
            }
        }
    }

    /// Lowering items that finishes moves the label counter up by at most
    /// the labels they may generate.
    pub proof fn lemma_items_counter(&self, st: LowerState, items: Seq<Statement>)
        ensures
            self.items_outcome(st, items) matches ItemsOutcome::Done(st2, _) ==> st.counter <= st2.counter
                <= st.counter + items_labels(items) && st2.breaks == st.breaks,
        decreases items.len(),
    {
        if items.len() > 0 {
            self.lemma_items_counter(st, items.drop_last());
            match self.items_outcome(st, items.drop_last()) {
                ItemsOutcome::Done(st1, vs) => {
                    self.lemma_stmt_counter(st1, items.last());
                    match items.last().node {
                        StatementKind::Function { headers: _, body } => {
                            self.lemma_body_counter(cleared(st1), body@);
                        },
                        StatementKind::Action { name: _, body } => {
                            self.lemma_body_counter(cleared(st1), body@);
                        },
                        _ => {},
                    }
                },
                _ => {},
            }
        }
    }

    /// Cases whose first `k` do not finish lowering give what those give.
    proof fn lemma_cases_stuck(
        &self,
        st: LowerState,
        subject: Expression,
        sv: i32,
        cases: Seq<MatchCase>,
        n: int,
        has_default: bool,
        end: Seq<char>,
        k: int,
    )
        requires
            0 <= k <= cases.len(),
            !(self.cases_outcome(st, subject, sv, cases.take(k), n, has_default, end) is Done),
        ensures
            self.cases_outcome(st, subject, sv, cases, n, has_default, end) == self.cases_outcome(
                st,
                subject,
                sv,
                cases.take(k),
                n,
                has_default,
                end,
            ),
        decreases cases.len() - k,
    {
        if k < cases.len() {
            assert(cases.take(k + 1).drop_last() =~= cases.take(k));
            self.lemma_cases_stuck(st, subject, sv, cases, n, has_default, end, k + 1);
        } else {
            assert(cases.take(k) =~= cases);
        }
    }

    /// Values whose first `k` do not lower give what those give.
    proof fn lemma_values_stuck(
        &self,
        aliases: Seq<(Seq<char>, i32)>,
        subject: Expression,
        values: Seq<Expression>,
        n: int,
        next: Seq<char>,
        body: Seq<char>,
        k: int,
    )
        requires
            0 <= k <= values.len(),
            !(self.values_ops(aliases, subject, values.take(k), n, next, body) is Emitted),
        ensures
            self.values_ops(aliases, subject, values, n, next, body) == self.values_ops(
                aliases,
                subject,
                values.take(k),
                n,
                next,
                body,
            ),
        decreases values.len() - k,
    {
        if k < values.len() {
            assert(values.take(k + 1).drop_last() =~= values.take(k));
            self.lemma_values_stuck(aliases, subject, values, n, next, body, k + 1);
        } else {
            assert(values.take(k) =~= values);
        }
    }

    /// Items whose first `k` do not finish lowering give what those give.
    proof fn lemma_items_stuck(&self, st: LowerState, items: Seq<Statement>, k: int)
        requires
            0 <= k <= items.len(),
            !(self.items_outcome(st, items.take(k)) is Done),
        ensures
            self.items_outcome(st, items) == self.items_outcome(st, items.take(k)),
        decreases items.len() - k,
    {
        if k < items.len() {
            assert(items.take(k + 1).drop_last() =~= items.take(k));
            self.lemma_items_stuck(st, items, k + 1);
        } else {
            assert(items.take(k) =~= items);
        }
    }

    /// Lowering a statement or body that finishes only moves the label
    /// counter up, by at most the labels it may generate.
    pub proof fn lemma_stmt_counter(&self, st: LowerState, s: Statement)
        ensures
            self.stmt_outcome(st, s) matches LowerOutcome::Done(st2) ==> st.counter <= st2.counter <= st.counter
                + stmt_labels(s) && st2.breaks == st.breaks,
        decreases s,
    {
        match s.node {
            StatementKind::IfStatement { condition, body, elseblock } => {
                let end = gen_label("end_if"@, st.counter + 1);
                let c: nat = if elseblock is Some {
                    st.counter + 2
                } else {
                    st.counter + 1
                };
                let els = gen_label("else"@, st.counter + 2);
                let target = if elseblock is Some {
                    els
                } else {
                    end
                };
                match self.cond_ops(st.aliases, *condition, target, true) {
                    OpsOutcome::Emitted(cops) => {
                        let st1 = LowerState { counter: c, ops: st.ops + cops, ..st };
                        self.lemma_body_counter(st1, body@);
                        match self.body_outcome(st1, body@) {
                            LowerOutcome::Done(st2) => match elseblock {
                                Some(eb) => {
                                    self.lemma_body_counter(with_ops(st2, seq![jump_to(end), OpV::Label(els)]), eb@);
                                },
                                None => {},
                            },
                            _ => {},
                        }
                    },
                    _ => {},
                }
            },
            StatementKind::WhileStatement { condition, body } => {
                let start = gen_label("while_start"@, st.counter + 1);
                let end = gen_label("while_end"@, st.counter + 2);
                let st1 = LowerState {
                    counter: st.counter + 2,
                    ops: st.ops.push(OpV::Label(start)),
                    breaks: st.breaks.push(end),
                    ..st
                };
                match self.cond_ops(st.aliases, *condition, end, true) {
                    OpsOutcome::Emitted(cops) => {
                        self.lemma_body_counter(with_ops(st1, cops), body@);
                    },
                    _ => {},
                }
            },
            StatementKind::MatchStatement { subject, cases, default } => {
                if !self.is_command_call(*subject) {
                    match number_of(self.arg_outcome(st.aliases, *subject)) {
                        IntResult::Value(sv) => {
                            let end = gen_label("end_match"@, st.counter + 1);
                            let st1 = LowerState { counter: st.counter + 1, ..st };
                            self.lemma_cases_counter(st1, *subject, sv, cases@, cases@.len() as int, default is Some, end);
                            match self.cases_outcome(st1, *subject, sv, cases@, cases@.len() as int, default is Some, end) {
                                CasesOutcome::Done(st2, need) => match default {
                                    Some(d) => {
                                        self.lemma_body_counter(st2, d@);
                                    },
                                    None => {},
                                },
                                _ => {},
                            }
                        },
                        _ => {},
                    }
                }
            },
            _ => {},
        }
    }

    /// See `lemma_stmt_counter`.
    pub proof fn lemma_cases_counter(
        &self,
        st: LowerState,
        subject: Expression,
        sv: i32,
        cases: Seq<MatchCase>,
        n: int,
        has_default: bool,
        end: Seq<char>,
    )
        ensures
            self.cases_outcome(st, subject, sv, cases, n, has_default, end) matches CasesOutcome::Done(st2, _)
                ==> st.counter <= st2.counter <= st.counter + cases_labels(cases) && st2.breaks == st.breaks,
        decreases cases,
    {
        if cases.len() > 0 {
            self.lemma_cases_counter(st, subject, sv, cases.drop_last(), n, has_default, end);
            match self.cases_outcome(st, subject, sv, cases.drop_last(), n, has_default, end) {
                CasesOutcome::Done(st1, need) => {
                    self.lemma_case_counter(st1, need, subject, sv, cases.last(), cases.len() - 1, n, has_default, end);
                },
                _ => {},
            }
        }
    }

    /// See `lemma_stmt_counter`.
    pub proof fn lemma_case_counter(
        &self,
        st: LowerState,
        need: bool,
        subject: Expression,
        sv: i32,
        case: MatchCase,
        i: int,
        n: int,
        has_default: bool,
        end: Seq<char>,
    )
        ensures
            self.case_outcome(st, need, subject, sv, case, i, n, has_default, end) matches CasesOutcome::Done(st2, _)
                ==> st.counter <= st2.counter <= st.counter + case_labels(case) && st2.breaks == st.breaks,
        decreases case,
    {
        if direct_target(case) is None {
            let c1: nat = if i + 1 < n || has_default {
                st.counter + 1
            } else {
                st.counter
            };
            let next = if i + 1 < n {
                gen_label("match_next"@, st.counter + 1)
            } else if has_default {
                gen_label("match_default"@, st.counter + 1)
            } else {
                end
            };
            let body_label = gen_label("match_case"@, c1 + 1);
            let st1 = LowerState { counter: c1 + 1, ..st };
            match self.values_ops(st.aliases, subject, case.values@, case.values@.len() as int, next, body_label) {
                OpsOutcome::Emitted(vops) => {
                    self.lemma_body_counter(with_ops(st1, vops.push(OpV::Label(body_label))), case.body@);
                },
                _ => {},
            }
        }
    }
    pub proof fn lemma_body_counter(&self, st: LowerState, ss: Seq<Statement>)
        ensures
            self.body_outcome(st, ss) matches LowerOutcome::Done(st2) ==> st.counter <= st2.counter <= st.counter
                + body_labels(ss) && st2.breaks == st.breaks,
        decreases ss,
    {
        if ss.len() > 0 {
            self.lemma_body_counter(st, ss.drop_last());
            match self.body_outcome(st, ss.drop_last()) {
                LowerOutcome::Done(st1) => {
                    self.lemma_stmt_counter(st1, ss.last());
                },
                _ => {},
            }
        }
    }

    /// A body whose first `k` statements do not finish lowering gives what
    /// they give.
    proof fn lemma_body_stuck(&self, st: LowerState, ss: Seq<Statement>, k: int)
        requires
            0 <= k <= ss.len(),
            !(self.body_outcome(st, ss.take(k)) is Done),
        ensures
            self.body_outcome(st, ss) == self.body_outcome(st, ss.take(k)),
        decreases ss.len() - k,
    {
        if k < ss.len() {
            assert(ss.take(k + 1).drop_last() =~= ss.take(k));
            self.lemma_body_stuck(st, ss, k + 1);
        } else {
            assert(ss.take(k) =~= ss);
        }
    }

    /// Arguments whose first `k` do not resolve give what those give.
    proof fn lemma_args_stuck(&self, al: Seq<(Seq<char>, i32)>, args: Seq<Expression>, k: int)
        requires
            0 <= k <= args.len(),
            !(self.args_outcome(al, args.take(k)) is Resolved),
        ensures
            self.args_outcome(al, args) == self.args_outcome(al, args.take(k)),
        decreases args.len() - k,
    {
        if k < args.len() {
            assert(args.take(k + 1).drop_last() =~= args.take(k));
            self.lemma_args_stuck(al, args, k + 1);
        } else {
            assert(args.take(k) =~= args);
        }
    }

}

/// Lowers statements against a symbol table and a command database.
pub struct Lowerer<'a> {
    label_counter: usize,
    output: Vec<IrOpcode>,
    global_symbols: &'a SymbolTable,
    active_aliases: Vec<(String, i32)>,
    db: &'a DatabaseV2,
    break_targets: Vec<String>,
}

impl<'a> Lowerer<'a> {
    /// A lowerer for a symbol table and a command database.
    pub fn new(symbols: &'a SymbolTable, db: &'a DatabaseV2) -> (r: Lowerer<'a>)
        ensures
            r.state() == (LowerState { counter: 0, ops: Seq::empty(), aliases: Seq::empty(), breaks: Seq::empty() }),
            r.symbols() == *symbols,
            r.database() == *db,
    {
        let r = Lowerer {
            label_counter: 0,
            output: Vec::new(),
            global_symbols: symbols,
            active_aliases: Vec::new(),
            db,
            break_targets: Vec::new(),
        };
        assert(r.state().ops =~= Seq::<OpV>::empty());
        assert(r.state().aliases =~= Seq::<(Seq<char>, i32)>::empty());
        assert(r.state().breaks =~= Seq::<Seq<char>>::empty());
        r
    }
}

impl<'a> Lowerer<'a> {
    /// The symbol table.
    pub closed spec fn symbols(&self) -> SymbolTable {
        *self.global_symbols
    }

    /// The command database.
    pub closed spec fn database(&self) -> DatabaseV2 {
        *self.db
    }

    /// The lowering state.
    pub closed spec fn state(&self) -> LowerState {
        LowerState {
            counter: self.label_counter as nat,
            ops: self.output@.map_values(|o: IrOpcode| op_v(o)),
            aliases: self.active_aliases@.map_values(|p: (String, i32)| (p.0@, p.1)),
            breaks: self.break_targets@.map_values(|t: String| t@),
        }
    }

    /// The symbol table is well formed.
    pub open spec fn wf(&self) -> bool {
        self.symbols().wf()
    }


    /// What lowering reads.
    pub open spec fn ctx(&self) -> LowerCtx {
        LowerCtx { symbols: self.symbols(), db: self.database() }
    }

    /// Whether two lowerers share their symbol table and databases.
    pub open spec fn same_context(&self, other: &Self) -> bool {
        self.ctx() == other.ctx()
    }

    /// Appends an opcode.
    fn emit(&mut self, op: IrOpcode)
        ensures
            final(self).state() == with_ops(old(self).state(), seq![op_v(op)]),
            final(self).same_context(&*old(self)),
    {
        let ghost before = self.output@;
        self.output.push(op);
        assert(self.output@.map_values(|o: IrOpcode| op_v(o)) =~= before.map_values(|o: IrOpcode| op_v(o)) + seq![op_v(op)]);
    }

    /// A fresh label `.prefix_gen_n`, counting up.
    fn new_label(&mut self, prefix: &str) -> (r: String)
        requires
            old(self).state().counter < usize::MAX,
        ensures
            r@ == gen_label(prefix@, old(self).state().counter + 1),
            final(self).state() == (LowerState { counter: old(self).state().counter + 1, ..old(self).state() }),
            final(self).same_context(&*old(self)),
    {
        self.label_counter = self.label_counter + 1;
        let n = usize_to_string(self.label_counter);
        let m = concat3(".", prefix, "_gen_");
        proof {
            reveal_strlit(".");
            reveal_strlit("_gen_");
        }
        concat(m.as_str(), n.as_str())
    }

    /// The latest value set for an alias.
    fn alias_lookup(&self, name: &str) -> (r: Option<i32>)
        ensures
            r == alias_value(self.state().aliases, name@),
    {
        let ghost al = self.state().aliases;
        let mut i: usize = self.active_aliases.len();
        assert(al.take(i as int) =~= al);
        while i > 0
            invariant
                i <= self.active_aliases@.len(),
                al == self.state().aliases,
                alias_value(al, name@) == alias_value(al.take(i as int), name@),
            decreases i,
        {
            assert(al.take(i as int).drop_last() =~= al.take(i - 1));
            assert(al.take(i as int).last() == al[i - 1]);
            if str_eq(self.active_aliases[i - 1].0.as_str(), name) {
                return Some(self.active_aliases[i - 1].1);
            }
            i = i - 1;
        }
        None
    }

    /// Whether the database has a command under exactly this name.
    fn command_key(&self, name: &str) -> (r: bool)
        ensures
            r == has_command_key(self.database(), name@),
    {
        let mut i: usize = 0;
        while i < self.db.commands.len()
            invariant
                i <= self.db.commands@.len(),
                forall|j: int| 0 <= j < i ==> (#[trigger] self.db.commands@[j]).0@ != name@,
            decreases self.db.commands@.len() - i,
        {
            if str_eq(self.db.commands[i].0.as_str(), name) {
                return true;
            }
            i = i + 1;
        }
        false
    }

    /// Resolves a name: an alias, a definition, a constant, or a comparison
    /// operator name.
    fn resolve_name(&self, name: &String) -> (r: ParseResult<Arg>)
        requires
            self.wf(),
        ensures
            match self.ctx().name_outcome(self.state().aliases, name@) {
                ArgOutcome::Resolved(a) => r matches Ok(x) && arg_v(x) == a,
                _ => r matches Err(CompileError::Lowering { .. }),
            },
    {
        match self.alias_lookup(name.as_str()) {
            Some(v) => {
                return Ok(Arg::Value(v));
            },
            None => {},
        }
        match self.global_symbols.resolve(name.as_str()) {
            Some(SymbolType::Variable(id)) => {
                return Ok(Arg::Value(*id));
            },
            Some(SymbolType::Constant(id)) => {
                return Ok(Arg::Value(*id));
            },
            Some(_) => {
                return Ok(Arg::Pointer(name.clone()));
            },
            None => {},
        }
        match ComparisonOperator::from_str(name.as_str()) {
            Some(c) => Ok(Arg::Value(c.id() as i32)),
            None => Err(
                lowering_error(
                    concat3("Symbol '", name.as_str(), "' could not be resolved (analysis should have caught this)"),
                ),
            ),
        }
    }

    /// Resolves an argument expression: a number, a name (see
    /// `name_outcome`), a label reference, or `+`, `-`, `*` and unary `-`
    /// over numbers.
    pub fn resolve_arg(&self, expr: &Expression) -> (r: ParseResult<Arg>)
        requires
            self.wf(),
            !(self.ctx().arg_outcome(self.state().aliases, *expr) is Overflows),
        ensures
            match self.ctx().arg_outcome(self.state().aliases, *expr) {
                ArgOutcome::Resolved(a) => r matches Ok(x) && arg_v(x) == a,
                ArgOutcome::Fails => r matches Err(CompileError::Lowering { .. }),
                ArgOutcome::Overflows => true,
            },
        decreases expr,
    {
        match &expr.node {
            ExpressionKind::Identifier(name) => self.resolve_name(name),
            ExpressionKind::Number(v) => Ok(Arg::Value(*v)),
            ExpressionKind::Label(name) => Ok(Arg::Pointer(name.clone())),
            ExpressionKind::Infix { left, operator, right } => {
                let l = match self.resolve_arg(left) {
                    Ok(a) => a,
                    Err(e) => {
                        return Err(e);
                    },
                };
                let a = match l.value("left arithmetic operand") {
                    Ok(v) => v,
                    Err(e) => {
                        return Err(e);
                    },
                };
                let rr = match self.resolve_arg(right) {
                    Ok(a) => a,
                    Err(e) => {
                        return Err(e);
                    },
                };
                let b = match rr.value("right arithmetic operand") {
                    Ok(v) => v,
                    Err(e) => {
                        return Err(e);
                    },
                };
                assert(-0x8000_0000_0000_0000 <= a * b <= 0x7fff_ffff_ffff_ffff) by (nonlinear_arith)
                    requires
                        i32::MIN <= a <= i32::MAX,
                        i32::MIN <= b <= i32::MAX,
                {
                    assert(-0x8000_0000 * 0x8000_0000 <= a * b <= 0x8000_0000 * 0x8000_0000);
                }
                let w: i64 = match operator {
                    TokenType::Plus => a as i64 + b as i64,
                    TokenType::Minus => a as i64 - b as i64,
                    TokenType::Mul => a as i64 * b as i64,
                    _ => {
                        let d = operator.debug_text();
                        let m = concat3("Unsupported operator '", d.as_str(), "' in compile-time arithmetic (only +, -, * are supported)");
                        return Err(lowering_error(m));
                    },
                };
                Ok(Arg::Value(w as i32))
            },
            ExpressionKind::Prefix { operator, id } => {
                let x = match self.resolve_arg(id) {
                    Ok(a) => a,
                    Err(e) => {
                        return Err(e);
                    },
                };
                let v = match x.value("prefix operand") {
                    Ok(v) => v,
                    Err(e) => {
                        return Err(e);
                    },
                };
                match operator {
                    TokenType::Minus => Ok(Arg::Value(-v)),
                    _ => {
                        let d = operator.debug_text();
                        Err(lowering_error(concat3("Unsupported prefix operator '", d.as_str(), "' (only unary minus is supported)")))
                    },
                }
            },
            ExpressionKind::Call { function, args } => {
                let format_call = match &function.node {
                    ExpressionKind::Identifier(n) => str_eq(n.as_str(), "format") && args.len() == 1 && matches!(args[0].node, ExpressionKind::String(_)),
                    _ => false,
                };
                proof {
                    reveal_strlit("format");
                }
                if format_call {
                    return Err(lowering_error(string_from("cannot resolve text archive for '': format() requires a project workspace with script-to-archive mapping")));
                }
                match &function.node {
                    ExpressionKind::Identifier(n) => {
                        if self.command_key(n.as_str()) {
                            return Err(lowering_error(concat3("Command '", n.as_str(), "' cannot be used as a plain value here")));
                        }
                    },
                    _ => {},
                }
                let text = match expr.to_constant_eval_source() {
                    Ok(t) => t,
                    Err(m) => {
                        return Err(lowering_error(m));
                    },
                };
                Err(lowering_error(concat3("Could not resolve '", text.as_str(), "' as a constant expression")))
            },
            ExpressionKind::String(_) => Err(lowering_error(string_from("cannot resolve text archive for '': string literals require a project workspace with script-to-archive mapping"))),
            _ => Err(lowering_error(string_from("Invalid expression in argument resolution"))),
        }
    }

    /// Resolves the value of an alias: see `int_outcome`.
    fn resolve_int(&self, expr: &Expression) -> (r: ParseResult<i32>)
        requires
            self.wf(),
            !(self.ctx().int_outcome(self.state().aliases, *expr) is Overflows),
        ensures
            match self.ctx().int_outcome(self.state().aliases, *expr) {
                IntResult::Value(v) => r == Ok::<i32, CompileError>(v),
                IntResult::Fails => r matches Err(CompileError::Lowering { .. }),
                IntResult::Overflows => true,
            },
        decreases expr,
    {
        match &expr.node {
            ExpressionKind::Number(n) => Ok(*n),
            ExpressionKind::Identifier(name) => {
                proof {
                    reveal_strlit("VARS_START");
                    reveal_strlit("SCRIPT_LOCAL_VARS_START");
                    reveal_strlit("VARS_END");
                    reveal_strlit("SCRIPT_LOCAL_VARS_END");
                }
                if str_eq(name.as_str(), "VARS_START") {
                    return Ok(0x4000);
                }
                if str_eq(name.as_str(), "SCRIPT_LOCAL_VARS_START") {
                    return Ok(0x8000);
                }
                if str_eq(name.as_str(), "VARS_END") || str_eq(name.as_str(), "SCRIPT_LOCAL_VARS_END") {
                    return Ok(0x800D);
                }
                match self.alias_lookup(name.as_str()) {
                    Some(v) => {
                        return Ok(v);
                    },
                    None => {},
                }
                match self.global_symbols.resolve(name.as_str()) {
                    Some(SymbolType::Constant(v)) => {
                        return Ok(*v);
                    },
                    Some(SymbolType::Variable(v)) => {
                        return Ok(*v);
                    },
                    _ => {},
                }
                Err(lowering_error(concat3("Could not resolve '", name.as_str(), "' to an integer for macro condition")))
            },
            ExpressionKind::Prefix { operator, id } => {
                let v = match self.resolve_int(id) {
                    Ok(v) => v,
                    Err(e) => {
                        return Err(e);
                    },
                };
                match operator {
                    TokenType::Minus => Ok(-v),
                    TokenType::Plus => Ok(v),
                    _ => {
                        let d = operator.debug_text();
                        Err(lowering_error(concat3("Unsupported prefix operator ", d.as_str(), " in macro condition")))
                    },
                }
            },
            ExpressionKind::Infix { left, operator, right } => {
                let a = match self.resolve_int(left) {
                    Ok(v) => v,
                    Err(e) => {
                        return Err(e);
                    },
                };
                let b = match self.resolve_int(right) {
                    Ok(v) => v,
                    Err(e) => {
                        return Err(e);
                    },
                };
                let r = match operator {
                    TokenType::Plus => a.checked_add(b),
                    TokenType::Minus => a.checked_sub(b),
                    TokenType::Mul => a.checked_mul(b),
                    _ => {
                        let d = operator.debug_text();
                        return Err(lowering_error(concat3("Unsupported infix operator ", d.as_str(), " in macro condition")));
                    },
                };
                match r {
                    Some(v) => Ok(v),
                    None => Err(lowering_error(string_from("Integer overflow while evaluating macro expression"))),
                }
            },
            _ => Err(lowering_error(string_from("Unsupported argument type for macro condition"))),
        }
    }

    /// Whether `e` calls a command of the database.
    fn command_call(&self, e: &Expression) -> (r: bool)
        ensures
            r == self.ctx().is_command_call(*e),
    {
        match &e.node {
            ExpressionKind::Call { function, .. } => match &function.node {
                ExpressionKind::Identifier(n) => self.command_key(n.as_str()),
                _ => false,
            },
            _ => false,
        }
    }

    /// A condition operand as a number.
    fn operand_value(&self, e: &Expression) -> (r: ParseResult<i32>)
        requires
            self.wf(),
            !(self.ctx().operand_outcome(self.state().aliases, *e) is Overflows),
        ensures
            match self.ctx().operand_outcome(self.state().aliases, *e) {
                IntResult::Value(v) => r == Ok::<i32, CompileError>(v),
                IntResult::Fails => r matches Err(CompileError::Lowering { .. }),
                IntResult::Overflows => true,
            },
    {
        let a = match self.resolve_arg(e) {
            Ok(a) => a,
            Err(err) => {
                return Err(err);
            },
        };
        match a {
            Arg::Value(v) => Ok(v),
            Arg::Pointer(name) => Err(lowering_error(concat3("Cannot use pointer '", name.as_str(), "' in condition expression"))),
        }
    }

    /// The comparison a condition operator tests.
    fn get_condition(token: &TokenType, swapped: bool) -> (r: ComparisonOperator)
        ensures
            r == condition_of(*token, swapped),
    {
        match token {
            TokenType::NotEqual => ComparisonOperator::Different,
            TokenType::GreaterThan => if swapped {
                ComparisonOperator::Less
            } else {
                ComparisonOperator::Greater
            },
            TokenType::LesserThan => if swapped {
                ComparisonOperator::Greater
            } else {
                ComparisonOperator::Less
            },
            TokenType::GreaterEqual => if swapped {
                ComparisonOperator::LessEqual
            } else {
                ComparisonOperator::GreaterEqual
            },
            TokenType::LesserEqual => if swapped {
                ComparisonOperator::GreaterEqual
            } else {
                ComparisonOperator::LessEqual
            },
            _ => ComparisonOperator::Equal,
        }
    }

    /// The comparison that holds exactly when the condition operator fails.
    fn get_inverted_condition(token: &TokenType, swapped: bool) -> (r: ComparisonOperator)
        ensures
            r == inverted_condition_of(*token, swapped),
    {
        match token {
            TokenType::NotEqual => ComparisonOperator::Equal,
            TokenType::GreaterThan => if swapped {
                ComparisonOperator::GreaterEqual
            } else {
                ComparisonOperator::LessEqual
            },
            TokenType::LesserThan => if swapped {
                ComparisonOperator::LessEqual
            } else {
                ComparisonOperator::GreaterEqual
            },
            TokenType::GreaterEqual => if swapped {
                ComparisonOperator::Greater
            } else {
                ComparisonOperator::Less
            },
            TokenType::LesserEqual => if swapped {
                ComparisonOperator::Less
            } else {
                ComparisonOperator::Greater
            },
            _ => ComparisonOperator::Different,
        }
    }

    /// Lowers a comparison condition: see `cond_ops`.
    fn lower_condition(&mut self, expr: &Expression, target: &str, invert: bool) -> (r: ParseResult<()>)
        requires
            old(self).wf(),
            !(old(self).ctx().cond_ops(old(self).state().aliases, *expr, target@, invert) is Overflows),
        ensures
            final(self).same_context(&*old(self)),
            match old(self).ctx().cond_ops(old(self).state().aliases, *expr, target@, invert) {
                OpsOutcome::Emitted(ops) => r is Ok && final(self).state() == with_ops(old(self).state(), ops),
                OpsOutcome::Fails => r matches Err(CompileError::Lowering { .. }),
                OpsOutcome::Overflows => true,
            },
    {
        if self.command_call(expr) {
            return Err(lowering_error(string_from("A command call cannot be lowered as a condition: its result variable is not known here")));
        }
        match &expr.node {
            ExpressionKind::Infix { left, operator, right } => self.lower_comparison(left, operator, right, target, invert),
            _ => Err(lowering_error(string_from("Condition must be a comparison expression (e.g., 'x == 1') or an autovar command call"))),
        }
    }

    /// Lowers `left op right` as a condition: see `compare_ops`.
    fn lower_comparison(
        &mut self,
        left: &Expression,
        operator: &TokenType,
        right: &Expression,
        target: &str,
        invert: bool,
    ) -> (r: ParseResult<()>)
        requires
            old(self).wf(),
            !(old(self).ctx().compare_ops(old(self).state().aliases, *left, *operator, *right, target@, invert) is Overflows),
        ensures
            final(self).same_context(&*old(self)),
            match old(self).ctx().compare_ops(old(self).state().aliases, *left, *operator, *right, target@, invert) {
                OpsOutcome::Emitted(ops) => r is Ok && final(self).state() == with_ops(old(self).state(), ops),
                OpsOutcome::Fails => r matches Err(CompileError::Lowering { .. }),
                OpsOutcome::Overflows => true,
            },
    {
        if self.command_call(left) || self.command_call(right) {
            return Err(lowering_error(string_from("A command call cannot be lowered as a condition operand: its result variable is not known here")));
        }
        let lv = match self.operand_value(left) {
            Ok(v) => v,
            Err(e) => {
                return Err(e);
            },
        };
        let rv = match self.operand_value(right) {
            Ok(v) => v,
            Err(e) => {
                return Err(e);
            },
        };
        let lvar = lv >= 0x4000;
        let rvar = rv >= 0x4000;
        let swapped = !lvar && rvar;
        let (a, b) = if swapped {
            (rv, lv)
        } else {
            (lv, rv)
        };
        let name = if lvar && rvar {
            "CompareVars"
        } else {
            "CompareVarValue"
        };
        let c = if invert {
            Self::get_inverted_condition(operator, swapped)
        } else {
            Self::get_condition(operator, swapped)
        };
        let ghost st0 = self.state();
        let compare_args = vec![Arg::Value(a), Arg::Value(b)];
        assert(compare_args@.map_values(|x: Arg| arg_v(x)) =~= seq![ArgV::Value(a), ArgV::Value(b)]);
        self.emit(IrOpcode::Command { name: string_from(name), args: compare_args });
        let jump_args = vec![Arg::Value(c.id() as i32), Arg::Pointer(string_from(target))];
        assert(jump_args@.map_values(|x: Arg| arg_v(x)) =~= seq![
            ArgV::Value(c.spec_id() as i32),
            ArgV::Pointer(target@),
        ]);
        self.emit(IrOpcode::Command { name: string_from("JumpIf"), args: jump_args });
        proof {
            reveal_strlit("CompareVars");
            reveal_strlit("CompareVarValue");
            reveal_strlit("JumpIf");
            assert(self.state().ops =~= st0.ops + old(self).ctx().compare_ops(st0.aliases, *left, *operator, *right, target@, invert)->Emitted_0);
        }
        Ok(())
    }

}

/// The labels of a prefix of a body are at most those of the body.
proof fn lemma_body_labels_prefix(ss: Seq<Statement>, k: int)
    requires
        0 <= k <= ss.len(),
    ensures
        body_labels(ss.take(k)) <= body_labels(ss),
    decreases ss.len() - k,
{
    if k < ss.len() {
        assert(ss.take(k + 1).drop_last() =~= ss.take(k));
        lemma_body_labels_prefix(ss, k + 1);
    } else {
        assert(ss.take(k) =~= ss);
    }
}

impl<'a> Lowerer<'a> {
    /// Lowers one statement: see `stmt_outcome`. Control flow becomes
    /// generated labels (`.end_if_gen_n`, `.else_gen_n`, `.while_start_gen_n`,
    /// `.while_end_gen_n`, `.end_match_gen_n`, `.match_next_gen_n`,
    /// `.match_default_gen_n`, `.match_case_gen_n`) and conditional jumps; a
    /// `break` jumps to the end of the innermost loop; an alias sets a value
    /// for later arguments; a command's arguments are resolved in order.
    #[verifier::rlimit(50)]
    pub fn lower_statement(&mut self, stmt: &Statement) -> (r: ParseResult<()>)
        requires
            old(self).wf(),
            !(old(self).ctx().stmt_outcome(old(self).state(), *stmt) is Overflows),
            old(self).state().counter + stmt_labels(*stmt) <= usize::MAX,
        ensures
            final(self).same_context(&*old(self)),
            match old(self).ctx().stmt_outcome(old(self).state(), *stmt) {
                LowerOutcome::Done(st) => r is Ok && final(self).state() == st,
                LowerOutcome::Fails => r matches Err(CompileError::Lowering { .. }),
                LowerOutcome::Overflows => true,
            },
        decreases stmt, 2nat,
    {
        let ghost st0 = self.state();
        match &stmt.node {
            StatementKind::IfStatement { condition, body, elseblock } => {
                let end = self.new_label("end_if");
                let els: Option<String> = match elseblock {
                    Some(_) => Some(self.new_label("else")),
                    None => None,
                };
                let target = match &els {
                    Some(l) => l.clone(),
                    None => end.clone(),
                };
                proof {
                    reveal_strlit("end_if");
                    reveal_strlit("else");
                }
                let ghost s_mid = self.state();
                match self.lower_condition(condition, target.as_str(), true) {
                    Ok(()) => {},
                    Err(e) => {
                        return Err(e);
                    },
                }
                let ghost st_body = self.state();
                proof {
                    let cops = old(self).ctx().cond_ops(st0.aliases, **condition, target@, true)->Emitted_0;
                    let c: nat = if elseblock is Some { st0.counter + 2 } else { st0.counter + 1 };
                    assert(self.state() == (LowerState { counter: c, ops: st0.ops + cops, ..st0 }));
                    old(self).ctx().lemma_body_counter(st_body, body@);
                    assert(decreases_to!(*stmt => stmt.node));
                    assert(decreases_to!(stmt.node => stmt.node->IfStatement_body));
                    assert(decreases_to!(*body => body@));
                }
                match self.lower_body(body) {
                    Ok(()) => {},
                    Err(e) => {
                        return Err(e);
                    },
                }
                match elseblock {
                    Some(eb) => {
                        let l = match els {
                            Some(l) => l,
                            None => end.clone(),
                        };
                        let jargs = vec![Arg::Pointer(end.clone())];
                        assert(jargs@.map_values(|x: Arg| arg_v(x)) =~= seq![ArgV::Pointer(end@)]);
                        let ghost s1 = self.state();
                        self.emit(IrOpcode::Command { name: string_from("Jump"), args: jargs });
                        self.emit(IrOpcode::Label(l));
                        proof {
                            reveal_strlit("Jump");
                            assert(self.state().ops =~= s1.ops + seq![jump_to(end@), OpV::Label(gen_label("else"@, st0.counter + 2))]);
                            assert(self.state() == with_ops(s1, seq![jump_to(end@), OpV::Label(gen_label("else"@, st0.counter + 2))]));
                            assert(decreases_to!(stmt.node => stmt.node->IfStatement_elseblock));
                            assert(decreases_to!(stmt.node->IfStatement_elseblock => *eb));
                            assert(decreases_to!(*eb => eb@));
                        }
                        match self.lower_body(eb) {
                            Ok(()) => {},
                            Err(e) => {
                                return Err(e);
                            },
                        }
                    },
                    None => {},
                }
                self.emit(IrOpcode::Label(end));
                Ok(())
            },
            StatementKind::WhileStatement { condition, body } => {
                let start = self.new_label("while_start");
                let end = self.new_label("while_end");
                proof {
                    reveal_strlit("while_start");
                    reveal_strlit("while_end");
                }
                let ghost bt = self.break_targets@;
                self.break_targets.push(end.clone());
                proof {
                    assert(self.break_targets@.map_values(|t: String| t@) =~= bt.map_values(|t: String| t@).push(end@));
                }
                self.emit(IrOpcode::Label(start.clone()));
                let ghost st1 = LowerState {
                    counter: st0.counter + 2,
                    ops: st0.ops.push(OpV::Label(start@)),
                    breaks: st0.breaks.push(end@),
                    ..st0
                };
                proof {
                    assert(self.state().ops =~= st1.ops);
                    assert(self.state() == st1);
                }
                match self.lower_condition(condition, end.as_str(), true) {
                    Ok(()) => {},
                    Err(e) => {
                        return Err(e);
                    },
                }
                proof {
                    let cops = old(self).ctx().cond_ops(st0.aliases, **condition, end@, true)->Emitted_0;
                    assert(self.state() == with_ops(st1, cops));
                }
                proof {
                    assert(decreases_to!(*stmt => stmt.node));
                    assert(decreases_to!(stmt.node => stmt.node->WhileStatement_body));
                    assert(decreases_to!(*body => body@));
                }
                match self.lower_body(body) {
                    Ok(()) => {},
                    Err(e) => {
                        return Err(e);
                    },
                }
                proof {
                    let cops = old(self).ctx().cond_ops(st0.aliases, **condition, end@, true)->Emitted_0;
                    old(self).ctx().lemma_body_counter(with_ops(st1, cops), body@);
                }
                let jargs = vec![Arg::Pointer(start)];
                assert(jargs@.map_values(|x: Arg| arg_v(x)) =~= seq![ArgV::Pointer(gen_label("while_start"@, st0.counter + 1))]);
                let ghost s2 = self.state();
                self.emit(IrOpcode::Command { name: string_from("Jump"), args: jargs });
                self.emit(IrOpcode::Label(end));
                let ghost bt2 = self.break_targets@;
                self.break_targets.pop();
                proof {
                    reveal_strlit("Jump");
                    assert(self.break_targets@.map_values(|t: String| t@) =~= bt2.map_values(|t: String| t@).drop_last());
                    assert(self.state().ops =~= s2.ops + seq![
                        jump_to(gen_label("while_start"@, st0.counter + 1)),
                        OpV::Label(gen_label("while_end"@, st0.counter + 2)),
                    ]);
                }
                Ok(())
            },
            StatementKind::Break => {
                if self.break_targets.len() == 0 {
                    return Err(lowering_error(string_from("break statement outside of loop")));
                }
                let t = self.break_targets[self.break_targets.len() - 1].clone();
                let jargs = vec![Arg::Pointer(t)];
                assert(jargs@.map_values(|x: Arg| arg_v(x)) =~= seq![ArgV::Pointer(st0.breaks.last())]);
                self.emit(IrOpcode::Command { name: string_from("Jump"), args: jargs });
                proof {
                    reveal_strlit("Jump");
                }
                Ok(())
            },
            StatementKind::ScriptCommand { command, args } => {
                let mut out: Vec<Arg> = Vec::new();
                let mut i: usize = 0;
                proof {
                    assert(args@.take(0) =~= Seq::<Expression>::empty());
                    assert(out@.map_values(|x: Arg| arg_v(x)) =~= Seq::<ArgV>::empty());
                }
                while i < args.len()
                    invariant
                        self.wf(),
                        self.state() == st0,
                        i <= args@.len(),
                        !(old(self).ctx().stmt_outcome(st0, *stmt) is Overflows),
                        stmt.node == (StatementKind::ScriptCommand { command: *command, args: *args }),
                        old(self).same_context(&*self),
                        self.ctx().args_outcome(st0.aliases, args@.take(i as int)) == ArgsOutcome::Resolved(
                            out@.map_values(|x: Arg| arg_v(x)),
                        ),
                    decreases args.len() - i,
                {
                    assert(args@.take(i + 1).drop_last() =~= args@.take(i as int));
                    assert(args@.take(i + 1).last() == args@[i as int]);
                    proof {
                        if self.ctx().arg_outcome(st0.aliases, args@[i as int]) is Overflows {
                            self.ctx().lemma_args_stuck(st0.aliases, args@, i + 1);
                        }
                    }
                    let a = match self.resolve_arg(&args[i]) {
                        Ok(a) => a,
                        Err(e) => {
                            proof {
                                self.ctx().lemma_args_stuck(st0.aliases, args@, i + 1);
                            }
                            return Err(e);
                        },
                    };
                    let ghost prev = out@;
                    out.push(a);
                    assert(out@.map_values(|x: Arg| arg_v(x)) =~= prev.map_values(|x: Arg| arg_v(x)).push(arg_v(a)));
                    i = i + 1;
                }
                assert(args@.take(args@.len() as int) =~= args@);
                self.emit(IrOpcode::Command { name: command.clone(), args: out });
                Ok(())
            },
            StatementKind::Label(name) => {
                self.emit(IrOpcode::Label(name.clone()));
                Ok(())
            },
            StatementKind::Jump(target) => {
                match &target.node {
                    ExpressionKind::Label(n) | ExpressionKind::Identifier(n) => {
                        let jargs = vec![Arg::Pointer(n.clone())];
                        assert(jargs@.map_values(|x: Arg| arg_v(x)) =~= seq![ArgV::Pointer(n@)]);
                        self.emit(IrOpcode::Command { name: string_from("Jump"), args: jargs });
                        proof {
                            reveal_strlit("Jump");
                        }
                    },
                    _ => {},
                }
                Ok(())
            },
            StatementKind::Return => {
                let e: Vec<Arg> = Vec::new();
                assert(e@.map_values(|x: Arg| arg_v(x)) =~= Seq::<ArgV>::empty());
                self.emit(IrOpcode::Command { name: string_from("Return"), args: e });
                proof {
                    reveal_strlit("Return");
                }
                Ok(())
            },
            StatementKind::End => {
                let e: Vec<Arg> = Vec::new();
                assert(e@.map_values(|x: Arg| arg_v(x)) =~= Seq::<ArgV>::empty());
                self.emit(IrOpcode::Command { name: string_from("End"), args: e });
                proof {
                    reveal_strlit("End");
                }
                Ok(())
            },
            StatementKind::EndMovement => {
                let e: Vec<Arg> = Vec::new();
                assert(e@.map_values(|x: Arg| arg_v(x)) =~= Seq::<ArgV>::empty());
                self.emit(IrOpcode::Command { name: string_from("EndMovement"), args: e });
                proof {
                    reveal_strlit("EndMovement");
                }
                Ok(())
            },
            StatementKind::AliasStatement { value, name } => {
                let v = match self.resolve_int(value) {
                    Ok(v) => v,
                    Err(e) => {
                        return Err(e);
                    },
                };
                let ghost al = self.active_aliases@;
                self.active_aliases.push((name.clone(), v));
                proof {
                    assert(self.active_aliases@.map_values(|p: (String, i32)| (p.0@, p.1)) =~= al.map_values(
                        |p: (String, i32)| (p.0@, p.1),
                    ).push((name@, v)));
                }
                Ok(())
            },
            StatementKind::MatchStatement { .. } => self.lower_match(stmt),
            _ => Ok(()),
        }
    }

    /// Lowers the statements of a body in order: see `body_outcome`.
    pub fn lower_body(&mut self, body: &Vec<Statement>) -> (r: ParseResult<()>)
        requires
            old(self).wf(),
            !(old(self).ctx().body_outcome(old(self).state(), body@) is Overflows),
            old(self).state().counter + body_labels(body@) <= usize::MAX,
        ensures
            final(self).same_context(&*old(self)),
            match old(self).ctx().body_outcome(old(self).state(), body@) {
                LowerOutcome::Done(st) => r is Ok && final(self).state() == st,
                LowerOutcome::Fails => r matches Err(CompileError::Lowering { .. }),
                LowerOutcome::Overflows => true,
            },
        decreases body@, 0nat,
    {
        let ghost st0 = self.state();
        assert(body@.take(0) =~= Seq::<Statement>::empty());
        let mut i: usize = 0;
        while i < body.len()
            invariant
                self.wf(),
                i <= body@.len(),
                old(self).same_context(&*self),
                st0 == old(self).state(),
                !(old(self).ctx().body_outcome(st0, body@) is Overflows),
                st0.counter + body_labels(body@) <= usize::MAX,
                old(self).ctx().body_outcome(st0, body@.take(i as int)) == LowerOutcome::Done(self.state()),
                self.state().counter <= st0.counter + body_labels(body@.take(i as int)),
            decreases body@.len() - i,
        {
            assert(body@.take(i + 1).drop_last() =~= body@.take(i as int));
            assert(body@.take(i + 1).last() == body@[i as int]);
            proof {
                lemma_body_labels_prefix(body@, i + 1);
                if !(old(self).ctx().body_outcome(st0, body@.take(i + 1)) is Done) {
                    old(self).ctx().lemma_body_stuck(st0, body@, i + 1);
                }
                assert(decreases_to!(body@ => body@[i as int]));
            }
            let ghost si = self.state();
            match self.lower_statement(&body[i]) {
                Ok(()) => {},
                Err(e) => {
                    return Err(e);
                },
            }
            proof {
                old(self).ctx().lemma_stmt_counter(si, body@[i as int]);
            }
            i = i + 1;
        }
        assert(body@.take(body@.len() as int) =~= body@);
        Ok(())
    }

    /// Lowers the body of a script or an action from no opcodes, and hands
    /// back its opcodes.
    pub fn lower_function(&mut self, body: &Vec<Statement>) -> (r: ParseResult<Vec<IrOpcode>>)
        requires
            old(self).wf(),
            !(old(self).ctx().body_outcome(cleared(old(self).state()), body@) is Overflows),
            old(self).state().counter + body_labels(body@) <= usize::MAX,
        ensures
            final(self).same_context(&*old(self)),
            match old(self).ctx().body_outcome(cleared(old(self).state()), body@) {
                LowerOutcome::Done(st) => r matches Ok(v) && v@.map_values(|o: IrOpcode| op_v(o)) == st.ops
                    && final(self).state() == cleared(st),
                LowerOutcome::Fails => r matches Err(CompileError::Lowering { .. }),
                LowerOutcome::Overflows => true,
            },
    {
        self.output = Vec::new();
        proof {
            assert(self.state().ops =~= Seq::<OpV>::empty());
            assert(self.state() == cleared(old(self).state()));
        }
        match self.lower_body(body) {
            Ok(()) => {},
            Err(e) => {
                return Err(e);
            },
        }
        let mut out: Vec<IrOpcode> = Vec::new();
        std::mem::swap(&mut out, &mut self.output);
        proof {
            assert(self.state().ops =~= Seq::<OpV>::empty());
        }
        Ok(out)
    }

    /// Lowers the items of a script file in order: see `items_outcome`.
    pub fn lower_script_file(&mut self, file: &ScriptFile) -> (r: ParseResult<Vec<TopLevelItem>>)
        requires
            old(self).wf(),
            !(old(self).ctx().items_outcome(old(self).state(), file.items@) is Overflows),
            old(self).state().counter + items_labels(file.items@) <= usize::MAX,
        ensures
            final(self).same_context(&*old(self)),
            match old(self).ctx().items_outcome(old(self).state(), file.items@) {
                ItemsOutcome::Done(st, vs) => r matches Ok(v) && v@.map_values(|t: TopLevelItem| item_v(t)) == vs
                    && final(self).state() == st,
                ItemsOutcome::Fails => r matches Err(CompileError::Lowering { .. }),
                ItemsOutcome::Overflows => true,
            },
    {
        let ghost st0 = self.state();
        let ghost ctx = old(self).ctx();
        let items = &file.items;
        let mut out: Vec<TopLevelItem> = Vec::new();
        let mut i: usize = 0;
        assert(items@.take(0) =~= Seq::<Statement>::empty());
        assert(out@.map_values(|t: TopLevelItem| item_v(t)) =~= Seq::<ItemV>::empty());
        while i < items.len()
            invariant
                self.wf(),
                i <= items@.len(),
                ctx == self.ctx(),
                ctx == old(self).ctx(),
                st0 == old(self).state(),
                *items == file.items,
                !(ctx.items_outcome(st0, items@) is Overflows),
                st0.counter + items_labels(items@) <= usize::MAX,
                ctx.items_outcome(st0, items@.take(i as int)) == ItemsOutcome::Done(
                    self.state(),
                    out@.map_values(|t: TopLevelItem| item_v(t)),
                ),
                self.state().counter <= st0.counter + items_labels(items@.take(i as int)),
            decreases items@.len() - i,
        {
            assert(items@.take(i + 1).drop_last() =~= items@.take(i as int));
            assert(items@.take(i + 1).last() == items@[i as int]);
            proof {
                lemma_items_labels_prefix(items@, i + 1);
                if !(ctx.items_outcome(st0, items@.take(i + 1)) is Done) {
                    ctx.lemma_items_stuck(st0, items@, i + 1);
                }
                ctx.lemma_items_counter(st0, items@.take(i + 1));
            }
            let ghost si = self.state();
            let ghost prev = out@;
            match &items[i].node {
                StatementKind::AliasStatement { .. } => {
                    match self.lower_statement(&items[i]) {
                        Ok(()) => {},
                        Err(e) => {
                            return Err(e);
                        },
                    }
                },
                StatementKind::Function { headers, body } => {
                    let instructions = match self.lower_function(body) {
                        Ok(v) => v,
                        Err(e) => {
                            return Err(e);
                        },
                    };
                    let hs = copy_headers(headers);
                    let t = TopLevelItem::Function(IrFunction { headers: hs, instructions });
                    out.push(t);
                    assert(out@.map_values(|t: TopLevelItem| item_v(t)) =~= prev.map_values(|t: TopLevelItem| item_v(t)).push(item_v(t)));
                },
                StatementKind::Action { name, body } => {
                    let instructions = match self.lower_function(body) {
                        Ok(v) => v,
                        Err(e) => {
                            return Err(e);
                        },
                    };
                    let t = TopLevelItem::Action(IrAction { name: name.clone(), instructions });
                    out.push(t);
                    assert(out@.map_values(|t: TopLevelItem| item_v(t)) =~= prev.map_values(|t: TopLevelItem| item_v(t)).push(item_v(t)));
                },
                _ => {},
            }
            i = i + 1;
        }
        assert(items@.take(items@.len() as int) =~= items@);
        Ok(out)
    }

    /// Lowers case `i` of `n` of a match: see `case_outcome`. Gives whether
    /// the end label is jumped to.
    #[verifier::rlimit(100)]
    #[verifier::spinoff_prover]
    fn lower_case(
        &mut self,
        stmt: &Statement,
        subject: &Expression,
        sv: i32,
        case: &MatchCase,
        i: usize,
        n: usize,
        has_default: bool,
        end: &String,
        need: bool,
    ) -> (r: ParseResult<bool>)
        requires
            old(self).wf(),
            stmt.node matches StatementKind::MatchStatement { cases, .. } && 0 <= i < cases@.len() && cases@[i as int] == *case,
            i < n,
            !(old(self).ctx().case_outcome(old(self).state(), need, *subject, sv, *case, i as int, n as int, has_default, end@) is Overflows),
            old(self).state().counter + case_labels(*case) <= usize::MAX,
        ensures
            final(self).same_context(&*old(self)),
            match old(self).ctx().case_outcome(old(self).state(), need, *subject, sv, *case, i as int, n as int, has_default, end@) {
                CasesOutcome::Done(st, nd) => r == Ok::<bool, CompileError>(nd) && final(self).state() == st,
                CasesOutcome::Fails => r matches Err(CompileError::Lowering { .. }),
                CasesOutcome::Overflows => true,
            },
        decreases stmt, 0nat,
    {
        let ghost si = self.state();
        let ghost ctx = self.ctx();
        let direct = direct_target_of(case);
        let is_direct = direct.is_some();
        match direct {
            Some(t) => {
                let ca = match self.resolve_arg(&case.values[0]) {
                    Ok(a) => a,
                    Err(e) => {
                        return Err(e);
                    },
                };
                let cv = match ca.value("match case value") {
                    Ok(v) => v,
                    Err(e) => {
                        return Err(e);
                    },
                };
                let a1 = vec![Arg::Value(sv), Arg::Value(cv)];
                assert(a1@.map_values(|x: Arg| arg_v(x)) =~= seq![ArgV::Value(sv), ArgV::Value(cv)]);
                self.emit(IrOpcode::Command { name: string_from("CompareVarValue"), args: a1 });
                let ghost tv = t@;
                let a2 = vec![Arg::Value(1), Arg::Pointer(t)];
                assert(a2@.map_values(|x: Arg| arg_v(x)) =~= seq![ArgV::Value(1), ArgV::Pointer(tv)]);
                self.emit(IrOpcode::Command { name: string_from("JumpIf"), args: a2 });
                proof {
                    reveal_strlit("CompareVarValue");
                    reveal_strlit("JumpIf");
                    assert(self.state().ops =~= si.ops + seq![
                        OpV::Command("CompareVarValue"@, seq![ArgV::Value(sv), ArgV::Value(cv)]),
                        OpV::Command("JumpIf"@, seq![ArgV::Value(1), ArgV::Pointer(tv)]),
                    ]);
                }
            },
            None => {
                let next = if n - i > 1 {
                    self.new_label("match_next")
                } else if has_default {
                    self.new_label("match_default")
                } else {
                    end.clone()
                };
                let body_label = self.new_label("match_case");
                proof {
                    reveal_strlit("match_next");
                    reveal_strlit("match_default");
                    reveal_strlit("match_case");
                }
                let ghost s_case = self.state();
                proof {
                    let c1: nat = if i + 1 < n || has_default {
                        si.counter + 1
                    } else {
                        si.counter
                    };
                    assert(s_case == (LowerState { counter: c1 + 1, ..si }));
                    assert(s_case.counter + body_labels(case.body@) <= usize::MAX);
                }
                let nv = case.values.len();
                let mut j: usize = 0;
                let ghost mut added: Seq<OpV> = Seq::empty();
                assert(case.values@.take(0) =~= Seq::<Expression>::empty());
                assert(with_ops(s_case, added).ops =~= s_case.ops);
                while j < nv
                    invariant
                        self.wf(),
                        ctx == self.ctx(),
                        ctx == old(self).ctx(),
                        si == old(self).state(),
                        direct_target(*case) is None,
                        s_case.counter + body_labels(case.body@) <= usize::MAX,
                        !(ctx.case_outcome(si, need, *subject, sv, *case, i as int, n as int, has_default, end@) is Overflows),
                        next@ == (if i + 1 < n {
                            gen_label("match_next"@, si.counter + 1)
                        } else if has_default {
                            gen_label("match_default"@, si.counter + 1)
                        } else {
                            end@
                        }),
                        s_case == (LowerState { counter: (if i + 1 < n || has_default {
                            si.counter + 1
                        } else {
                            si.counter
                        }) + 1, ..si }),
                        body_label@ == gen_label("match_case"@, s_case.counter),
                        j <= nv,
                        nv == case.values@.len(),
                        !(ctx.values_ops(si.aliases, *subject, case.values@, nv as int, next@, body_label@) is Overflows),
                        ctx.values_ops(si.aliases, *subject, case.values@.take(j as int), nv as int, next@, body_label@)
                            == OpsOutcome::Emitted(added),
                        self.state() == with_ops(s_case, added),
                    decreases nv - j,
                {
                    assert(case.values@.take(j + 1).drop_last() =~= case.values@.take(j as int));
                    assert(case.values@.take(j + 1).last() == case.values@[j as int]);
                    proof {
                        if !(ctx.values_ops(si.aliases, *subject, case.values@.take(j + 1), nv as int, next@, body_label@) is Emitted) {
                            ctx.lemma_values_stuck(si.aliases, *subject, case.values@, nv as int, next@, body_label@, j + 1);
                        }
                    }
                    let ghost sj = self.state();
                    let res = if j + 1 >= nv {
                        self.lower_comparison(subject, &TokenType::Equal, &case.values[j], next.as_str(), true)
                    } else {
                        self.lower_comparison(subject, &TokenType::Equal, &case.values[j], body_label.as_str(), false)
                    };
                    match res {
                        Ok(()) => {},
                        Err(e) => {
                            return Err(e);
                        },
                    }
                    proof {
                        let o2 = if j + 1 >= nv {
                            ctx.compare_ops(si.aliases, *subject, TokenType::Equal, case.values@[j as int], next@, true)
                        } else {
                            ctx.compare_ops(si.aliases, *subject, TokenType::Equal, case.values@[j as int], body_label@, false)
                        };
                        assert(self.state().ops =~= s_case.ops + (added + o2->Emitted_0));
                        added = added + o2->Emitted_0;
                    }
                    j = j + 1;
                }
                assert(case.values@.take(nv as int) =~= case.values@);
                self.emit(IrOpcode::Label(body_label));
                proof {
                    assert(self.state().ops =~= s_case.ops + added.push(OpV::Label(body_label@)));
                    let cs = stmt.node->MatchStatement_cases;
                    assert(decreases_to!(*stmt => stmt.node));
                    assert(decreases_to!(stmt.node => cs));
                    assert(decreases_to!(cs => cs@));
                    assert(decreases_to!(cs@ => cs@[i as int]));
                    assert(decreases_to!(cs@[i as int] => cs@[i as int].body));
                    assert(decreases_to!(case.body => case.body@));
                }
                match self.lower_body(&case.body) {
                    Ok(()) => {},
                    Err(e) => {
                        return Err(e);
                    },
                }
                let ghost s_after = self.state();
                let ja = vec![Arg::Pointer(end.clone())];
                assert(ja@.map_values(|x: Arg| arg_v(x)) =~= seq![ArgV::Pointer(end@)]);
                self.emit(IrOpcode::Command { name: string_from("Jump"), args: ja });
                proof {
                    reveal_strlit("Jump");
                }
                if n - i > 1 || has_default {
                    self.emit(IrOpcode::Label(next));
                    proof {
                        assert(self.state().ops =~= s_after.ops + seq![jump_to(end@), OpV::Label(next@)]);
                    }
                } else {
                    proof {
                        assert(self.state().ops =~= s_after.ops + seq![jump_to(end@)]);
                    }
                }
            },
        }
        Ok(if is_direct {
            need
        } else {
            true
        })
    }

    /// Lowers a match statement: see `stmt_outcome`.
    #[verifier::rlimit(60)]
    fn lower_match(&mut self, stmt: &Statement) -> (r: ParseResult<()>)
        requires
            old(self).wf(),
            stmt.node is MatchStatement,
            !(old(self).ctx().stmt_outcome(old(self).state(), *stmt) is Overflows),
            old(self).state().counter + stmt_labels(*stmt) <= usize::MAX,
        ensures
            final(self).same_context(&*old(self)),
            match old(self).ctx().stmt_outcome(old(self).state(), *stmt) {
                LowerOutcome::Done(st) => r is Ok && final(self).state() == st,
                LowerOutcome::Fails => r matches Err(CompileError::Lowering { .. }),
                LowerOutcome::Overflows => true,
            },
        decreases stmt, 1nat,
    {
        let ghost st0 = self.state();
        let ghost ctx = self.ctx();
        let (subject, cases, default) = match &stmt.node {
            StatementKind::MatchStatement { subject, cases, default } => (subject, cases, default),
            _ => {
                return Ok(());
            },
        };
        if self.command_call(subject) {
            return Err(lowering_error(string_from("A command call cannot be lowered as a match subject: its result variable is not known here")));
        }
        let sa = match self.resolve_arg(subject) {
            Ok(a) => a,
            Err(e) => {
                return Err(e);
            },
        };
        let sv = match sa.value("match subject") {
            Ok(v) => v,
            Err(e) => {
                return Err(e);
            },
        };
        let end = self.new_label("end_match");
        proof {
            reveal_strlit("end_match");
        }
        let ghost st1 = self.state();
        let has_default = default.is_some();
        let n = cases.len();
        let mut need = false;
        let mut i: usize = 0;
        assert(cases@.take(0) =~= Seq::<MatchCase>::empty());
        proof {
            assert(st1 == LowerState { counter: st0.counter + 1, ..st0 });
        }
        while i < n
            invariant
                self.wf(),
                ctx == self.ctx(),
                ctx == old(self).ctx(),
                st0 == old(self).state(),
                stmt.node == (StatementKind::MatchStatement { subject: *subject, cases: *cases, default: *default }),
                !ctx.is_command_call(**subject),
                number_of(ctx.arg_outcome(st0.aliases, **subject)) == IntResult::Value(sv),
                n == cases@.len(),
                i <= n,
                has_default == default is Some,
                st1 == (LowerState { counter: st0.counter + 1, ..st0 }),
                end@ == gen_label("end_match"@, st0.counter + 1),
                !(ctx.cases_outcome(st1, **subject, sv, cases@, n as int, has_default, end@) is Overflows),
                st1.counter + cases_labels(cases@) <= usize::MAX,
                ctx.cases_outcome(st1, **subject, sv, cases@.take(i as int), n as int, has_default, end@)
                    == CasesOutcome::Done(self.state(), need),
                self.state().counter <= st1.counter + cases_labels(cases@.take(i as int)),
            decreases n - i,
        {
            assert(cases@.take(i + 1).drop_last() =~= cases@.take(i as int));
            assert(cases@.take(i + 1).last() == cases@[i as int]);
            assert(cases_labels(cases@.take(i + 1)) == cases_labels(cases@.take(i as int)) + case_labels(cases@[i as int]));
            let ghost si = self.state();
            let ghost need_i = need;
            proof {
                lemma_cases_labels_prefix(cases@, i + 1);
                if !(ctx.cases_outcome(st1, **subject, sv, cases@.take(i + 1), n as int, has_default, end@) is Done) {
                    ctx.lemma_cases_stuck(st1, **subject, sv, cases@, n as int, has_default, end@, i + 1);
                }
                ctx.lemma_case_counter(si, need_i, **subject, sv, cases@[i as int], i as int, n as int, has_default, end@);
            }
            match self.lower_case(stmt, subject, sv, &cases[i], i, n, has_default, &end, need) {
                Ok(nd) => {
                    need = nd;
                },
                Err(e) => {
                    return Err(e);
                },
            }
            i = i + 1;
        }
        assert(cases@.take(n as int) =~= cases@);
        match default {
            Some(d) => {
                proof {
                    assert(decreases_to!(*stmt => stmt.node));
                    assert(decreases_to!(stmt.node => stmt.node->MatchStatement_default));
                    assert(decreases_to!(*default => *d));
                    assert(decreases_to!(*d => d@));
                }
                match self.lower_body(d) {
                    Ok(()) => {},
                    Err(e) => {
                        return Err(e);
                    },
                }
                self.emit(IrOpcode::Label(end));
            },
            None => {
                if need {
                    self.emit(IrOpcode::Label(end));
                }
            },
        }
        Ok(())
    }

}

/// The label a case jumps to directly: see `direct_target`.
fn direct_target_of(case: &MatchCase) -> (r: Option<String>)
    ensures
        match direct_target(*case) {
            Some(t) => r matches Some(x) && x@ == t,
            None => r is None,
        },
{
    proof {
        reveal_strlit("Call");
    }
    if case.values.len() == 1 && case.body.len() == 1 {
        match &case.body[0].node {
            StatementKind::ScriptCommand { command, args } => {
                if str_eq(command.as_str(), "Call") && args.len() > 0 {
                    match &args[0].node {
                        ExpressionKind::Identifier(n) => Some(n.clone()),
                        ExpressionKind::Label(n) => Some(n.clone()),
                        _ => None,
                    }
                } else {
                    None
                }
            },
            StatementKind::Jump(t) => match &t.node {
                ExpressionKind::Identifier(n) => Some(n.clone()),
                ExpressionKind::Label(n) => Some(n.clone()),
                _ => None,
            },
            _ => None,
        }
    } else {
        None
    }
}

/// The labels of a prefix of a match's cases are at most those of all.
proof fn lemma_cases_labels_prefix(cases: Seq<MatchCase>, k: int)
    requires
        0 <= k <= cases.len(),
    ensures
        cases_labels(cases.take(k)) <= cases_labels(cases),
    decreases cases.len() - k,
{
    if k < cases.len() {
        assert(cases.take(k + 1).drop_last() =~= cases.take(k));
        lemma_cases_labels_prefix(cases, k + 1);
    } else {
        assert(cases.take(k) =~= cases);
    }
}

/// A copy of a list of script headers.
pub fn copy_headers(hs: &Vec<FunctionHeader>) -> (r: Vec<FunctionHeader>)
    ensures
        r@.len() == hs@.len(),
        forall|k: int| 0 <= k < hs@.len() ==> (#[trigger] r@[k]).name@ == hs@[k].name@ && r@[k].id == hs@[k].id
            && r@[k].is_public == hs@[k].is_public,
{
    let mut r: Vec<FunctionHeader> = Vec::new();
    let mut i: usize = 0;
    while i < hs.len()
        invariant
            i <= hs@.len(),
            r@.len() == i,
            forall|k: int| 0 <= k < i ==> (#[trigger] r@[k]).name@ == hs@[k].name@ && r@[k].id == hs@[k].id
                && r@[k].is_public == hs@[k].is_public,
        decreases hs@.len() - i,
    {
        r.push(FunctionHeader { name: hs[i].name.clone(), id: hs[i].id, is_public: hs[i].is_public });
        i = i + 1;
    }
    r
}

/// The labels of a prefix of a file's items are at most those of all.
proof fn lemma_items_labels_prefix(items: Seq<Statement>, k: int)
    requires
        0 <= k <= items.len(),
    ensures
        items_labels(items.take(k)) <= items_labels(items),
    decreases items.len() - k,
{
    if k < items.len() {
        assert(items.take(k + 1).drop_last() =~= items.take(k));
        lemma_items_labels_prefix(items, k + 1);
    } else {
        assert(items.take(k) =~= items);
    }
}

} // verus!

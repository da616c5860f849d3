//! The intermediate representation between the parser and the code
//! generator: commands with resolved arguments, and labels.

use vstd::prelude::*;

use super::ast::FunctionHeader;
use super::diagnostic::error::{lowering_error, CompileError, ParseResult};
use crate::text::{concat, concat3, nat_to_hex, u64_to_hex_padded};

verus! {

/// An IR opcode: a command or a label.
#[derive(Debug, Clone)]
pub enum IrOpcode {
    Command { name: String, args: Vec<Arg> },
    Label(String),
}

/// An argument of an IR command: a number, or a label to be relocated.
#[derive(Debug, Clone)]
pub enum Arg {
    Value(i32),
    Pointer(String),
}

/// The message for a pointer where a number was expected.
pub open spec fn pointer_message(context: Seq<char>, target: Seq<char>) -> Seq<char> {
    "expected numeric value for "@ + context + ", found pointer to '"@ + target + "'"@
}

impl Arg {
    /// The number the argument holds; `context` names the use in the error.
    pub fn value(&self, context: &str) -> (r: ParseResult<i32>)
        ensures
            match self {
                Arg::Value(v) => r == Ok::<i32, CompileError>(*v),
                Arg::Pointer(t) => r matches Err(CompileError::Lowering { message }) && message@
                    == pointer_message(context@, t@),
            },
    {
        match self {
            Arg::Value(v) => Ok(*v),
            Arg::Pointer(target) => {
                let m1 = concat3("expected numeric value for ", context, ", found pointer to '");
                let m2 = concat3(m1.as_str(), target.as_str(), "'");
                Err(lowering_error(m2))
            },
        }
    }

    /// The number the argument holds; the argument must be a number.
    pub fn unwrap_value(&self) -> (r: i32)
        requires
            self is Value,
        ensures
            *self == Arg::Value(r),
    {
        match self {
            Arg::Value(v) => *v,
            Arg::Pointer(_) => vstd::pervasive::unreached(),
        }
    }

    /// The label the argument points to; the argument must be a pointer.
    pub fn unwrap_pointer(&self) -> (r: String)
        requires
            self is Pointer,
        ensures
            self matches Arg::Pointer(t) && r@ == t@,
    {
        match self {
            Arg::Pointer(s) => s.clone(),
            Arg::Value(_) => vstd::pervasive::unreached(),
        }
    }
}

/// A script in the IR, with one or more headers (stacked entry points).
#[derive(Debug, Clone)]
pub struct IrFunction {
    pub headers: Vec<FunctionHeader>,
    pub instructions: Vec<IrOpcode>,
}

/// An action (movement sequence) in the IR.
#[derive(Debug, Clone)]
pub struct IrAction {
    pub name: String,
    pub instructions: Vec<IrOpcode>,
}

/// A top-level item, in source order.
#[derive(Debug, Clone)]
pub enum TopLevelItem {
    Function(IrFunction),
    Action(IrAction),
}

/// The jump-table slots the headers claim: `(id, name)` of each public
/// header that has an id, in order.
pub open spec fn header_slots(hs: Seq<FunctionHeader>) -> Seq<(u32, Seq<char>)>
    decreases hs.len(),
{
    if hs.len() == 0 {
        Seq::empty()
    } else {
        let rest = header_slots(hs.drop_last());
        let h = hs.last();
        if h.is_public && h.id is Some {
            rest.push((h.id->0, h.name@))
        } else {
            rest
        }
    }
}

impl IrFunction {
    /// The script's name: that of its first header.
    pub fn name(&self) -> (r: &str)
        requires
            self.headers@.len() > 0,
        ensures
            r@ == self.headers@[0].name@,
    {
        self.headers[0].name.as_str()
    }

    /// Whether any header is public.
    pub fn is_public(&self) -> (r: bool)
        ensures
            r == exists|i: int| 0 <= i < self.headers@.len() && (#[trigger] self.headers@[i]).is_public,
    {
        let mut i: usize = 0;
        while i < self.headers.len()
            invariant
                i <= self.headers@.len(),
                forall|j: int| 0 <= j < i ==> !(#[trigger] self.headers@[j]).is_public,
            decreases self.headers.len() - i,
        {
            if self.headers[i].is_public {
                return true;
            }
            i = i + 1;
        }
        false
    }

    /// The jump-table slots of the script: `(id, name)` for each public
    /// header with an id.
    pub fn jump_table_slots(&self) -> (r: Vec<(u32, String)>)
        ensures
            r@.len() == header_slots(self.headers@).len(),
            forall|k: int|
                0 <= k < r@.len() ==> (#[trigger] r@[k]).0 == header_slots(self.headers@)[k].0
                    && r@[k].1@ == header_slots(self.headers@)[k].1,
    {
        let mut out: Vec<(u32, String)> = Vec::new();
        let mut i: usize = 0;
        while i < self.headers.len()
            invariant
                i <= self.headers@.len(),
                out@.len() == header_slots(self.headers@.take(i as int)).len(),
                forall|k: int|
                    0 <= k < out@.len() ==> (#[trigger] out@[k]).0 == header_slots(
                        self.headers@.take(i as int),
                    )[k].0 && out@[k].1@ == header_slots(self.headers@.take(i as int))[k].1,
            decreases self.headers.len() - i,
        {
            assert(self.headers@.take(i + 1).drop_last() =~= self.headers@.take(i as int));
            let h = &self.headers[i];
            if h.is_public {
                match h.id {
                    Some(id) => {
                        out.push((id, h.name.clone()));
                    },
                    None => {},
                }
            }
            i = i + 1;
        }
        assert(self.headers@.take(self.headers@.len() as int) =~= self.headers@);
        out
    }
}

/// The comparison a conditional jump tests, by its byte value 0..=5.
#[derive(Debug, Clone, Copy, PartialEq, Eq, Structural)]
pub enum Condition {
    Less,
    Equal,
    Greater,
    LessEqual,
    GreaterEqual,
    Different,
}

/// Whether an operand is a variable or a plain number.
#[derive(Debug, PartialEq, Eq, Structural)]
pub enum OperandType {
    /// A variable reference (0x8000 and up).
    Variable,
    /// A raw number.
    Value,
}


// ---------------------------------------------------------------------------
// Printing the IR
// ---------------------------------------------------------------------------

/// How an argument prints: a number as `0x` and the upper-case hexadecimal
/// digits of its 32-bit pattern, a pointer as `Pointer(label)`.
pub open spec fn arg_text(a: Arg) -> Seq<char> {
    match a {
        Arg::Value(v) => "0x"@ + nat_to_hex((v as u32) as nat),
        Arg::Pointer(t) => "Pointer("@ + t@ + ")"@,
    }
}

/// The arguments' texts, separated by `, `.
pub open spec fn args_text(args: Seq<Arg>) -> Seq<char>
    decreases args.len(),
{
    if args.len() == 0 {
        Seq::empty()
    } else if args.len() == 1 {
        arg_text(args[0])
    } else {
        args_text(args.drop_last()) + ", "@ + arg_text(args.last())
    }
}

/// How an opcode prints: a command indented by four spaces with its
/// arguments, a label followed by `:`.
pub open spec fn opcode_text(op: IrOpcode) -> Seq<char> {
    match op {
        IrOpcode::Command { name, args } => "    "@ + name@ + " "@ + args_text(args@),
        IrOpcode::Label(name) => name@ + ":"@,
    }
}

/// The opcodes' texts, each on a line of its own.
pub open spec fn opcode_lines(ops: Seq<IrOpcode>) -> Seq<char>
    decreases ops.len(),
{
    if ops.len() == 0 {
        Seq::empty()
    } else {
        opcode_lines(ops.drop_last()) + opcode_text(ops.last()) + "\n"@
    }
}

/// How a script prints: a title line with the name of its first header,
/// then its opcodes.
pub open spec fn function_text(f: IrFunction) -> Seq<char> {
    "=== IR: "@ + f.headers@[0].name@ + " ===\n"@ + opcode_lines(f.instructions@)
}

/// How an action prints: a title line with its name, then its opcodes.
pub open spec fn action_text(a: IrAction) -> Seq<char> {
    "=== IR Action: "@ + a.name@ + " ===\n"@ + opcode_lines(a.instructions@)
}

impl Arg {
    /// The argument as the IR prints it.
    pub fn describe(&self) -> (r: String)
        ensures
            r@ == arg_text(*self),
    {
        match self {
            Arg::Value(v) => {
                let bits: u32 = *v as u32;
                let hex = u64_to_hex_padded(bits as u64, 0);
                concat("0x", hex.as_str())
            },
            Arg::Pointer(t) => concat3("Pointer(", t.as_str(), ")"),
        }
    }
}

impl IrOpcode {
    /// The opcode as the IR prints it.
    pub fn describe(&self) -> (r: String)
        ensures
            r@ == opcode_text(*self),
    {
        match self {
            IrOpcode::Command { name, args } => {
                let mut out = concat3("    ", name.as_str(), " ");
                let ghost head = out@;
                let mut i: usize = 0;
                while i < args.len()
                    invariant
                        i <= args@.len(),
                        out@ == head + args_text(args@.take(i as int)),
                    decreases args.len() - i,
                {
                    assert(args@.take(i + 1).drop_last() =~= args@.take(i as int));
                    if i > 0 {
                        out.append(", ");
                    }
                    let a = args[i].describe();
                    out.append(a.as_str());
                    proof {
                        if i == 0 {
                            assert(args@.take(1) =~= seq![args@[0]]);
                        }
                    }
                    i = i + 1;
                    assert(out@ =~= head + args_text(args@.take(i as int)));
                }
                assert(args@.take(args@.len() as int) =~= args@);
                out
            },
            IrOpcode::Label(name) => concat(name.as_str(), ":"),
        }
    }
}

/// The opcodes, each printed on a line of its own.
fn opcodes_describe(ops: &Vec<IrOpcode>) -> (r: String)
    ensures
        r@ == opcode_lines(ops@),
{
    let mut out = String::new();
    let mut i: usize = 0;
    assert(ops@.take(0) =~= Seq::<IrOpcode>::empty());
    while i < ops.len()
        invariant
            i <= ops@.len(),
            out@ == opcode_lines(ops@.take(i as int)),
        decreases ops.len() - i,
    {
        assert(ops@.take(i + 1).drop_last() =~= ops@.take(i as int));
        let line = ops[i].describe();
        out.append(line.as_str());
        out.append("\n");
        i = i + 1;
        assert(out@ =~= opcode_lines(ops@.take(i as int)));
    }
    assert(ops@.take(ops@.len() as int) =~= ops@);
    out
}

impl IrFunction {
    /// The script as the IR prints it; it has at least one header.
    pub fn describe(&self) -> (r: String)
        requires
            self.headers@.len() > 0,
        ensures
            r@ == function_text(*self),
    {
        let title = concat3("=== IR: ", self.headers[0].name.as_str(), " ===\n");
        let body = opcodes_describe(&self.instructions);
        concat(title.as_str(), body.as_str())
    }
}

impl IrAction {
    /// The action as the IR prints it.
    pub fn describe(&self) -> (r: String)
        ensures
            r@ == action_text(*self),
    {
        let title = concat3("=== IR Action: ", self.name.as_str(), " ===\n");
        let body = opcodes_describe(&self.instructions);
        concat(title.as_str(), body.as_str())
    }
}

impl TopLevelItem {
    /// The item as the IR prints it; a script has at least one header.
    pub fn describe(&self) -> (r: String)
        requires
            self matches TopLevelItem::Function(f) ==> f.headers@.len() > 0,
        ensures
            r@ == match *self {
                TopLevelItem::Function(f) => function_text(f),
                TopLevelItem::Action(a) => action_text(a),
            },
    {
        match self {
            TopLevelItem::Function(f) => f.describe(),
            TopLevelItem::Action(a) => a.describe(),
        }
    }
}

} // verus!

//! Rendering disassembled scripts back to Rotoscript source.

use vstd::prelude::*;

use crate::compiler::ast::FunctionHeader;
use crate::compiler::ir::{Arg, IrAction, IrFunction, IrOpcode, TopLevelItem};
use crate::database::{comparison_name, comparison_of_id, comparison_of_upper, ComparisonOperator, DatabaseV2};
use crate::text::{
    concat, concat3, hex_padded, i32_to_string, int_to_decimal, nat_to_decimal, str_eq, string_from,
    u64_to_hex_padded, u64_to_string,
};

verus! {

/// The index ending the run of consecutive slot ids that starts at `i`.
pub open spec fn run_end(ids: Seq<u32>, i: int) -> int
    decreases ids.len() - i,
{
    if 0 <= i && i + 1 < ids.len() && ids[i + 1] == ids[i] + 1 {
        run_end(ids, i + 1)
    } else {
        i
    }
}

/// The runs of `ids` from index `i` on, each `N` or `N-M`, joined by `, `.
pub open spec fn slot_parts(ids: Seq<u32>, i: int) -> Seq<char>
    decreases ids.len() - i,
{
    if i < 0 || i >= ids.len() {
        Seq::empty()
    } else {
        let j = run_end(ids, i);
        let part = if j == i {
            nat_to_decimal(ids[i] as nat)
        } else {
            nat_to_decimal(ids[i] as nat) + "-"@ + nat_to_decimal(ids[j] as nat)
        };
        if j + 1 >= ids.len() || j < i {
            part
        } else {
            part + ", "@ + slot_parts(ids, j + 1)
        }
    }
}

/// A header's slot list: `#N` for one slot, else `#[...]` with runs of
/// consecutive slots written as ranges.
pub open spec fn spec_slot_list(ids: Seq<u32>) -> Seq<char> {
    if ids.len() == 1 {
        "#"@ + nat_to_decimal(ids[0] as nat)
    } else {
        "#["@ + slot_parts(ids, 0) + "]"@
    }
}

proof fn lemma_run_end_bounds(ids: Seq<u32>, i: int)
    requires
        0 <= i < ids.len(),
    ensures
        i <= run_end(ids, i) < ids.len(),
    decreases ids.len() - i,
{
    if i + 1 < ids.len() && ids[i + 1] == ids[i] + 1 {
        lemma_run_end_bounds(ids, i + 1);
    }
}

/// Formats a list of slot ids as a header's slot list: see `spec_slot_list`.
pub fn format_slot_list(ids: &[u32]) -> (r: String)
    ensures
        r@ == spec_slot_list(ids@),
{
    let ghost s = ids@;
    if ids.len() == 1 {
        let d = u64_to_string(ids[0] as u64);
        proof {
            reveal_strlit("#");
        }
        return concat("#", d.as_str());
    }
    let mut out = string_lit_open();
    let mut i: usize = 0;
    proof {
        reveal_strlit("#[");
    }
    while i < ids.len()
        invariant
            s == ids@,
            i <= s.len(),
            s.len() != 1,
            out@ + (if i < s.len() {
                (if i == 0 {
                    Seq::<char>::empty()
                } else {
                    ", "@
                }) + slot_parts(s, i as int)
            } else {
                Seq::<char>::empty()
            }) == "#["@ + slot_parts(s, 0),
        decreases s.len() - i,
    {
        let ghost i0 = i as int;
        let first_index = i;
        proof {
            lemma_run_end_bounds(s, i0);
        }
        let start = ids[i];
        let mut end = start;
        while ids.len() - i > 1 && ids[i + 1] as u64 == ids[i] as u64 + 1
            invariant
                s == ids@,
                i0 <= i < s.len(),
                run_end(s, i0) == run_end(s, i as int),
                end == s[i as int],
            decreases s.len() - i,
        {
            i = i + 1;
            end = ids[i];
        }
        let ghost j = i as int;
        assert(run_end(s, j) == j);
        let a = u64_to_string(start as u64);
        let part = if i == first_index {
            a
        } else {
            let b = u64_to_string(end as u64);
            concat3(a.as_str(), "-", b.as_str())
        };
        proof {
            reveal_strlit("-");
            reveal_strlit(", ");
            if j != i0 {
                assert(part@ == nat_to_decimal(s[i0] as nat) + "-"@ + nat_to_decimal(s[j] as nat));
            }
        }
        if first_index > 0 {
            out = concat(out.as_str(), ", ");
        }
        out = concat(out.as_str(), part.as_str());
        i = i + 1;
        proof {
            assert(slot_parts(s, i0) == part@ + (if j + 1 >= s.len() {
                Seq::<char>::empty()
            } else {
                ", "@ + slot_parts(s, j + 1)
            })) by {
                if j + 1 >= s.len() {
                    assert(part@ + Seq::<char>::empty() =~= part@);
                }
            }
        }
    }
    proof {
        reveal_strlit("]");
    }
    concat(out.as_str(), "]")
}

/// `#[` as a fresh string.
fn string_lit_open() -> (r: String)
    ensures
        r@ == "#["@,
{
    crate::text::string_from("#[")
}


// ---------------------------------------------------------------------------
// Scripts and actions
// ---------------------------------------------------------------------------

/// The name of parameter `k` of command `name`, where the database knows both.
pub open spec fn param_name_of(db: DatabaseV2, name: Seq<char>, k: int) -> Option<Seq<char>> {
    match db.command_lookup(name) {
        Some(i) => if 0 <= k < db.commands@[i].1.params@.len() {
            Some(db.commands@[i].1.params@[k].name@)
        } else {
            None
        },
        None => None,
    }
}

/// The source name of a comparison operator.
pub open spec fn condition_source_name(op: ComparisonOperator) -> Seq<char> {
    match op {
        ComparisonOperator::Less => "LESS"@,
        ComparisonOperator::Equal => "EQUAL"@,
        ComparisonOperator::Greater => "GREATER"@,
        ComparisonOperator::LessEqual => "LESS_EQUAL"@,
        ComparisonOperator::GreaterEqual => "GREATER_EQUAL"@,
        ComparisonOperator::Different => "DIFFERENT"@,
    }
}

/// Reading a condition name gives back the operator it names: the name the
/// decompiler writes for an operator (`condition_source_name`), and the
/// database's own name for it (`comparison_name`), both read (upper-cased)
/// as that operator, and different operators get different names.
pub proof fn lemma_condition_names_read_back(op: ComparisonOperator, other: ComparisonOperator)
    ensures
        comparison_of_upper(condition_source_name(op)) == Some(op),
        comparison_of_upper(comparison_name(op)) == Some(op),
        op != other ==> condition_source_name(op) != condition_source_name(other),
{
    reveal_strlit("LESS");
    reveal_strlit("EQUAL");
    reveal_strlit("GREATER");
    reveal_strlit("LESS_EQUAL");
    reveal_strlit("GREATER_EQUAL");
    reveal_strlit("LESS/EQUAL");
    reveal_strlit("GREATER/EQUAL");
    reveal_strlit("LESSEQUAL");
    reveal_strlit("GREATEREQUAL");
    reveal_strlit("DIFFERENT");
    assert("LESS"@.len() == 4 && "EQUAL"@.len() == 5 && "GREATER"@.len() == 7 && "DIFFERENT"@.len() == 9);
    assert("LESS_EQUAL"@.len() == 10 && "LESS/EQUAL"@.len() == 10 && "LESSEQUAL"@.len() == 9);
    assert("GREATER_EQUAL"@.len() == 13 && "GREATER/EQUAL"@.len() == 13 && "GREATEREQUAL"@.len() == 12);
    match op {
        ComparisonOperator::LessEqual => {
            assert("LESS_EQUAL"@ != "LESS/EQUAL"@) by {
                assert("LESS_EQUAL"@[4] != "LESS/EQUAL"@[4]);
            }
        },
        ComparisonOperator::GreaterEqual => {
            assert("GREATER_EQUAL"@ != "GREATER/EQUAL"@) by {
                assert("GREATER_EQUAL"@[7] != "GREATER/EQUAL"@[7]);
            }
            assert("GREATER/EQUAL"@ != "LESS/EQUAL"@);
            assert("GREATER_EQUAL"@ != "LESS_EQUAL"@);
        },
        ComparisonOperator::Different => {
            assert("DIFFERENT"@ != "LESSEQUAL"@) by {
                assert("DIFFERENT"@[0] != "LESSEQUAL"@[0]);
            }
        },
        _ => {},
    }
    if op != other {
        match (op, other) {
            (ComparisonOperator::LessEqual, ComparisonOperator::GreaterEqual) => {
                assert("GREATER_EQUAL"@ != "LESS_EQUAL"@);
            },
            (ComparisonOperator::GreaterEqual, ComparisonOperator::LessEqual) => {
                assert("GREATER_EQUAL"@ != "LESS_EQUAL"@);
            },
            _ => {},
        }
    }
}

/// The source name of a comparison operator (see `condition_source_name`).
fn condition_name(op: ComparisonOperator) -> (r: String)
    ensures
        r@ == condition_source_name(op),
{
    match op {
        ComparisonOperator::Less => string_from("LESS"),
        ComparisonOperator::Equal => string_from("EQUAL"),
        ComparisonOperator::Greater => string_from("GREATER"),
        ComparisonOperator::LessEqual => string_from("LESS_EQUAL"),
        ComparisonOperator::GreaterEqual => string_from("GREATER_EQUAL"),
        ComparisonOperator::Different => string_from("DIFFERENT"),
    }
}

/// A value argument as source: a comparison operator's name for a
/// `condition` parameter, hexadecimal from `0x4000` on, else decimal.
pub open spec fn value_source(v: i32, param: Option<Seq<char>>) -> Seq<char> {
    if param == Some("condition"@) && comparison_of_id(v as u8) is Some {
        condition_source_name(comparison_of_id(v as u8)->0)
    } else if v >= 0x4000 {
        "0x"@ + hex_padded(v as nat, 0)
    } else {
        int_to_decimal(v as int)
    }
}

/// Argument `k` of command `name` as source.
pub open spec fn arg_source(db: DatabaseV2, name: Seq<char>, k: int, a: Arg) -> Seq<char> {
    match a {
        Arg::Value(v) => value_source(v, param_name_of(db, name, k)),
        Arg::Pointer(t) => t@,
    }
}

/// The arguments of command `name` as source, joined by `, `.
pub open spec fn args_source(db: DatabaseV2, name: Seq<char>, args: Seq<Arg>) -> Seq<char>
    decreases args.len(),
{
    if args.len() == 0 {
        Seq::empty()
    } else if args.len() == 1 {
        arg_source(db, name, 0, args[0])
    } else {
        args_source(db, name, args.drop_last()) + ", "@ + arg_source(db, name, args.len() - 1, args.last())
    }
}

/// One line of a script: `label:` or an indented command with its arguments.
pub open spec fn script_op_source(db: DatabaseV2, op: IrOpcode) -> Seq<char> {
    match op {
        IrOpcode::Label(n) => n@ + ":\n"@,
        IrOpcode::Command { name, args } => "    "@ + name@ + (if args@.len() > 0 {
            " "@ + args_source(db, name@, args@)
        } else {
            Seq::empty()
        }) + "\n"@,
    }
}

/// The lines of a script's opcodes.
pub open spec fn script_ops_source(db: DatabaseV2, ops: Seq<IrOpcode>) -> Seq<char>
    decreases ops.len(),
{
    if ops.len() == 0 {
        Seq::empty()
    } else {
        script_ops_source(db, ops.drop_last()) + script_op_source(db, ops.last())
    }
}

/// A movement argument as source: decimal, or the label it names.
pub open spec fn plain_arg_source(a: Arg) -> Seq<char> {
    match a {
        Arg::Value(v) => int_to_decimal(v as int),
        Arg::Pointer(t) => t@,
    }
}

/// Movement arguments as source, joined by `, `.
pub open spec fn plain_args_source(args: Seq<Arg>) -> Seq<char>
    decreases args.len(),
{
    if args.len() == 0 {
        Seq::empty()
    } else if args.len() == 1 {
        plain_arg_source(args[0])
    } else {
        plain_args_source(args.drop_last()) + ", "@ + plain_arg_source(args.last())
    }
}

/// One line of an action.
pub open spec fn action_op_source(op: IrOpcode) -> Seq<char> {
    match op {
        IrOpcode::Label(n) => n@ + ":\n"@,
        IrOpcode::Command { name, args } => "    "@ + name@ + (if args@.len() > 0 {
            " "@ + plain_args_source(args@)
        } else {
            Seq::empty()
        }) + "\n"@,
    }
}

/// The lines of an action's movements.
pub open spec fn action_ops_source(ops: Seq<IrOpcode>) -> Seq<char>
    decreases ops.len(),
{
    if ops.len() == 0 {
        Seq::empty()
    } else {
        action_ops_source(ops.drop_last()) + action_op_source(ops.last())
    }
}

/// The one-based slots of the public headers that have an id.
pub open spec fn public_slot_ids(hs: Seq<FunctionHeader>) -> Seq<u32>
    decreases hs.len(),
{
    if hs.len() == 0 {
        Seq::empty()
    } else {
        let r = public_slot_ids(hs.drop_last());
        let h = hs.last();
        if h.is_public && h.id is Some {
            r.push((h.id->0 + 1) as u32)
        } else {
            r
        }
    }
}

/// The name of the first public header.
pub open spec fn first_public_name(hs: Seq<FunctionHeader>) -> Option<Seq<char>>
    decreases hs.len(),
{
    if hs.len() == 0 {
        None
    } else {
        match first_public_name(hs.drop_last()) {
            Some(n) => Some(n),
            None => if hs.last().is_public {
                Some(hs.last().name@)
            } else {
                None
            },
        }
    }
}

/// A `name:` line for each private header.
pub open spec fn private_header_lines(hs: Seq<FunctionHeader>) -> Seq<char>
    decreases hs.len(),
{
    if hs.len() == 0 {
        Seq::empty()
    } else {
        private_header_lines(hs.drop_last()) + if hs.last().is_public {
            Seq::empty()
        } else {
            hs.last().name@ + ":\n"@
        }
    }
}

/// A script as source: `script Name #slots:` when it has public slots, a
/// line for each private header, then its opcodes.
pub open spec fn function_source(db: DatabaseV2, f: IrFunction) -> Seq<char> {
    let ids = public_slot_ids(f.headers@);
    (if ids.len() > 0 {
        "script "@ + first_public_name(f.headers@)->0 + " "@ + spec_slot_list(ids) + ":\n"@
    } else {
        Seq::empty()
    }) + private_header_lines(f.headers@) + script_ops_source(db, f.instructions@)
}

/// An action as source.
pub open spec fn action_source(a: IrAction) -> Seq<char> {
    "action "@ + a.name@ + ":\n"@ + action_ops_source(a.instructions@)
}

/// An item as source.
pub open spec fn item_source(db: DatabaseV2, it: TopLevelItem) -> Seq<char> {
    match it {
        TopLevelItem::Function(f) => function_source(db, f),
        TopLevelItem::Action(a) => action_source(a),
    }
}

/// The items of a normal script as source, separated by blank lines.
pub open spec fn items_source(db: DatabaseV2, items: Seq<TopLevelItem>) -> Seq<char>
    decreases items.len(),
{
    if items.len() == 0 {
        Seq::empty()
    } else {
        items_source(db, items.drop_last()) + (if items.len() > 1 {
            "\n"@
        } else {
            Seq::empty()
        }) + item_source(db, items.last())
    }
}

/// Whether the header ids of `items` leave room for their one-based slots.
pub open spec fn slots_fit(items: Seq<TopLevelItem>) -> bool {
    forall|i: int, k: int|
        0 <= i < items.len() && items[i] is Function && 0 <= k < items[i]->Function_0.headers@.len()
            ==> ((#[trigger] items[i]->Function_0.headers@[k]).id is Some ==> items[i]->Function_0.headers@[k].id->0
            < u32::MAX)
}

/// A value argument as source: see `value_source`.
fn value_to_source(db: &DatabaseV2, name: &str, k: usize, v: i32) -> (r: String)
    ensures
        r@ == value_source(v, param_name_of(*db, name@, k as int)),
{
    let is_condition = match db.get_command(name) {
        Ok(cmd) => k < cmd.params.len() && str_eq(cmd.params[k].name.as_str(), "condition"),
        Err(_) => false,
    };
    proof {
        assert(is_condition == (param_name_of(*db, name@, k as int) == Some("condition"@)));
    }
    if is_condition {
        match ComparisonOperator::from_id(#[verifier::truncate] (v as u8)) {
            Some(c) => {
                return condition_name(c);
            },
            None => {},
        }
    }
    if v >= 0x4000 {
        let h = u64_to_hex_padded(v as u64, 0);
        proof {
            reveal_strlit("0x");
        }
        concat("0x", h.as_str())
    } else {
        i32_to_string(v)
    }
}

/// The arguments of command `name` as source: see `args_source`.
fn command_args_to_source(db: &DatabaseV2, name: &str, args: &Vec<Arg>) -> (r: String)
    ensures
        r@ == args_source(*db, name@, args@),
{
    let mut out = string_from("");
    let mut i: usize = 0;
    proof {
        reveal_strlit("");
        assert(args@.take(0) =~= Seq::<Arg>::empty());
    }
    while i < args.len()
        invariant
            i <= args@.len(),
            out@ == args_source(*db, name@, args@.take(i as int)),
        decreases args.len() - i,
    {
        let t = match &args[i] {
            Arg::Value(v) => value_to_source(db, name, i, *v),
            Arg::Pointer(p) => p.clone(),
        };
        proof {
            let pre = args@.take(i + 1);
            assert(pre.drop_last() =~= args@.take(i as int));
            assert(pre.last() == args@[i as int]);
            reveal_strlit(", ");
        }
        if i > 0 {
            out = concat(out.as_str(), ", ");
        }
        out = concat(out.as_str(), t.as_str());
        proof {
            if i == 0 {
                assert(Seq::<char>::empty() + t@ =~= t@);
            }
        }
        i = i + 1;
    }
    assert(args@.take(args@.len() as int) =~= args@);
    out
}

/// Movement arguments as source: see `plain_args_source`.
fn plain_args_to_source(args: &Vec<Arg>) -> (r: String)
    ensures
        r@ == plain_args_source(args@),
{
    let mut out = string_from("");
    let mut i: usize = 0;
    proof {
        reveal_strlit("");
        assert(args@.take(0) =~= Seq::<Arg>::empty());
    }
    while i < args.len()
        invariant
            i <= args@.len(),
            out@ == plain_args_source(args@.take(i as int)),
        decreases args.len() - i,
    {
        let t = match &args[i] {
            Arg::Value(v) => i32_to_string(*v),
            Arg::Pointer(p) => p.clone(),
        };
        proof {
            let pre = args@.take(i + 1);
            assert(pre.drop_last() =~= args@.take(i as int));
            assert(pre.last() == args@[i as int]);
            reveal_strlit(", ");
        }
        if i > 0 {
            out = concat(out.as_str(), ", ");
        }
        out = concat(out.as_str(), t.as_str());
        proof {
            if i == 0 {
                assert(Seq::<char>::empty() + t@ =~= t@);
            }
        }
        i = i + 1;
    }
    assert(args@.take(args@.len() as int) =~= args@);
    out
}

/// The line of one opcode: see `script_op_source` and `action_op_source`.
fn op_to_source(db: &DatabaseV2, op: &IrOpcode, in_action: bool) -> (r: String)
    ensures
        r@ == if in_action {
            action_op_source(*op)
        } else {
            script_op_source(*db, *op)
        },
{
    proof {
        reveal_strlit(":\n");
        reveal_strlit("    ");
        reveal_strlit(" ");
        reveal_strlit("\n");
    }
    match op {
        IrOpcode::Label(n) => concat(n.as_str(), ":\n"),
        IrOpcode::Command { name, args } => {
            let mut line = concat("    ", name.as_str());
            if args.len() > 0 {
                let a = if in_action {
                    plain_args_to_source(args)
                } else {
                    command_args_to_source(db, name.as_str(), args)
                };
                line = concat3(line.as_str(), " ", a.as_str());
            } else {
                assert(line@ + Seq::<char>::empty() =~= line@);
            }
            concat(line.as_str(), "\n")
        },
    }
}

/// The lines of a list of opcodes.
fn ops_to_source(db: &DatabaseV2, ops: &Vec<IrOpcode>, in_action: bool) -> (r: String)
    ensures
        r@ == if in_action {
            action_ops_source(ops@)
        } else {
            script_ops_source(*db, ops@)
        },
{
    let mut out = string_from("");
    let mut i: usize = 0;
    proof {
        reveal_strlit("");
        assert(ops@.take(0) =~= Seq::<IrOpcode>::empty());
    }
    while i < ops.len()
        invariant
            i <= ops@.len(),
            out@ == if in_action {
                action_ops_source(ops@.take(i as int))
            } else {
                script_ops_source(*db, ops@.take(i as int))
            },
        decreases ops.len() - i,
    {
        let line = op_to_source(db, &ops[i], in_action);
        proof {
            let pre = ops@.take(i + 1);
            assert(pre.drop_last() =~= ops@.take(i as int));
            assert(pre.last() == ops@[i as int]);
        }
        out = concat(out.as_str(), line.as_str());
        i = i + 1;
    }
    assert(ops@.take(ops@.len() as int) =~= ops@);
    out
}

/// A script as source: see `function_source`.
fn function_to_source(db: &DatabaseV2, f: &IrFunction) -> (r: String)
    requires
        forall|k: int| 0 <= k < f.headers@.len() ==> ((#[trigger] f.headers@[k]).id is Some ==> f.headers@[k].id->0 < u32::MAX),
    ensures
        r@ == function_source(*db, *f),
{
    let hs = &f.headers;
    let mut ids: Vec<u32> = Vec::new();
    let mut first: Option<String> = None;
    let mut private = string_from("");
    let mut k: usize = 0;
    proof {
        reveal_strlit("");
        assert(hs@.take(0) =~= Seq::<FunctionHeader>::empty());
    }
    while k < hs.len()
        invariant
            k <= hs@.len(),
            forall|m: int| 0 <= m < hs@.len() ==> ((#[trigger] hs@[m]).id is Some ==> hs@[m].id->0 < u32::MAX),
            ids@ == public_slot_ids(hs@.take(k as int)),
            first matches Some(n) ==> first_public_name(hs@.take(k as int)) == Some(n@),
            first is None ==> first_public_name(hs@.take(k as int)) is None,
            private@ == private_header_lines(hs@.take(k as int)),
        decreases hs.len() - k,
    {
        let h = &hs[k];
        proof {
            let pre = hs@.take(k + 1);
            assert(pre.drop_last() =~= hs@.take(k as int));
            assert(pre.last() == hs@[k as int]);
            reveal_strlit(":\n");
        }
        if h.is_public {
            match h.id {
                Some(id) => {
                    ids.push(id + 1);
                },
                None => {},
            }
            if first.is_none() {
                first = Some(h.name.clone());
            }
            assert(private@ + Seq::<char>::empty() =~= private@);
        } else {
            let line = concat(h.name.as_str(), ":\n");
            private = concat(private.as_str(), line.as_str());
        }
        k = k + 1;
    }
    assert(hs@.take(hs@.len() as int) =~= hs@);
    let body = ops_to_source(db, &f.instructions, false);
    let mut out = string_from("");
    if ids.len() > 0 {
        let name = match first {
            Some(n) => n,
            None => string_from(""),
        };
        proof {
            reveal_strlit("script ");
            reveal_strlit(" ");
            reveal_strlit(":\n");
            assert(public_slot_ids(hs@).len() > 0 ==> first_public_name(hs@) is Some) by {
                lemma_public_has_name(hs@);
            }
        }
        let slots = format_slot_list(ids.as_slice());
        let a = concat3("script ", name.as_str(), " ");
        out = concat3(a.as_str(), slots.as_str(), ":\n");
    }
    let out = concat3(out.as_str(), private.as_str(), body.as_str());
    proof {
        if ids.len() == 0 {
            reveal_strlit("");
        }
    }
    out
}

proof fn lemma_public_has_name(hs: Seq<FunctionHeader>)
    ensures
        public_slot_ids(hs).len() > 0 ==> first_public_name(hs) is Some,
    decreases hs.len(),
{
    if hs.len() > 0 {
        lemma_public_has_name(hs.drop_last());
    }
}

/// An action as source: see `action_source`.
fn action_to_source(db: &DatabaseV2, a: &IrAction) -> (r: String)
    ensures
        r@ == action_source(*a),
{
    let body = ops_to_source(db, &a.instructions, true);
    proof {
        reveal_strlit("action ");
        reveal_strlit(":\n");
    }
    let head = concat3("action ", a.name.as_str(), ":\n");
    concat(head.as_str(), body.as_str())
}

/// Renders the items of a disassembled normal script as Rotoscript source:
/// see `items_source`. Command arguments are written without constant
/// names; a `condition` argument is written as its comparison operator.
pub fn normal_script_to_source(items: &[TopLevelItem], db: &DatabaseV2) -> (r: String)
    requires
        slots_fit(items@),
    ensures
        r@ == items_source(*db, items@),
{
    let mut out = string_from("");
    let mut i: usize = 0;
    proof {
        reveal_strlit("");
        assert(items@.take(0) =~= Seq::<TopLevelItem>::empty());
    }
    while i < items.len()
        invariant
            i <= items@.len(),
            slots_fit(items@),
            out@ == items_source(*db, items@.take(i as int)),
        decreases items.len() - i,
    {
        let text = match &items[i] {
            TopLevelItem::Function(f) => {
                proof {
                    assert forall|k: int| 0 <= k < f.headers@.len() implies ((#[trigger] f.headers@[k]).id is Some
                        ==> f.headers@[k].id->0 < u32::MAX) by {
                        assert(items@[i as int]->Function_0.headers@[k] == f.headers@[k]);
                    }
                }
                function_to_source(db, f)
            },
            TopLevelItem::Action(a) => action_to_source(db, a),
        };
        proof {
            let pre = items@.take(i + 1);
            assert(pre.drop_last() =~= items@.take(i as int));
            assert(pre.last() == items@[i as int]);
            reveal_strlit("\n");
        }
        if i > 0 {
            out = concat(out.as_str(), "\n");
        } else {
            assert(out@ + Seq::<char>::empty() =~= out@);
        }
        out = concat(out.as_str(), text.as_str());
        i = i + 1;
    }
    assert(items@.take(items@.len() as int) =~= items@);
    out
}

} // verus!

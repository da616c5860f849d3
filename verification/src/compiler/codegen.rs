//! The code generator: turns IR into the binary script format.
//!
//! A script file starts with a jump table of little-endian `i32` offsets
//! (each relative to the end of its own entry), closed by `0xFD13` markers,
//! followed by the scripts' commands and the 4-byte aligned movement
//! actions. References to labels are emitted as zero placeholders and
//! patched once every label's offset is known.

use vstd::prelude::*;

use super::diagnostic::error::{codegen_error, CompileError, ParseResult};
use super::ast::FunctionHeader;
use super::ir::{header_slots, Arg, IrAction, IrFunction, IrOpcode, TopLevelItem};
use crate::database::{
    command_missing_message, index_of_mode, param_size, variant_matches_mode, Command, CommandType, DatabaseV2,
    ParamDef, ParamType, Variant,
};
use crate::decompiler::levelscript::{align_pad, le16, le32, push_le16, push_le32, zeros};
use crate::text::{concat, concat3, i32_to_string, i64_to_string, int_to_decimal, str_eq, string_from, usize_to_string};

verus! {

/// The bytes that close the jump table.
pub const JUMP_TABLE_END_MARKER: [u8; 2] = [0x13, 0xFD];

/// A placeholder to patch with the offset of `target`.
struct Relocation {
    offset: usize,
    target: String,
}

/// Encodes a parameter value of type `t`; `None` when it does not fit.
/// Two-byte values may be written signed or unsigned; `U32` values may be
/// negative (their two's complement is written).
pub open spec fn encode_value(t: ParamType, v: i32) -> Option<Seq<u8>> {
    let size = param_size(t);
    if size == 1 {
        if 0 <= v <= 255 {
            Some(seq![v as u8])
        } else {
            None
        }
    } else if size == 2 {
        if -32768 <= v <= 65535 {
            Some(le16(v as u16))
        } else {
            None
        }
    } else if t == ParamType::U32 || v >= 0 {
        Some(le32(v as u32))
    } else {
        None
    }
}

/// The bytes of one argument for parameter `p`. A `relative_jump`
/// parameter takes a label (a four-byte placeholder, patched later) or a
/// raw value; any other parameter takes a value.
pub open spec fn param_bytes(p: ParamDef, a: Arg) -> Option<Seq<u8>> {
    if p.name@ == "relative_jump"@ {
        match a {
            Arg::Pointer(_) => Some(zeros(4)),
            Arg::Value(v) => Some(le32(v as u32)),
        }
    } else {
        match a {
            Arg::Value(v) => encode_value(p.param_type, v),
            Arg::Pointer(_) => None,
        }
    }
}

/// The bytes of the arguments of a command with parameters `ps`, or `None`
/// when an argument is missing, of the wrong kind, or out of range.
pub open spec fn params_bytes(ps: Seq<ParamDef>, args: Seq<Arg>) -> Option<Seq<u8>>
    decreases ps.len(),
{
    if ps.len() == 0 {
        Some(Seq::empty())
    } else {
        match params_bytes(ps.drop_last(), args) {
            None => None,
            Some(b) => if ps.len() - 1 < args.len() {
                match param_bytes(ps.last(), args[ps.len() - 1]) {
                    Some(x) => Some(b + x),
                    None => None,
                }
            } else {
                None
            },
        }
    }
}

/// The references among the arguments of a command whose argument bytes
/// start at offset `at`: where the placeholder of each label argument of a
/// `relative_jump` parameter is, and the label's name.
pub open spec fn params_relocs(ps: Seq<ParamDef>, args: Seq<Arg>, at: int) -> Seq<(usize, Seq<char>)>
    decreases ps.len(),
{
    if ps.len() == 0 {
        Seq::empty()
    } else {
        let prev = params_relocs(ps.drop_last(), args, at);
        let i = ps.len() - 1;
        if i < args.len() && ps.last().name@ == "relative_jump"@ && args[i] is Pointer {
            prev.push(((at + params_bytes(ps.drop_last(), args)->0.len()) as usize, args[i]->Pointer_0@))
        } else {
            prev
        }
    }
}

/// The first variant whose first parameter is the constant `mode` is the
/// one `index_of_mode` finds.
proof fn lemma_index_of_mode_first(vs: Seq<Variant>, mode: u8, k: int)
    requires
        0 <= k < vs.len(),
        variant_matches_mode(vs[k], mode),
        forall|j: int| 0 <= j < k ==> !variant_matches_mode(#[trigger] vs[j], mode),
    ensures
        index_of_mode(vs, mode) == Some(k),
    decreases vs.len(),
{
    if k < vs.len() - 1 {
        lemma_index_of_mode_first(vs.drop_last(), mode, k);
    } else {
        lemma_index_of_mode_none(vs.drop_last(), mode);
    }
}

/// Where no variant's first parameter is the constant `mode`, none is found.
proof fn lemma_index_of_mode_none(vs: Seq<Variant>, mode: u8)
    requires
        forall|j: int| 0 <= j < vs.len() ==> !variant_matches_mode(#[trigger] vs[j], mode),
    ensures
        index_of_mode(vs, mode) is None,
    decreases vs.len(),
{
    if vs.len() > 0 {
        lemma_index_of_mode_none(vs.drop_last(), mode);
    }
}

/// A command call is encoded with the parameters of the variant its mode
/// selects: when the first argument is a byte value `m`, and variant `k` is
/// the first whose first parameter is the constant `m`, the call's operands
/// follow variant `k`'s parameters.
pub proof fn lemma_chosen_params_by_mode(cmd: Command, args: Seq<Arg>, m: u8, k: int)
    requires
        args.len() > 0,
        args[0] == Arg::Value(m as i32),
        cmd.variants is Some,
        0 <= k < cmd.variants->0@.len(),
        variant_matches_mode(cmd.variants->0@[k], m),
        forall|j: int| 0 <= j < k ==> !variant_matches_mode(#[trigger] cmd.variants->0@[j], m),
    ensures
        chosen_params(cmd, args) == cmd.variants->0@[k].params@,
{
    lemma_index_of_mode_first(cmd.variants->0@, m, k);
    assert(args[0]->Value_0 as u8 == m);
}

/// Without a selecting mode the base parameters are used: when the first
/// argument is not a byte value, or no variant's first parameter is that
/// constant, a call's operands follow the command's own parameters.
pub proof fn lemma_chosen_params_base(cmd: Command, args: Seq<Arg>)
    requires
        args.len() > 0 && args[0] is Value && 0 <= args[0]->Value_0 <= 255 && cmd.variants is Some ==> forall|
            j: int,
        |
            0 <= j < cmd.variants->0@.len() ==> !variant_matches_mode(
                #[trigger] cmd.variants->0@[j],
                args[0]->Value_0 as u8,
            ),
    ensures
        chosen_params(cmd, args) == cmd.params@,
{
    if args.len() > 0 && args[0] is Value && 0 <= args[0]->Value_0 <= 255 && cmd.variants is Some {
        lemma_index_of_mode_none(cmd.variants->0@, args[0]->Value_0 as u8);
    }
}

/// The parameter list a command call is encoded with: the variant selected
/// by a first argument that is a byte value, else the base parameters.
pub open spec fn chosen_params(cmd: Command, args: Seq<Arg>) -> Seq<ParamDef> {
    if args.len() > 0 && args[0] is Value && 0 <= args[0]->Value_0 <= 255 {
        match cmd.variants {
            Some(vs) => match index_of_mode(vs@, args[0]->Value_0 as u8) {
                Some(k) => vs@[k].params@,
                None => cmd.params@,
            },
            None => cmd.params@,
        }
    } else {
        cmd.params@
    }
}

/// The 16-bit parameter of a movement, or `None` when it is not a value
/// that fits. Without arguments it is 1, or 0 for `EndMovement`.
pub open spec fn movement_param(name: Seq<char>, args: Seq<Arg>) -> Option<u16> {
    if args.len() > 0 {
        match args[0] {
            Arg::Value(v) => if -32768 <= v <= 65535 {
                Some(v as u16)
            } else {
                None
            },
            Arg::Pointer(_) => None,
        }
    } else if name == "EndMovement"@ {
        Some(0)
    } else {
        Some(1)
    }
}

/// The offset a name-to-offset table gives `name` (its first entry).
pub open spec fn offset_of(m: Seq<(String, usize)>, name: Seq<char>) -> Option<usize>
    decreases m.len(),
{
    if m.len() == 0 {
        None
    } else {
        match offset_of(m.drop_last(), name) {
            Some(o) => Some(o),
            None => if m.last().0@ == name {
                Some(m.last().1)
            } else {
                None
            },
        }
    }
}

proof fn lemma_offset_of_index(m: Seq<(String, usize)>, name: Seq<char>)
    ensures
        offset_of(m, name) is None ==> forall|i: int| 0 <= i < m.len() ==> (#[trigger] m[i]).0@
            != name,
        offset_of(m, name) is Some ==> exists|i: int|
            0 <= i < m.len() && (#[trigger] m[i]).0@ == name && m[i].1 == offset_of(m, name)->0
                && forall|j: int| 0 <= j < i ==> (#[trigger] m[j]).0@ != name,
    decreases m.len(),
{
    if m.len() > 0 {
        lemma_offset_of_index(m.drop_last(), name);
        if offset_of(m.drop_last(), name) is Some {
            let i = choose|i: int|
                0 <= i < m.drop_last().len() && (#[trigger] m.drop_last()[i]).0@ == name
                    && m.drop_last()[i].1 == offset_of(m.drop_last(), name)->0 && forall|j: int|
                    0 <= j < i ==> (#[trigger] m.drop_last()[j]).0@ != name;
            assert(m[i] == m.drop_last()[i]);
            assert forall|j: int| 0 <= j < i implies (#[trigger] m[j]).0@ != name by {
                assert(m[j] == m.drop_last()[j]);
            }
        } else {
            assert forall|i: int| 0 <= i < m.len() - 1 implies (#[trigger] m[i]).0@ != name by {
                assert(m[i] == m.drop_last()[i]);
            }
        }
    }
}

/// Sets the offset of `name` in a name-to-offset table.
fn set_offset(m: &mut Vec<(String, usize)>, name: String, offset: usize)
    ensures
        forall|k: Seq<char>|
            #[trigger] offset_of(final(m)@, k) == if k == name@ {
                Some(offset)
            } else {
                offset_of(old(m)@, k)
            },
{
    let ghost old_m = m@;
    let ghost n = name@;
    proof {
        lemma_offset_of_index(old_m, name@);
    }
    let mut i: usize = 0;
    let mut found = false;
    while i < m.len()
        invariant
            i <= m@.len(),
            m@ == old_m,
            forall|j: int| 0 <= j < i ==> (#[trigger] m@[j]).0@ != name@,
            found ==> i < m@.len() && m@[i as int].0@ == name@,
        ensures
            found ==> i < m@.len() && m@[i as int].0@ == name@,
            !found ==> i == m@.len(),
        decreases m.len() - i,
    {
        if str_eq(m[i].0.as_str(), name.as_str()) {
            found = true;
            break;
        }
        i = i + 1;
    }
    if found {
        m.set(i, (name, offset));
        assert forall|k: Seq<char>| #[trigger]
            offset_of(m@, k) == if k == n {
                Some(offset)
            } else {
                offset_of(old_m, k)
            } by {
            assert(m@ =~= old_m.update(i as int, m@[i as int]));
            lemma_offset_update(old_m, i as int, m@[i as int], k);
        }
    } else {
        m.push((name, offset));
        assert(m@.drop_last() =~= old_m);
        assert forall|k: Seq<char>| #[trigger]
            offset_of(m@, k) == if k == n {
                Some(offset)
            } else {
                offset_of(old_m, k)
            } by {
            if k == n {
                lemma_offset_of_index(old_m, k);
            }
        }
    }
}

proof fn lemma_offset_update(m: Seq<(String, usize)>, i: int, e: (String, usize), k: Seq<char>)
    requires
        0 <= i < m.len(),
        e.0@ == m[i].0@,
        forall|j: int| 0 <= j < i ==> (#[trigger] m[j]).0@ != e.0@,
    ensures
        offset_of(m.update(i, e), k) == if k == e.0@ {
            Some(e.1)
        } else {
            offset_of(m, k)
        },
    decreases m.len(),
{
    if i == m.len() - 1 {
        assert(m.update(i, e).drop_last() =~= m.drop_last());
        lemma_offset_of_index(m.drop_last(), k);
        if k == e.0@ {
            assert forall|j: int| 0 <= j < m.drop_last().len() implies (#[trigger] m.drop_last()[j]).0@
                != k by {
                assert(m.drop_last()[j] == m[j]);
            }
        }
    } else {
        assert(m.update(i, e).drop_last() =~= m.drop_last().update(i, e));
        assert forall|j: int| 0 <= j < i implies (#[trigger] m.drop_last()[j]).0@ != e.0@ by {
            assert(m.drop_last()[j] == m[j]);
        }
        lemma_offset_update(m.drop_last(), i, e, k);
    }
}

/// The code generator state.
pub struct Emitter<'a> {
    db: &'a DatabaseV2,
    output: Vec<u8>,
    pc: usize,
    function_offsets: Vec<(String, usize)>,
    label_offsets: Vec<(String, usize)>,
    action_offsets: Vec<(String, usize)>,
    jump_table_slots: Vec<(u32, String)>,
    relocations: Vec<Relocation>,
}


/// If the arguments of the first `i` parameters encode but parameter `i`
/// cannot be encoded, the whole list cannot.
proof fn lemma_params_bytes_fail(ps: Seq<ParamDef>, args: Seq<Arg>, i: int)
    requires
        0 <= i < ps.len(),
        params_bytes(ps.take(i), args) is Some,
        i >= args.len() || param_bytes(ps[i], args[i]) is None,
    ensures
        params_bytes(ps, args) is None,
    decreases ps.len(),
{
    if i == ps.len() - 1 {
        assert(ps.drop_last() =~= ps.take(i));
    } else {
        assert(ps.drop_last().take(i) =~= ps.take(i));
        lemma_params_bytes_fail(ps.drop_last(), args, i);
    }
}

/// The patches `b` holds extend those of `a`, and the new ones lie at or
/// after offset `from`.
pub open spec fn relocs_extend(a: Seq<(usize, Seq<char>)>, b: Seq<(usize, Seq<char>)>, from: usize) -> bool {
    &&& a.len() <= b.len()
    &&& b.take(a.len() as int) == a
    &&& forall|k: int| a.len() <= k < b.len() ==> (#[trigger] b[k]).0 >= from
}

proof fn lemma_relocs_extend_refl(a: Seq<(usize, Seq<char>)>, from: usize)
    ensures
        relocs_extend(a, a, from),
{
    assert(a.take(a.len() as int) =~= a);
}

proof fn lemma_relocs_extend_push(
    a: Seq<(usize, Seq<char>)>,
    b: Seq<(usize, Seq<char>)>,
    x: (usize, Seq<char>),
    from: usize,
)
    requires
        relocs_extend(a, b, from),
        x.0 >= from,
    ensures
        relocs_extend(a, b.push(x), from),
{
    assert(b.push(x).take(a.len() as int) =~= b.take(a.len() as int));
    assert forall|k: int| a.len() <= k < b.push(x).len() implies (#[trigger] b.push(x)[k]).0 >= from by {
        if k < b.len() {
            assert(b.push(x)[k] == b[k]);
        }
    }
}

proof fn lemma_relocs_extend_trans(
    a: Seq<(usize, Seq<char>)>,
    b: Seq<(usize, Seq<char>)>,
    c: Seq<(usize, Seq<char>)>,
    f: usize,
    g: usize,
)
    requires
        relocs_extend(a, b, f),
        relocs_extend(b, c, g),
        f <= g,
    ensures
        relocs_extend(a, c, f),
{
    assert(c.take(a.len() as int) =~= c.take(b.len() as int).take(a.len() as int));
    assert forall|k: int| a.len() <= k < c.len() implies (#[trigger] c[k]).0 >= f by {
        if k < b.len() {
            assert(c[k] == c.take(b.len() as int)[k]);
            assert(b[k].0 >= f);
        }
    }
}

proof fn lemma_take_prefix(a: Seq<u8>, b: Seq<u8>, n: int)
    requires
        0 <= n <= a.len() <= b.len(),
        b.take(a.len() as int) == a,
    ensures
        b.take(n) == a.take(n),
{
    assert(b.take(n) =~= b.take(a.len() as int).take(n));
}

/// The offset a reference to `name` resolves to in these tables of labels,
/// scripts and actions.
pub open spec fn old_view_resolved(
    lo: Seq<(String, usize)>,
    fo: Seq<(String, usize)>,
    ao: Seq<(String, usize)>,
    name: Seq<char>,
) -> Option<usize> {
    match offset_of(lo, name) {
        Some(o) => Some(o),
        None => match offset_of(fo, name) {
            Some(o) => Some(o),
            None => offset_of(ao, name),
        },
    }
}

/// The word a reference at `at` to offset `target` is patched with: the
/// distance from the end of the reference, as a 32-bit two's complement.
pub open spec fn rel_word(target: int, at: int) -> u32 {
    ((target - at - 4) as i32) as u32
}

/// Whether a script opcode encodes: a label, or a command the database
/// knows, with an opcode, whose arguments encode for its parameters.
pub open spec fn script_op_encodes(db: DatabaseV2, op: IrOpcode) -> bool {
    match op {
        IrOpcode::Label(_) => true,
        IrOpcode::Command { name, args } => match db.command_lookup(name@) {
            None => false,
            Some(i) => db.commands@[i].1.id is Some && params_bytes(
                chosen_params(db.commands@[i].1, args@),
                args@,
            ) is Some,
        },
    }
}

/// Whether a movement of an action encodes: a label, or a movement the
/// database knows, with an opcode, whose parameter fits.
pub open spec fn movement_op_encodes(db: DatabaseV2, op: IrOpcode) -> bool {
    match op {
        IrOpcode::Label(_) => true,
        IrOpcode::Command { name, args } => match db.movement_lookup(name@) {
            None => false,
            Some(i) => db.commands@[i].1.id is Some && movement_param(name@, args@) is Some,
        },
    }
}

/// Whether every opcode of an item encodes.
pub open spec fn item_encodes(db: DatabaseV2, item: TopLevelItem) -> bool {
    match item {
        TopLevelItem::Function(f) => forall|j: int|
            0 <= j < f.instructions@.len() ==> script_op_encodes(db, #[trigger] f.instructions@[j]),
        TopLevelItem::Action(a) => forall|j: int|
            0 <= j < a.instructions@.len() ==> movement_op_encodes(db, #[trigger] a.instructions@[j]),
    }
}

/// Whether every command of an item names an entry of the database: a
/// command for a script, a movement for an action.
pub open spec fn item_resolves(db: DatabaseV2, item: TopLevelItem) -> bool {
    match item {
        TopLevelItem::Function(f) => forall|j: int|
            0 <= j < f.instructions@.len() ==> (#[trigger] f.instructions@[j] matches IrOpcode::Command { name, .. }
                ==> db.command_lookup(name@) is Some),
        TopLevelItem::Action(a) => forall|j: int|
            0 <= j < a.instructions@.len() ==> (#[trigger] a.instructions@[j] matches IrOpcode::Command { name, .. }
                ==> db.movement_lookup(name@) is Some),
    }
}

/// Whether an error is one of code generation or of the database.
pub open spec fn emit_error(e: CompileError) -> bool {
    e is Codegen || e is Database
}

/// An item with an opcode that does not encode does not encode.
proof fn lemma_item_fails_at(db: DatabaseV2, item: TopLevelItem, j: int)
    requires
        match item {
            TopLevelItem::Function(f) => 0 <= j < f.instructions@.len() && !script_op_encodes(db, f.instructions@[j]),
            TopLevelItem::Action(a) => 0 <= j < a.instructions@.len() && !movement_op_encodes(db, a.instructions@[j]),
        },
    ensures
        !item_encodes(db, item),
{
}

/// The bytes a script opcode that encodes is emitted as: nothing for a
/// label; the opcode and the encoded arguments for a command (a label
/// argument of a `relative_jump` parameter as a zero placeholder).
pub open spec fn script_op_bytes(db: DatabaseV2, op: IrOpcode) -> Seq<u8> {
    match op {
        IrOpcode::Label(_) => Seq::empty(),
        IrOpcode::Command { name, args } => {
            let cmd = db.commands@[db.command_lookup(name@)->0].1;
            le16(cmd.id->0) + params_bytes(chosen_params(cmd, args@), args@)->0
        },
    }
}

/// The bytes a movement that encodes is emitted as: nothing for a label;
/// the opcode and the parameter, two bytes each, for a movement.
pub open spec fn movement_op_bytes(db: DatabaseV2, op: IrOpcode) -> Seq<u8> {
    match op {
        IrOpcode::Label(_) => Seq::empty(),
        IrOpcode::Command { name, args } => {
            let cmd = db.commands@[db.movement_lookup(name@)->0].1;
            le16(cmd.id->0) + le16(movement_param(name@, args@)->0)
        },
    }
}

/// The bytes of a sequence of script opcodes or of movements.
pub open spec fn ops_image(db: DatabaseV2, ops: Seq<IrOpcode>, movements: bool) -> Seq<u8>
    decreases ops.len(),
{
    if ops.len() == 0 {
        Seq::empty()
    } else {
        ops_image(db, ops.drop_last(), movements) + if movements {
            movement_op_bytes(db, ops.last())
        } else {
            script_op_bytes(db, ops.last())
        }
    }
}

/// The bytes of the scripts and actions, emitted from offset `base` on:
/// each script's opcodes, and each action's movements after zero padding
/// to a multiple of four. Placeholders of references are zero.
pub open spec fn body_image(db: DatabaseV2, items: Seq<TopLevelItem>, base: int) -> Seq<u8>
    decreases items.len(),
{
    if items.len() == 0 {
        Seq::empty()
    } else {
        let prev = body_image(db, items.drop_last(), base);
        prev + match items.last() {
            TopLevelItem::Function(f) => ops_image(db, f.instructions@, false),
            TopLevelItem::Action(a) => zeros(align_pad((base + prev.len()) as nat)) + ops_image(
                db,
                a.instructions@,
                true,
            ),
        }
    }
}

/// The offset a sequence of `(name, offset)` settings gives `name`: its
/// last setting.
pub open spec fn last_setting(entries: Seq<(Seq<char>, int)>, name: Seq<char>) -> Option<int>
    decreases entries.len(),
{
    if entries.len() == 0 {
        None
    } else if entries.last().0 == name {
        Some(entries.last().1)
    } else {
        last_setting(entries.drop_last(), name)
    }
}

/// An optional offset, as an integer.
pub open spec fn opt_int(o: Option<usize>) -> Option<int> {
    match o {
        Some(v) => Some(v as int),
        None => None,
    }
}

/// A setting if there is one, else what an earlier table held.
pub open spec fn setting_or(s: Option<int>, earlier: Option<usize>) -> Option<int> {
    match s {
        Some(o) => Some(o),
        None => opt_int(earlier),
    }
}

/// The references of a script opcode that encodes, emitted at offset `at`.
pub open spec fn script_op_relocs(db: DatabaseV2, op: IrOpcode, at: int) -> Seq<(usize, Seq<char>)> {
    match op {
        IrOpcode::Label(_) => Seq::empty(),
        IrOpcode::Command { name, args } => {
            let cmd = db.commands@[db.command_lookup(name@)->0].1;
            params_relocs(chosen_params(cmd, args@), args@, at + 2)
        },
    }
}

/// The references of script opcodes emitted from offset `at`.
pub open spec fn ops_relocs(db: DatabaseV2, ops: Seq<IrOpcode>, at: int) -> Seq<(usize, Seq<char>)>
    decreases ops.len(),
{
    if ops.len() == 0 {
        Seq::empty()
    } else {
        ops_relocs(db, ops.drop_last(), at) + script_op_relocs(
            db,
            ops.last(),
            at + ops_image(db, ops.drop_last(), false).len(),
        )
    }
}

/// The label settings of opcodes emitted from offset `at`: each label is
/// set to the offset of the opcode after it.
pub open spec fn ops_labels(db: DatabaseV2, ops: Seq<IrOpcode>, movements: bool, at: int) -> Seq<
    (Seq<char>, int),
>
    decreases ops.len(),
{
    if ops.len() == 0 {
        Seq::empty()
    } else {
        let prev = ops_labels(db, ops.drop_last(), movements, at);
        match ops.last() {
            IrOpcode::Label(n) => prev.push((n@, at + ops_image(db, ops.drop_last(), movements).len())),
            IrOpcode::Command { .. } => prev,
        }
    }
}

/// Where the item after `items` starts when they are emitted from `base`,
/// and where its code starts (after alignment, for an action).
pub open spec fn item_code_start(db: DatabaseV2, items: Seq<TopLevelItem>, base: int, next: TopLevelItem) -> int {
    let here = base + body_image(db, items, base).len();
    match next {
        TopLevelItem::Function(_) => here,
        TopLevelItem::Action(_) => here + align_pad(here as nat),
    }
}

/// The references of the items emitted from `base` (movements have none).
pub open spec fn body_relocs(db: DatabaseV2, items: Seq<TopLevelItem>, base: int) -> Seq<(usize, Seq<char>)>
    decreases items.len(),
{
    if items.len() == 0 {
        Seq::empty()
    } else {
        let at = item_code_start(db, items.drop_last(), base, items.last());
        body_relocs(db, items.drop_last(), base) + match items.last() {
            TopLevelItem::Function(f) => ops_relocs(db, f.instructions@, at),
            TopLevelItem::Action(_) => Seq::empty(),
        }
    }
}

/// The label settings of the items emitted from `base`.
pub open spec fn body_labels(db: DatabaseV2, items: Seq<TopLevelItem>, base: int) -> Seq<(Seq<char>, int)>
    decreases items.len(),
{
    if items.len() == 0 {
        Seq::empty()
    } else {
        let at = item_code_start(db, items.drop_last(), base, items.last());
        body_labels(db, items.drop_last(), base) + match items.last() {
            TopLevelItem::Function(f) => ops_labels(db, f.instructions@, false, at),
            TopLevelItem::Action(a) => ops_labels(db, a.instructions@, true, at),
        }
    }
}

/// The script settings of the items emitted from `base`: each header name
/// of a script is set to where the script's code starts.
pub open spec fn body_functions(db: DatabaseV2, items: Seq<TopLevelItem>, base: int) -> Seq<(Seq<char>, int)>
    decreases items.len(),
{
    if items.len() == 0 {
        Seq::empty()
    } else {
        let at = item_code_start(db, items.drop_last(), base, items.last());
        body_functions(db, items.drop_last(), base) + match items.last() {
            TopLevelItem::Function(f) => header_settings(f.headers@, at),
            TopLevelItem::Action(_) => Seq::empty(),
        }
    }
}

/// The action settings of the items emitted from `base`: each action's
/// name is set to where its (aligned) movements start.
pub open spec fn body_actions(db: DatabaseV2, items: Seq<TopLevelItem>, base: int) -> Seq<(Seq<char>, int)>
    decreases items.len(),
{
    if items.len() == 0 {
        Seq::empty()
    } else {
        let at = item_code_start(db, items.drop_last(), base, items.last());
        body_actions(db, items.drop_last(), base) + match items.last() {
            TopLevelItem::Function(_) => Seq::empty(),
            TopLevelItem::Action(a) => seq![(a.name@, at)],
        }
    }
}

/// The settings of a script's header names, all to `at`.
pub open spec fn header_settings(hs: Seq<FunctionHeader>, at: int) -> Seq<(Seq<char>, int)> {
    hs.map_values(|hd: FunctionHeader| (hd.name@, at))
}

proof fn lemma_header_settings_step(hs: Seq<FunctionHeader>, at: int, h: int)
    requires
        0 <= h < hs.len(),
    ensures
        header_settings(hs.take(h + 1), at) == header_settings(hs.take(h), at).push((hs[h].name@, at)),
{
    assert(header_settings(hs.take(h + 1), at) =~= header_settings(hs.take(h), at).push((hs[h].name@, at)));
}

/// A setting added last decides its name.
proof fn lemma_last_setting_push(s: Seq<(Seq<char>, int)>, e: (Seq<char>, int), name: Seq<char>)
    ensures
        last_setting(s.push(e), name) == if e.0 == name {
            Some(e.1)
        } else {
            last_setting(s, name)
        },
{
    assert(s.push(e).drop_last() =~= s);
}

/// The first of three optional offsets that is present.
pub open spec fn first_offset(a: Option<int>, b: Option<int>, c: Option<int>) -> Option<int> {
    match a {
        Some(o) => Some(o),
        None => match b {
            Some(o) => Some(o),
            None => c,
        },
    }
}

/// The last setting of `name` in `a` followed by `b`.
proof fn lemma_last_setting_append(a: Seq<(Seq<char>, int)>, b: Seq<(Seq<char>, int)>, name: Seq<char>)
    ensures
        last_setting(a + b, name) == match last_setting(b, name) {
            Some(o) => Some(o),
            None => last_setting(a, name),
        },
    decreases b.len(),
{
    if b.len() == 0 {
        assert(a + b =~= a);
    } else {
        assert((a + b).drop_last() =~= a + b.drop_last());
        lemma_last_setting_append(a, b.drop_last(), name);
    }
}

/// An upper bound on the bytes the opcodes of a script or action emit.
pub open spec fn ops_bound(ops: Seq<IrOpcode>) -> nat
    decreases ops.len(),
{
    if ops.len() == 0 {
        0
    } else {
        ops_bound(ops.drop_last()) + match ops.last() {
            IrOpcode::Command { args, .. } => 4 + 4 * args@.len(),
            IrOpcode::Label(_) => 4,
        }
    }
}

impl<'a> Emitter<'a> {
    /// The bytes emitted so far.
    pub closed spec fn bytes(&self) -> Seq<u8> {
        self.output@
    }

    /// The program counter: the offset of the next byte.
    pub closed spec fn counter(&self) -> usize {
        self.pc
    }

    /// The database commands are looked up in.
    pub closed spec fn database(&self) -> &'a DatabaseV2 {
        self.db
    }

    /// The program counter matches the output, every pending patch lies
    /// within it, and the patches are in order and do not overlap.
    pub closed spec fn wf(&self) -> bool {
        &&& self.pc == self.output@.len()
        &&& forall|k: int|
            0 <= k < self.relocations@.len() ==> (#[trigger] self.relocations@[k]).offset + 4
                <= self.output@.len()
        &&& forall|i: int, j: int|
            0 <= i < j < self.relocations@.len() ==> (#[trigger] self.relocations@[i]).offset + 4
                <= (#[trigger] self.relocations@[j]).offset
    }

    /// The pending patches: where each four-byte placeholder is, and the
    /// name whose offset goes there.
    pub closed spec fn relocs(&self) -> Seq<(usize, Seq<char>)> {
        self.relocations@.map_values(|r: Relocation| (r.offset, r.target@))
    }

    /// The offset recorded for the label `name`.
    pub closed spec fn label_offset(&self, name: Seq<char>) -> Option<usize> {
        offset_of(self.label_offsets@, name)
    }

    /// The offset recorded for the script `name`.
    pub closed spec fn function_offset(&self, name: Seq<char>) -> Option<usize> {
        offset_of(self.function_offsets@, name)
    }

    /// The offset recorded for the action `name`.
    pub closed spec fn action_offset(&self, name: Seq<char>) -> Option<usize> {
        offset_of(self.action_offsets@, name)
    }

    /// The offset a reference to `name` is patched with: that of a label of
    /// that name, else of a script, else of an action.
    pub closed spec fn resolved_offset(&self, name: Seq<char>) -> Option<usize> {
        match offset_of(self.label_offsets@, name) {
            Some(o) => Some(o),
            None => match offset_of(self.function_offsets@, name) {
                Some(o) => Some(o),
                None => offset_of(self.action_offsets@, name),
            },
        }
    }

    /// A fresh emitter over `db`.
    pub fn new(db: &'a DatabaseV2) -> (r: Emitter<'a>)
        ensures
            r.wf(),
            r.bytes() == Seq::<u8>::empty(),
            r.counter() == 0,
            r.database() == db,
            forall|k: Seq<char>| #[trigger] r.resolved_offset(k) is None,
            forall|k: Seq<char>| #[trigger] r.label_offset(k) is None,
            forall|k: Seq<char>| #[trigger] r.function_offset(k) is None,
            forall|k: Seq<char>| #[trigger] r.action_offset(k) is None,
            r.relocs().len() == 0,
    {
        Emitter {
            db,
            output: Vec::new(),
            pc: 0,
            function_offsets: Vec::new(),
            label_offsets: Vec::new(),
            action_offsets: Vec::new(),
            jump_table_slots: Vec::new(),
            relocations: Vec::new(),
        }
    }

    /// The bytes emitted so far.
    pub fn output(&self) -> (r: &Vec<u8>)
        ensures
            r@ == self.bytes(),
    {
        &self.output
    }

    /// The program counter.
    pub fn pc(&self) -> (r: usize)
        ensures
            r == self.counter(),
    {
        self.pc
    }

    fn put_u8(&mut self, value: u8)
        requires
            old(self).pc < usize::MAX,
        ensures
            final(self).output@ == old(self).output@.push(value),
            final(self).pc == old(self).pc + 1,
            final(self).db == old(self).db,
            final(self).relocations == old(self).relocations,
            final(self).label_offsets == old(self).label_offsets,
            final(self).function_offsets == old(self).function_offsets,
            final(self).action_offsets == old(self).action_offsets,
    {
        self.output.push(value);
        self.pc = self.pc + 1;
    }

    fn put_u16(&mut self, value: u16)
        requires
            old(self).pc + 2 <= usize::MAX,
        ensures
            final(self).output@ == old(self).output@ + le16(value),
            final(self).pc == old(self).pc + 2,
            final(self).db == old(self).db,
            final(self).relocations == old(self).relocations,
            final(self).label_offsets == old(self).label_offsets,
            final(self).function_offsets == old(self).function_offsets,
            final(self).action_offsets == old(self).action_offsets,
    {
        push_le16(&mut self.output, value);
        self.pc = self.pc + 2;
    }

    fn put_u32(&mut self, value: u32)
        requires
            old(self).pc + 4 <= usize::MAX,
        ensures
            final(self).output@ == old(self).output@ + le32(value),
            final(self).pc == old(self).pc + 4,
            final(self).db == old(self).db,
            final(self).relocations == old(self).relocations,
            final(self).label_offsets == old(self).label_offsets,
            final(self).function_offsets == old(self).function_offsets,
            final(self).action_offsets == old(self).action_offsets,
    {
        push_le32(&mut self.output, value);
        self.pc = self.pc + 4;
    }

    /// Appends one byte.
    pub fn emit_u8(&mut self, value: u8)
        requires
            old(self).counter() < usize::MAX,
        ensures
            final(self).bytes() == old(self).bytes().push(value),
            final(self).counter() == old(self).counter() + 1,
            final(self).database() == old(self).database(),
            old(self).wf() ==> final(self).wf() && final(self).counter() == final(self).bytes().len(),
    {
        self.put_u8(value);
    }

    /// Appends a `u16`, little-endian.
    pub fn emit_u16(&mut self, value: u16)
        requires
            old(self).counter() + 2 <= usize::MAX,
        ensures
            final(self).bytes() == old(self).bytes() + le16(value),
            final(self).counter() == old(self).counter() + 2,
            final(self).database() == old(self).database(),
            old(self).wf() ==> final(self).wf() && final(self).counter() == final(self).bytes().len(),
    {
        self.put_u16(value);
    }

    /// Appends a `u32`, little-endian.
    pub fn emit_u32(&mut self, value: u32)
        requires
            old(self).counter() + 4 <= usize::MAX,
        ensures
            final(self).bytes() == old(self).bytes() + le32(value),
            final(self).counter() == old(self).counter() + 4,
            final(self).database() == old(self).database(),
            old(self).wf() ==> final(self).wf() && final(self).counter() == final(self).bytes().len(),
    {
        self.put_u32(value);
    }

    /// Emits a command: its opcode, then each argument encoded for its
    /// parameter (a first argument that is a byte value selects the variant
    /// whose first parameter is that constant). Labels passed to
    /// `relative_jump` parameters are patched by [`Emitter::emit_script_file`].
    pub fn emit_command(&mut self, name: &str, cmd: &Command, args: &[Arg]) -> (r: ParseResult<()>)
        requires
            old(self).wf(),
            old(self).counter() + 2 + 4 * args@.len() <= usize::MAX,
        ensures
            final(self).wf(),
            final(self).counter() == final(self).bytes().len(),
            final(self).database() == old(self).database(),
            final(self).counter() <= old(self).counter() + 2 + 4 * args@.len(),
            relocs_extend(old(self).relocs(), final(self).relocs(), old(self).counter()),
            r is Ok ==> final(self).bytes().len() >= old(self).bytes().len() && final(self).bytes().take(
                old(self).bytes().len() as int,
            ) == old(self).bytes(),
            forall|k: Seq<char>| #[trigger] final(self).label_offset(k) == old(self).label_offset(k),
            forall|k: Seq<char>| #[trigger] final(self).function_offset(k) == old(self).function_offset(k),
            forall|k: Seq<char>| #[trigger] final(self).action_offset(k) == old(self).action_offset(k),
            cmd.id is None ==> *final(self) == *old(self) && (r matches Err(
                CompileError::Codegen { message },
            ) && message@ == "Command '"@ + name@ + "' has no opcode ID in database"@),
            cmd.id matches Some(op) ==> (r is Ok <==> params_bytes(
                chosen_params(*cmd, args@),
                args@,
            ) is Some),
            r is Err ==> r matches Err(CompileError::Codegen { .. }),
            r is Ok ==> final(self).relocs() == old(self).relocs() + params_relocs(
                chosen_params(*cmd, args@),
                args@,
                old(self).counter() + 2,
            ),
            r is Ok ==> final(self).bytes() == old(self).bytes() + le16(cmd.id->0) + params_bytes(
                chosen_params(*cmd, args@),
                args@,
            )->0,
    {
        proof {
            lemma_relocs_extend_refl(self.relocs(), self.pc);
        }
        let opcode = match cmd.id {
            Some(id) => id,
            None => {
                return Err(
                    codegen_error(concat3("Command '", name, "' has no opcode ID in database")),
                );
            },
        };
        let ghost start = self.output@;
        self.put_u16(opcode);
        let params: &[ParamDef] = if args.len() > 0 {
            match &args[0] {
                Arg::Value(mode) => {
                    if 0 <= *mode && *mode <= 255 {
                        cmd.get_variant_params(*mode as u8)
                    } else {
                        cmd.params.as_slice()
                    }
                },
                Arg::Pointer(_) => cmd.params.as_slice(),
            }
        } else {
            cmd.params.as_slice()
        };
        assert(params@ == chosen_params(*cmd, args@));
        let mut i: usize = 0;
        while i < params.len()
            invariant
                self.wf(),
                self.database() == old(self).database(),
                relocs_extend(old(self).relocs(), self.relocs(), old(self).counter()),
                self.relocs() == old(self).relocs() + params_relocs(params@.take(i as int), args@, (start.len() + 2) as int),
                self.label_offsets@ == old(self).label_offsets@,
                self.function_offsets@ == old(self).function_offsets@,
                self.action_offsets@ == old(self).action_offsets@,
                cmd.id == Some(opcode),
                start == old(self).bytes(),
                old(self).counter() == start.len(),
                params@ == chosen_params(*cmd, args@),
                i <= params@.len(),
                params_bytes(params@.take(i as int), args@) is Some,
                self.output@ == start + le16(opcode) + params_bytes(
                    params@.take(i as int),
                    args@,
                )->0,
                i <= args@.len(),
                self.pc <= start.len() + 2 + 4 * i,
                start.len() + 2 + 4 * args@.len() <= usize::MAX,
            decreases params.len() - i,
        {
            let ghost prefix = params@.take(i as int);
            assert(params@.take(i + 1).drop_last() =~= prefix);
            if i >= args.len() {
                proof {
                    lemma_params_bytes_fail(params@, args@, i as int);
                }
                let expected = usize_to_string(params.len());
                let got = usize_to_string(args.len());
                let m1 = concat3("Not enough arguments for command '", name, "', expected ");
                let m2 = concat3(m1.as_str(), expected.as_str(), ", got ");
                return Err(codegen_error(concat(m2.as_str(), got.as_str())));
            }
            let param = &params[i];
            let arg = &args[i];
            let ghost before = self.output@;
            if str_eq(param.name.as_str(), "relative_jump") {
                match arg {
                    Arg::Pointer(target) => {
                        let offset = self.pc;
                        let ghost prev = self.relocs();
                        self.put_u32(0);
                        let t = target.clone();
                        let ghost tv = t@;
                        self.relocations.push(Relocation { offset, target: t });
                        proof {
                            assert(self.relocs() =~= prev.push((offset, tv)));
                            lemma_relocs_extend_push(old(self).relocs(), prev, (offset, tv), old(self).pc);
                            reveal_strlit("relative_jump");
                            assert(le32(0u32) =~= zeros(4));
                            let pt = params@.take(i + 1);
                            assert(pt.drop_last() =~= params@.take(i as int));
                            assert(pt.last() == params@[i as int]);
                            assert(offset == start.len() + 2 + params_bytes(params@.take(i as int), args@)->0.len());
                            assert(params_relocs(pt, args@, (start.len() + 2) as int) == params_relocs(
                                params@.take(i as int),
                                args@,
                                (start.len() + 2) as int,
                            ).push((offset, tv)));
                            assert(self.relocs() =~= old(self).relocs() + params_relocs(pt, args@, (start.len() + 2) as int));
                        }
                    },
                    Arg::Value(v) => {
                        self.put_u32(*v as u32);
                        proof {
                            let pt = params@.take(i + 1);
                            assert(pt.drop_last() =~= params@.take(i as int));
                            assert(pt.last() == params@[i as int]);
                            assert(params_relocs(pt, args@, (start.len() + 2) as int) == params_relocs(
                                params@.take(i as int),
                                args@,
                                (start.len() + 2) as int,
                            ));
                        }
                    },
                }
            } else {
                let value = match arg {
                    Arg::Value(v) => *v,
                    Arg::Pointer(p) => {
                        proof {
                            lemma_params_bytes_fail(params@, args@, i as int);
                        }
                        let m1 = concat3("Command '", name, "' parameter '");
                        let m2 = concat3(m1.as_str(), param.name.as_str(), "' expected a value, got pointer '");
                        return Err(codegen_error(concat3(m2.as_str(), p.as_str(), "'")));
                    },
                };
                let size = param.param_type.size();
                if size == 1 {
                    if 0 <= value && value <= 255 {
                        self.put_u8(value as u8);
                        assert(self.output@ =~= before + seq![value as u8]);
                    } else {
                        proof {
                            lemma_params_bytes_fail(params@, args@, i as int);
                        }
                        return Err(self.range_error(name, param, value, "u8"));
                    }
                } else if size == 2 {
                    if -32768 <= value && value <= 65535 {
                        self.put_u16(value as u16);
                    } else {
                        proof {
                            lemma_params_bytes_fail(params@, args@, i as int);
                        }
                        return Err(self.range_error(name, param, value, "16 bits"));
                    }
                } else {
                    if param.param_type == ParamType::U32 || value >= 0 {
                        self.put_u32(value as u32);
                    } else {
                        proof {
                            lemma_params_bytes_fail(params@, args@, i as int);
                        }
                        return Err(self.range_error(name, param, value, "u32"));
                    }
                }
            }
            assert(self.output@ =~= start + le16(opcode) + params_bytes(
                params@.take(i + 1),
                args@,
            )->0);
            i = i + 1;
        }
        assert(params@.take(params@.len() as int) =~= params@);
        assert(self.output@.take(start.len() as int) =~= start);
        Ok(())
    }

    /// The error for a value out of range for its parameter.
    fn range_error(&self, name: &str, param: &ParamDef, value: i32, what: &str) -> (r: CompileError)
        ensures
            r is Codegen,
            r matches CompileError::Codegen { message } && message@ == "Command '"@ + name@
                + "' parameter '"@ + param.name@ + "' value "@ + int_to_decimal(value as int)
                + " does not fit in "@ + what@,
    {
        let v = i32_to_string(value);
        let m1 = concat3("Command '", name, "' parameter '");
        let m2 = concat3(m1.as_str(), param.name.as_str(), "' value ");
        let m3 = concat3(m2.as_str(), v.as_str(), " does not fit in ");
        codegen_error(concat(m3.as_str(), what))
    }
}

/// The jump-table slots the items claim, in order: the public headers of
/// each script with their id less one (source ids start at 1), and name.
pub open spec fn items_slots(items: Seq<TopLevelItem>) -> Seq<(u32, Seq<char>)>
    decreases items.len(),
{
    if items.len() == 0 {
        Seq::empty()
    } else {
        items_slots(items.drop_last()) + match items.last() {
            TopLevelItem::Function(f) => header_slots(f.headers@).map_values(
                |p: (u32, Seq<char>)| (if p.0 == 0 {
                    0u32
                } else {
                    (p.0 - 1) as u32
                }, p.1),
            ),
            TopLevelItem::Action(_) => Seq::empty(),
        }
    }
}

/// The number of jump-table entries: one past the largest slot.
pub open spec fn table_len(slots: Seq<(u32, Seq<char>)>) -> nat
    decreases slots.len(),
{
    if slots.len() == 0 {
        0
    } else {
        let rest = table_len(slots.drop_last());
        let here = slots.last().0 as nat + 1;
        if here > rest {
            here
        } else {
            rest
        }
    }
}

/// An upper bound on the bytes the items emit, alignment included.
pub open spec fn items_bound(items: Seq<TopLevelItem>) -> nat
    decreases items.len(),
{
    if items.len() == 0 {
        0
    } else {
        items_bound(items.drop_last()) + match items.last() {
            TopLevelItem::Function(f) => ops_bound(f.instructions@),
            TopLevelItem::Action(a) => 3 + ops_bound(a.instructions@),
        }
    }
}

/// An upper bound on the size of a whole script file.
pub open spec fn script_bound(items: Seq<TopLevelItem>, markers: u8) -> nat {
    4 * table_len(items_slots(items)) + 2 * (markers as nat) + items_bound(items) + 3
}

impl<'a> Emitter<'a> {
    /// Emits a movement of an action: `u16` opcode and `u16` parameter. A
    /// label records the current offset.
    pub fn emit_movement(&mut self, ir_op: &IrOpcode) -> (r: ParseResult<()>)
        requires
            old(self).wf(),
            old(self).counter() + 4 <= usize::MAX,
        ensures
            final(self).wf(),
            final(self).counter() == final(self).bytes().len(),
            final(self).database() == old(self).database(),
            final(self).counter() <= old(self).counter() + 4,
            final(self).relocs() == old(self).relocs(),
            forall|k: Seq<char>| #[trigger] final(self).label_offset(k) == if ir_op is Label && k
                == ir_op->Label_0@ {
                Some(old(self).counter())
            } else {
                old(self).label_offset(k)
            },
            forall|k: Seq<char>| #[trigger] final(self).function_offset(k) == old(self).function_offset(k),
            forall|k: Seq<char>| #[trigger] final(self).action_offset(k) == old(self).action_offset(k),
            r is Ok ==> movement_op_encodes(*old(self).database(), *ir_op) && final(self).bytes() == old(
                self,
            ).bytes() + movement_op_bytes(*old(self).database(), *ir_op),
            r is Ok ==> final(self).bytes().len() >= old(self).bytes().len() && final(self).bytes().take(
                old(self).bytes().len() as int,
            ) == old(self).bytes(),
            ir_op is Label ==> r is Ok && final(self).bytes() == old(self).bytes(),
            movement_op_encodes(*old(self).database(), *ir_op) ==> r is Ok,
            ir_op matches IrOpcode::Command { name, args } ==> ({
                let db = old(self).database();
                match db.movement_lookup(name@) {
                    None => final(self).bytes() == old(self).bytes() && (r matches Err(
                        CompileError::Database { message },
                    ) && message@ == "Movement '"@ + name@ + "' not found in database"@),
                    Some(i) => match db.commands@[i].1.id {
                        None => final(self).bytes() == old(self).bytes() && (r matches Err(
                            CompileError::Codegen { message },
                        ) && message@ == "Movement '"@ + name@ + "' has no opcode ID in database"@),
                        Some(op) => match movement_param(name@, args@) {
                            None => r matches Err(CompileError::Codegen { .. }),
                            Some(p) => r is Ok && final(self).bytes() == old(self).bytes() + le16(
                                op,
                            ) + le16(p),
                        },
                    },
                }
            }),
    {
        match ir_op {
            IrOpcode::Label(name) => {
                let pc = self.pc;
                set_offset(&mut self.label_offsets, name.clone(), pc);
                assert(self.output@.take(self.output@.len() as int) =~= self.output@);
                assert(self.output@ + Seq::<u8>::empty() =~= self.output@);
                Ok(())
            },
            IrOpcode::Command { name, args } => {
                let cmd = match self.db.get_movement(name.as_str()) {
                    Ok(c) => c,
                    Err(e) => {
                        return Err(e);
                    },
                };
                let opcode = match cmd.id {
                    Some(id) => id,
                    None => {
                        return Err(
                            codegen_error(
                                concat3("Movement '", name.as_str(), "' has no opcode ID in database"),
                            ),
                        );
                    },
                };
                self.put_u16(opcode);
                let param = if args.len() > 0 {
                    match &args[0] {
                        Arg::Value(v) => {
                            if -32768 <= *v && *v <= 65535 {
                                *v as u16
                            } else {
                                let n = i32_to_string(*v);
                                let m1 = concat3("Movement '", name.as_str(), "' parameter value ");
                                return Err(
                                    codegen_error(concat3(m1.as_str(), n.as_str(), " does not fit in 16 bits")),
                                );
                            }
                        },
                        Arg::Pointer(p) => {
                            let m1 = concat3("Movement '", name.as_str(), "' expected a value argument, got pointer '");
                            return Err(codegen_error(concat3(m1.as_str(), p.as_str(), "'")));
                        },
                    }
                } else if str_eq(name.as_str(), "EndMovement") {
                    0
                } else {
                    1
                };
                self.put_u16(param);
                assert(self.output@.take(old(self).output@.len() as int) =~= old(self).output@);
                Ok(())
            },
        }
    }

    /// Emits an IR opcode of a script: a command (looked up by name, legacy
    /// name or alias), or a label recording the current offset.
    pub fn emit_ir_opcode(&mut self, ir_op: &IrOpcode) -> (r: ParseResult<()>)
        requires
            old(self).wf(),
            old(self).counter() + ops_bound(seq![*ir_op]) <= usize::MAX,
        ensures
            final(self).wf(),
            final(self).counter() == final(self).bytes().len(),
            final(self).database() == old(self).database(),
            final(self).counter() <= old(self).counter() + ops_bound(seq![*ir_op]),
            relocs_extend(old(self).relocs(), final(self).relocs(), old(self).counter()),
            forall|k: Seq<char>| #[trigger] final(self).label_offset(k) == if ir_op is Label && k
                == ir_op->Label_0@ {
                Some(old(self).counter())
            } else {
                old(self).label_offset(k)
            },
            forall|k: Seq<char>| #[trigger] final(self).function_offset(k) == old(self).function_offset(k),
            forall|k: Seq<char>| #[trigger] final(self).action_offset(k) == old(self).action_offset(k),
            r is Ok ==> script_op_encodes(*old(self).database(), *ir_op) && final(self).bytes() == old(
                self,
            ).bytes() + script_op_bytes(*old(self).database(), *ir_op),
            r is Ok ==> final(self).relocs() == old(self).relocs() + script_op_relocs(
                *old(self).database(),
                *ir_op,
                old(self).counter() as int,
            ),
            r is Ok ==> final(self).bytes().len() >= old(self).bytes().len() && final(self).bytes().take(
                old(self).bytes().len() as int,
            ) == old(self).bytes(),
            ir_op is Label ==> r is Ok && final(self).bytes() == old(self).bytes(),
            script_op_encodes(*old(self).database(), *ir_op) ==> r is Ok,
            ir_op matches IrOpcode::Command { name, args } ==> ({
                let db = old(self).database();
                match db.command_lookup(name@) {
                    None => final(self).bytes() == old(self).bytes() && (r matches Err(
                        CompileError::Database { message },
                    ) && message@ == command_missing_message(name@)),
                    Some(i) => {
                        let cmd = db.commands@[i].1;
                        match cmd.id {
                            None => final(self).bytes() == old(self).bytes() && (r matches Err(
                                CompileError::Codegen { message },
                            ) && message@ == "Command '"@ + name@ + "' has no opcode ID in database"@),
                            Some(op) => (r is Ok <==> params_bytes(
                                chosen_params(cmd, args@),
                                args@,
                            ) is Some) && (r is Ok ==> final(self).bytes() == old(self).bytes()
                                + le16(op) + params_bytes(chosen_params(cmd, args@), args@)->0)
                                && (r is Err ==> r matches Err(CompileError::Codegen { .. })),
                        }
                    },
                }
            }),
    {
        proof {
            assert(seq![*ir_op].drop_last() =~= Seq::<IrOpcode>::empty());
            lemma_relocs_extend_refl(self.relocs(), self.pc);
        }
        match ir_op {
            IrOpcode::Label(name) => {
                let pc = self.pc;
                set_offset(&mut self.label_offsets, name.clone(), pc);
                assert(self.output@.take(self.output@.len() as int) =~= self.output@);
                assert(self.output@ + Seq::<u8>::empty() =~= self.output@);
                Ok(())
            },
            IrOpcode::Command { name, args } => {
                let cmd = match self.db.get_command(name.as_str()) {
                    Ok(c) => c,
                    Err(e) => {
                        return Err(e);
                    },
                };
                self.emit_command(name.as_str(), cmd, args.as_slice())
            },
        }
    }
}

/// The slots of a vector of `(slot, name)` pairs, viewed.
pub open spec fn slots_view(v: Seq<(u32, String)>) -> Seq<(u32, Seq<char>)> {
    v.map_values(|p: (u32, String)| (p.0, p.1@))
}

/// An optional name, viewed.
pub open spec fn opt_view(o: Option<String>) -> Option<Seq<char>> {
    match o {
        Some(n) => Some(n@),
        None => None,
    }
}

/// The script that claims slot `q` last, if any.
pub open spec fn slot_claim(all: Seq<(u32, Seq<char>)>, q: int) -> Option<Seq<char>>
    decreases all.len(),
{
    if all.len() == 0 {
        None
    } else if all.last().0 == q {
        Some(all.last().1)
    } else {
        slot_claim(all.drop_last(), q)
    }
}

/// The script entry `q` of a jump table of `n` entries runs: the one that
/// claims slot `q`, or for an unclaimed slot that of the next claimed slot.
pub open spec fn table_target(all: Seq<(u32, Seq<char>)>, q: int, n: int) -> Seq<char>
    decreases n - q,
{
    if q < 0 || q >= n {
        Seq::empty()
    } else {
        match slot_claim(all, q) {
            Some(name) => name,
            None => table_target(all, q + 1, n),
        }
    }
}

/// The references a script file leaves to patch: those already pending in
/// `e`, the jump table's, then the items'.
pub open spec fn script_file_relocs<'a>(e: Emitter<'a>, items: Seq<TopLevelItem>, marker_count: u8) -> Seq<(usize, Seq<char>)> {
    let all = items_slots(items);
    let start = e.bytes().len() as int;
    let base = start + 4 * table_len(all) + 2 * marker_count;
    e.relocs() + table_relocs(all, start, table_len(all) as int) + body_relocs(*e.database(), items, base)
}

/// Where `name` lies once `items` are emitted behind what `e` holds, with the
/// jump table and `marker_count` end markers before them.
pub open spec fn script_file_resolution<'a>(
    e: Emitter<'a>,
    items: Seq<TopLevelItem>,
    marker_count: u8,
    name: Seq<char>,
) -> Option<int> {
    let db = *e.database();
    let base = e.bytes().len() + 4 * table_len(items_slots(items)) + 2 * marker_count;
    first_offset(
        setting_or(last_setting(body_labels(db, items, base), name), e.label_offset(name)),
        setting_or(last_setting(body_functions(db, items, base), name), e.function_offset(name)),
        setting_or(last_setting(body_actions(db, items, base), name), e.action_offset(name)),
    )
}

/// Whether a reference at `at` to a target at `target` can be patched: the
/// target is defined, both offsets fit in `i32`, and so does the jump.
pub open spec fn relocation_fits(target: Option<int>, at: int) -> bool {
    match target {
        Some(t) => t <= 0x7fff_ffff && at <= 0x7fff_ffff && -0x8000_0000 <= t - at - 4 <= 0x7fff_ffff,
        None => false,
    }
}

/// Whether a script file of `items` can be emitted behind what `e` holds:
/// every opcode encodes and every reference can be patched.
pub open spec fn script_file_emits<'a>(e: Emitter<'a>, items: Seq<TopLevelItem>, marker_count: u8) -> bool {
    let rs = script_file_relocs(e, items, marker_count);
    &&& forall|i: int| 0 <= i < items.len() ==> item_encodes(*e.database(), #[trigger] items[i])
    &&& forall|q: int|
        0 <= q < rs.len() ==> relocation_fits(
            script_file_resolution(e, items, marker_count, (#[trigger] rs[q]).1),
            rs[q].0 as int,
        )
}

/// The patches of a jump table of `n` entries starting at `start`: entry
/// `q` is patched with the offset of the script it runs.
pub open spec fn table_relocs(all: Seq<(u32, Seq<char>)>, start: int, n: int) -> Seq<(usize, Seq<char>)> {
    Seq::new(n as nat, |q: int| ((start + 4 * q) as usize, table_target(all, q, n)))
}

/// A claimed slot has a claim.
proof fn lemma_slot_claim_some(all: Seq<(u32, Seq<char>)>, i: int)
    requires
        0 <= i < all.len(),
    ensures
        slot_claim(all, all[i].0 as int) is Some,
    decreases all.len(),
{
    if i < all.len() - 1 && all.last().0 != all[i].0 {
        assert(all.drop_last()[i] == all[i]);
        lemma_slot_claim_some(all.drop_last(), i);
    }
}

/// `n` copies of the end-of-table marker.
pub open spec fn markers(n: nat) -> Seq<u8>
    decreases n,
{
    if n == 0 {
        Seq::empty()
    } else {
        markers((n - 1) as nat) + seq![0x13u8, 0xFDu8]
    }
}

proof fn lemma_table_len_bounds(slots: Seq<(u32, Seq<char>)>)
    ensures
        forall|k: int| 0 <= k < slots.len() ==> (#[trigger] slots[k]).0 < table_len(slots),
        table_len(slots) <= 0x1_0000_0000,
    decreases slots.len(),
{
    if slots.len() > 0 {
        lemma_table_len_bounds(slots.drop_last());
        assert forall|k: int| 0 <= k < slots.len() implies (#[trigger] slots[k]).0 < table_len(slots) by {
            if k < slots.len() - 1 {
                assert(slots[k] == slots.drop_last()[k]);
            }
        }
    }
}

proof fn lemma_ops_bound_step(ops: Seq<IrOpcode>, j: int)
    requires
        0 <= j < ops.len(),
    ensures
        ops_bound(ops.take(j + 1)) == ops_bound(ops.take(j)) + ops_bound(seq![ops[j]]),
        ops_bound(ops.take(j + 1)) <= ops_bound(ops),
        ops_bound(seq![ops[j]]) >= 4,
{
    assert(ops.take(j + 1).drop_last() =~= ops.take(j));
    assert(seq![ops[j]].drop_last() =~= Seq::<IrOpcode>::empty());
    assert(ops_bound(Seq::<IrOpcode>::empty()) == 0);
    lemma_ops_bound_mono(ops, j + 1);
}

proof fn lemma_ops_bound_mono(ops: Seq<IrOpcode>, j: int)
    requires
        0 <= j <= ops.len(),
    ensures
        ops_bound(ops.take(j)) <= ops_bound(ops),
    decreases ops.len() - j,
{
    if j < ops.len() {
        assert(ops.take(j + 1).drop_last() =~= ops.take(j));
        lemma_ops_bound_mono(ops, j + 1);
    } else {
        assert(ops.take(j) =~= ops);
    }
}

proof fn lemma_items_bound_step(items: Seq<TopLevelItem>, j: int)
    requires
        0 <= j < items.len(),
    ensures
        items_bound(items.take(j + 1)) == items_bound(items.take(j)) + match items[j] {
            TopLevelItem::Function(f) => ops_bound(f.instructions@),
            TopLevelItem::Action(a) => 3 + ops_bound(a.instructions@),
        },
        items_bound(items.take(j + 1)) <= items_bound(items),
    decreases items.len() - j,
{
    assert(items.take(j + 1).drop_last() =~= items.take(j));
    lemma_items_bound_mono(items, j + 1);
}

proof fn lemma_items_bound_mono(items: Seq<TopLevelItem>, j: int)
    requires
        0 <= j <= items.len(),
    ensures
        items_bound(items.take(j)) <= items_bound(items),
    decreases items.len() - j,
{
    if j < items.len() {
        assert(items.take(j + 1).drop_last() =~= items.take(j));
        lemma_items_bound_mono(items, j + 1);
    } else {
        assert(items.take(j) =~= items);
    }
}

/// The offset a name-to-offset table gives `name`.
fn get_offset(m: &Vec<(String, usize)>, name: &String) -> (r: Option<usize>)
    ensures
        r == offset_of(m@, name@),
{
    proof {
        lemma_offset_of_index(m@, name@);
    }
    let mut i: usize = 0;
    while i < m.len()
        invariant
            i <= m@.len(),
            forall|j: int| 0 <= j < i ==> (#[trigger] m@[j]).0@ != name@,
        decreases m.len() - i,
    {
        if str_eq(m[i].0.as_str(), name.as_str()) {
            proof {
                lemma_offset_of_index(m@, name@);
                let k = choose|k: int|
                    0 <= k < m@.len() && (#[trigger] m@[k]).0@ == name@ && m@[k].1 == offset_of(
                        m@,
                        name@,
                    )->0 && forall|j: int| 0 <= j < k ==> (#[trigger] m@[j]).0@ != name@;
                assert(k == i);
            }
            return Some(m[i].1);
        }
        i = i + 1;
    }
    None
}

/// The jump table of the items: the slots their public headers claim, and
/// the script each entry runs (an unclaimed slot runs the next claimed one).
fn jump_table(items: &[TopLevelItem]) -> (r: (Vec<(u32, String)>, Vec<String>))
    ensures
        slots_view(r.0@) == items_slots(items@),
        r.1@.len() == table_len(items_slots(items@)),
        forall|q: int|
            0 <= q < r.1@.len() ==> (#[trigger] r.1@[q])@ == table_target(
                items_slots(items@),
                q,
                r.1@.len() as int,
            ),
{
        // The slots claimed by the scripts' public headers.
        let mut slots: Vec<(u32, String)> = Vec::new();
        let mut i: usize = 0;
        while i < items.len()
            invariant
                i <= items@.len(),
                slots_view(slots@) =~= items_slots(items@.take(i as int)),
            decreases items.len() - i,
        {
            assert(items@.take(i + 1).drop_last() =~= items@.take(i as int));
            match &items[i] {
                TopLevelItem::Function(f) => {
                    let fs = f.jump_table_slots();
                    let ghost before = slots_view(slots@);
                    let ghost hs = header_slots(f.headers@);
                    let mut j: usize = 0;
                    while j < fs.len()
                        invariant
                            j <= fs@.len(),
                            fs@.len() == hs.len(),
                            hs == header_slots(f.headers@),
                            forall|k: int|
                                0 <= k < fs@.len() ==> (#[trigger] fs@[k]).0 == hs[k].0
                                    && fs@[k].1@ == hs[k].1,
                            slots_view(slots@) =~= before + hs.take(j as int).map_values(
                                |p: (u32, Seq<char>)| (if p.0 == 0 {
                                    0u32
                                } else {
                                    (p.0 - 1) as u32
                                }, p.1),
                            ),
                        decreases fs.len() - j,
                    {
                        let id = fs[j].0;
                        let slot = if id == 0 {
                            0
                        } else {
                            id - 1
                        };
                        let ghost prev = slots@;
                        let name = fs[j].1.clone();
                        slots.push((slot, name));
                        proof {
                            let f = |p: (u32, Seq<char>)| (if p.0 == 0 {
                                0u32
                            } else {
                                (p.0 - 1) as u32
                            }, p.1);
                            assert(hs.take(j + 1) =~= hs.take(j as int).push(hs[j as int]));
                            assert(hs.take(j + 1).map_values(f) =~= hs.take(j as int).map_values(
                                f,
                            ).push(f(hs[j as int])));
                            assert(slots_view(slots@) =~= slots_view(prev).push((slot, name@)));
                        }
                        j = j + 1;
                    }
                    assert(hs.take(hs.len() as int) =~= hs);
                },
                TopLevelItem::Action(_) => {},
            }
            i = i + 1;
        }
        assert(items@.take(items@.len() as int) =~= items@);
        // The table size: one past the largest slot.
        let ghost all = slots_view(slots@);
        proof {
            lemma_table_len_bounds(all);
        }
        let mut table_size: usize = 0;
        let mut k: usize = 0;
        proof {
            lemma_items_slots_bound(items@);
        }
        while k < slots.len()
            invariant
                k <= slots@.len(),
                all == slots_view(slots@),
                all == items_slots(items@),
                table_size == table_len(all.take(k as int)),
                table_len(all) <= 0x1_0000_0000,
                forall|q: int| 0 <= q < all.len() ==> (#[trigger] all[q]).0 < 0xffff_ffff,
            decreases slots.len() - k,
        {
            assert(all.take(k + 1).drop_last() =~= all.take(k as int));
            proof {
                lemma_table_len_prefix(all, k as int + 1);
            }
            let here = slots[k].0 as usize + 1;
            if here > table_size {
                table_size = here;
            }
            k = k + 1;
        }
        assert(all.take(all.len() as int) =~= all);
        // Each slot's script; gaps take the next defined slot's script.
        let mut table: Vec<Option<String>> = Vec::new();
        while table.len() < table_size
            invariant
                table@.len() <= table_size,
                forall|q: int| 0 <= q < table@.len() ==> (#[trigger] table@[q]) is None,
            decreases table_size - table.len(),
        {
            table.push(None);
        }
        proof {
            lemma_table_len_last(all);
            if table_size > 0 {
                let q = choose|q: int| 0 <= q < all.len() && (#[trigger] all[q]).0 == table_len(all) - 1;
                lemma_slot_claim_some(all, q);
            }
            assert(all.take(0) =~= Seq::<(u32, Seq<char>)>::empty());
        }
        let mut k: usize = 0;
        while k < slots.len()
            invariant
                k <= slots@.len(),
                all == slots_view(slots@),
                table@.len() == table_size,
                table_size == table_len(all),
                forall|q: int| 0 <= q < all.len() ==> (#[trigger] all[q]).0 < table_len(all),
                forall|q: int| 0 <= q < table_size ==> opt_view(#[trigger] table@[q]) == slot_claim(all.take(k as int), q),
            decreases slots.len() - k,
        {
            assert(all[k as int].0 == slots@[k as int].0);
            assert(all.take(k + 1).drop_last() =~= all.take(k as int));
            assert(all.take(k + 1).last() == all[k as int]);
            let slot = slots[k].0 as usize;
            table.set(slot, Some(slots[k].1.clone()));
            k = k + 1;
        }
        assert(all.take(all.len() as int) =~= all);
        let mut next: Option<String> = None;
        let mut idx: usize = table.len();
        while idx > 0
            invariant
                idx <= table@.len(),
                table@.len() == table_size,
                table_size == table_len(all),
                table_size > 0 ==> slot_claim(all, table_size - 1) is Some,
                idx < table_size ==> opt_view(next) == Some(table_target(all, idx as int, table_size as int)),
                forall|q: int| 0 <= q < idx ==> opt_view(#[trigger] table@[q]) == slot_claim(all, q),
                forall|q: int| idx <= q < table_size ==> opt_view(#[trigger] table@[q]) == Some(
                    table_target(all, q, table_size as int),
                ),
            decreases idx,
        {
            idx = idx - 1;
            let defined = table[idx].is_some();
            assert(opt_view(table@[idx as int]) == slot_claim(all, idx as int));
            if defined {
                match &table[idx] {
                    Some(name) => {
                        next = Some(name.clone());
                    },
                    None => {},
                }
            } else {
                match &next {
                    Some(name) => {
                        let n = name.clone();
                        table.set(idx, Some(n));
                    },
                    None => {},
                }
            }
        }
        let mut targets: Vec<String> = Vec::new();
        let mut k: usize = 0;
        while k < table.len()
            invariant
                k <= table@.len(),
                table@.len() == table_size,
                table_size == table_len(all),
                forall|q: int| 0 <= q < table_size ==> opt_view(#[trigger] table@[q]) == Some(
                    table_target(all, q, table_size as int),
                ),
                targets@.len() == k,
                forall|q: int| 0 <= q < k ==> (#[trigger] targets@[q])@ == table_target(all, q, table_size as int),
            decreases table.len() - k,
        {
            match &table[k] {
                Some(name) => targets.push(name.clone()),
                None => {},
            }
            k = k + 1;
        }
    (slots, targets)
}

impl<'a> Emitter<'a> {
    /// Emits a script at the current offset: each of its header names is
    /// recorded there, then its opcodes are emitted.
    fn emit_function_item(&mut self, f: &IrFunction) -> (r: ParseResult<()>)
        requires
            old(self).wf(),
            old(self).counter() + ops_bound(f.instructions@) <= usize::MAX,
        ensures
            final(self).wf(),
            final(self).database() == old(self).database(),
            final(self).counter() <= old(self).counter() + ops_bound(f.instructions@),
            relocs_extend(old(self).relocs(), final(self).relocs(), old(self).counter()),
            item_encodes(*old(self).database(), TopLevelItem::Function(*f)) ==> r is Ok,
            r matches Err(e) ==> emit_error(e),
            item_resolves(*old(self).database(), TopLevelItem::Function(*f)) ==> (r is Err ==> r matches Err(
                CompileError::Codegen { .. },
            )),
            r is Ok ==> forall|j: int|
                0 <= j < f.instructions@.len() ==> script_op_encodes(
                    *old(self).database(),
                    #[trigger] f.instructions@[j],
                ),
            r is Ok ==> final(self).bytes() == old(self).bytes() + ops_image(
                *old(self).database(),
                f.instructions@,
                false,
            ),
            r is Ok ==> forall|k: Seq<char>| #[trigger] opt_int(final(self).label_offset(k)) == setting_or(
                last_setting(ops_labels(*old(self).database(), f.instructions@, false, old(self).counter() as int), k),
                old(self).label_offset(k),
            ),
            r is Ok ==> forall|k: Seq<char>| #[trigger] opt_int(final(self).function_offset(k)) == setting_or(
                last_setting(header_settings(f.headers@, old(self).counter() as int), k),
                old(self).function_offset(k),
            ),
            r is Ok ==> forall|k: Seq<char>| #[trigger] final(self).action_offset(k) == old(self).action_offset(k),
            r is Ok ==> final(self).relocs() == old(self).relocs() + ops_relocs(
                *old(self).database(),
                f.instructions@,
                old(self).counter() as int,
            ),
    {
        let ghost start = self.pc as int;
        let ghost db = *self.db;
        let ghost out0 = self.output@;
        let mut h: usize = 0;
        proof {
            lemma_relocs_extend_refl(self.relocs(), self.pc);
            assert(f.headers@.take(0) =~= Seq::<FunctionHeader>::empty());
            assert(header_settings(f.headers@.take(0), start) =~= Seq::<(Seq<char>, int)>::empty());
        }
        while h < f.headers.len()
            invariant
                h <= f.headers@.len(),
                self.wf(),
                self.db == old(self).db,
                db == *old(self).db,
                self.pc == start,
                start == old(self).pc,
                self.output@ == out0,
                out0 == old(self).output@,
                self.relocs() == old(self).relocs(),
                forall|k: Seq<char>| #[trigger] self.label_offset(k) == old(self).label_offset(k),
                forall|k: Seq<char>| #[trigger] self.action_offset(k) == old(self).action_offset(k),
                forall|k: Seq<char>| #[trigger] opt_int(self.function_offset(k)) == setting_or(
                    last_setting(header_settings(f.headers@.take(h as int), start), k),
                    old(self).function_offset(k),
                ),
            decreases f.headers.len() - h,
        {
            let pc = self.pc;
            let ghost prev = *self;
            let hname = f.headers[h].name.clone();
            let ghost nv = hname@;
            set_offset(&mut self.function_offsets, hname, pc);
            proof {
                let hs = f.headers@;
                lemma_header_settings_step(hs, start, h as int);
                assert forall|k: Seq<char>| #[trigger] self.label_offset(k) == old(self).label_offset(k) by {
                    assert(self.label_offset(k) == prev.label_offset(k));
                }
                assert forall|k: Seq<char>| #[trigger] self.action_offset(k) == old(self).action_offset(k) by {
                    assert(self.action_offset(k) == prev.action_offset(k));
                }
                assert forall|k: Seq<char>| #[trigger] opt_int(self.function_offset(k)) == setting_or(
                    last_setting(header_settings(hs.take(h + 1), start), k),
                    old(self).function_offset(k),
                ) by {
                    lemma_last_setting_push(header_settings(hs.take(h as int), start), (nv, start), k);
                    assert(self.function_offset(k) == if k == nv {
                        Some(pc)
                    } else {
                        prev.function_offset(k)
                    });
                }
                assert(self.relocs() == prev.relocs());
            }
            h = h + 1;
        }
        proof {
            assert(f.headers@.take(f.headers@.len() as int) =~= f.headers@);
            assert(f.instructions@.take(0) =~= Seq::<IrOpcode>::empty());
            assert(out0 + ops_image(db, f.instructions@.take(0), false) =~= out0);
            assert(ops_labels(db, f.instructions@.take(0), false, start) =~= Seq::<(Seq<char>, int)>::empty());
            assert(old(self).relocs() + ops_relocs(db, f.instructions@.take(0), start) =~= old(self).relocs());
            lemma_relocs_extend_refl(self.relocs(), self.pc);
        }
        let mut j: usize = 0;
        while j < f.instructions.len()
            invariant
                j <= f.instructions@.len(),
                self.wf(),
                self.db == old(self).db,
                db == *old(self).db,
                start == old(self).pc,
                out0 == old(self).output@,
                out0.len() == start,
                forall|j2: int| 0 <= j2 < j ==> script_op_encodes(db, #[trigger] f.instructions@[j2]),
                db == *old(self).database(),
                self.output@ == out0 + ops_image(db, f.instructions@.take(j as int), false),
                self.relocs() == old(self).relocs() + ops_relocs(db, f.instructions@.take(j as int), start),
                relocs_extend(old(self).relocs(), self.relocs(), old(self).pc),
                forall|k: Seq<char>| #[trigger] opt_int(self.label_offset(k)) == setting_or(
                    last_setting(ops_labels(db, f.instructions@.take(j as int), false, start), k),
                    old(self).label_offset(k),
                ),
                forall|k: Seq<char>| #[trigger] opt_int(self.function_offset(k)) == setting_or(
                    last_setting(header_settings(f.headers@, start), k),
                    old(self).function_offset(k),
                ),
                forall|k: Seq<char>| #[trigger] self.action_offset(k) == old(self).action_offset(k),
                start <= self.pc <= start + ops_bound(f.instructions@.take(j as int)),
                start + ops_bound(f.instructions@) <= usize::MAX,
            decreases f.instructions.len() - j,
        {
            proof {
                lemma_ops_bound_step(f.instructions@, j as int);
            }
            let ghost prev_rel = self.relocs();
            let ghost prev_pc = self.pc;
            let ghost prev = *self;
            let res = self.emit_ir_opcode(&f.instructions[j]);
            proof {
                lemma_relocs_extend_trans(old(self).relocs(), prev_rel, self.relocs(), old(self).pc, prev_pc);
            }
            match res {
                Ok(()) => {},
                Err(e) => {
                    proof {
                        lemma_item_fails_at(db, TopLevelItem::Function(*f), j as int);
                    }
                    return Err(e);
                },
            }
            proof {
                let ops = f.instructions@;
                assert(ops.take(j + 1).drop_last() =~= ops.take(j as int));
                assert(ops.take(j + 1).last() == ops[j as int]);
                assert(self.output@ =~= out0 + ops_image(db, ops.take(j + 1), false));
                let l0 = ops_labels(db, ops.take(j as int), false, start);
                assert(prev_pc == start + ops_image(db, ops.take(j as int), false).len());
                assert(self.relocs() =~= old(self).relocs() + ops_relocs(db, ops.take(j + 1), start));
                match ops[j as int] {
                    IrOpcode::Label(n) => {
                        assert(ops_labels(db, ops.take(j + 1), false, start) =~= l0.push((n@, prev_pc as int)));
                        assert forall|k: Seq<char>| #[trigger] opt_int(self.label_offset(k)) == setting_or(
                            last_setting(ops_labels(db, ops.take(j + 1), false, start), k),
                            old(self).label_offset(k),
                        ) by {
                            lemma_last_setting_push(l0, (n@, prev_pc as int), k);
                        }
                    },
                    IrOpcode::Command { .. } => {
                        assert(ops_labels(db, ops.take(j + 1), false, start) =~= l0);
                        assert forall|k: Seq<char>| #[trigger] opt_int(self.label_offset(k)) == setting_or(
                            last_setting(ops_labels(db, ops.take(j + 1), false, start), k),
                            old(self).label_offset(k),
                        ) by {
                            assert(self.label_offset(k) == prev.label_offset(k));
                        }
                    },
                }
            }
            j = j + 1;
        }
        assert(f.instructions@.take(f.instructions@.len() as int) =~= f.instructions@);
        Ok(())
    }

    /// Emits an action: zero padding to a multiple of four, its name
    /// recorded at the aligned offset, then its movements.
    fn emit_action_item(&mut self, a: &IrAction) -> (r: ParseResult<()>)
        requires
            old(self).wf(),
            old(self).counter() + 3 + ops_bound(a.instructions@) <= usize::MAX,
        ensures
            final(self).wf(),
            final(self).database() == old(self).database(),
            final(self).counter() <= old(self).counter() + 3 + ops_bound(a.instructions@),
            relocs_extend(old(self).relocs(), final(self).relocs(), old(self).counter()),
            item_encodes(*old(self).database(), TopLevelItem::Action(*a)) ==> r is Ok,
            r matches Err(e) ==> emit_error(e),
            item_resolves(*old(self).database(), TopLevelItem::Action(*a)) ==> (r is Err ==> r matches Err(
                CompileError::Codegen { .. },
            )),
            r is Ok ==> forall|j: int|
                0 <= j < a.instructions@.len() ==> movement_op_encodes(
                    *old(self).database(),
                    #[trigger] a.instructions@[j],
                ),
            r is Ok ==> final(self).bytes() == old(self).bytes() + zeros(align_pad(old(self).counter() as nat))
                + ops_image(*old(self).database(), a.instructions@, true),
            r is Ok ==> forall|k: Seq<char>| #[trigger] opt_int(final(self).label_offset(k)) == setting_or(
                last_setting(
                    ops_labels(
                        *old(self).database(),
                        a.instructions@,
                        true,
                        old(self).counter() + align_pad(old(self).counter() as nat),
                    ),
                    k,
                ),
                old(self).label_offset(k),
            ),
            r is Ok ==> forall|k: Seq<char>| #[trigger] opt_int(final(self).action_offset(k)) == setting_or(
                last_setting(seq![(a.name@, old(self).counter() + align_pad(old(self).counter() as nat))], k),
                old(self).action_offset(k),
            ),
            r is Ok ==> forall|k: Seq<char>| #[trigger] final(self).function_offset(k) == old(self).function_offset(k),
            final(self).relocs() == old(self).relocs(),
    {
        let ghost start = self.pc as int;
        let ghost db = *self.db;
        let ghost out0 = self.output@;
        let pad = (4 - self.pc % 4) % 4;
        let mut q: usize = 0;
        assert(out0 + zeros(0) =~= out0);
        while q < pad
            invariant
                self.wf(),
                self.db == old(self).db,
                q <= pad <= 3,
                pad == align_pad(start as nat),
                start == old(self).pc,
                self.pc == start + q,
                out0 == old(self).output@,
                self.output@ == out0 + zeros(q as nat),
                self.relocs() == old(self).relocs(),
                forall|k: Seq<char>| #[trigger] self.label_offset(k) == old(self).label_offset(k),
                forall|k: Seq<char>| #[trigger] self.action_offset(k) == old(self).action_offset(k),
                forall|k: Seq<char>| #[trigger] self.function_offset(k) == old(self).function_offset(k),
                start + 3 + ops_bound(a.instructions@) <= usize::MAX,
            decreases pad - q,
        {
            let ghost prev = *self;
            self.put_u8(0);
            proof {
                assert(self.output@ =~= out0 + zeros((q + 1) as nat));
                assert(self.relocs() =~= prev.relocs());
                assert forall|k: Seq<char>| #[trigger] self.label_offset(k) == old(self).label_offset(k) by {
                    assert(self.label_offset(k) == prev.label_offset(k));
                }
                assert forall|k: Seq<char>| #[trigger] self.action_offset(k) == old(self).action_offset(k) by {
                    assert(self.action_offset(k) == prev.action_offset(k));
                }
                assert forall|k: Seq<char>| #[trigger] self.function_offset(k) == old(self).function_offset(k) by {
                    assert(self.function_offset(k) == prev.function_offset(k));
                }
            }
            q = q + 1;
        }
        let pc = self.pc;
        let ghost action_start = pc as int;
        let ghost prev = *self;
        let aname = a.name.clone();
        let ghost nv = aname@;
        set_offset(&mut self.action_offsets, aname, pc);
        proof {
            assert forall|k: Seq<char>| #[trigger] opt_int(self.action_offset(k)) == setting_or(
                last_setting(seq![(nv, action_start)], k),
                old(self).action_offset(k),
            ) by {
                lemma_last_setting_push(Seq::<(Seq<char>, int)>::empty(), (nv, action_start), k);
                assert(seq![(nv, action_start)] =~= Seq::<(Seq<char>, int)>::empty().push((nv, action_start)));
                assert(self.action_offset(k) == if k == nv {
                    Some(pc)
                } else {
                    prev.action_offset(k)
                });
            }
            assert forall|k: Seq<char>| #[trigger] self.label_offset(k) == old(self).label_offset(k) by {
                assert(self.label_offset(k) == prev.label_offset(k));
            }
            assert forall|k: Seq<char>| #[trigger] self.function_offset(k) == old(self).function_offset(k) by {
                assert(self.function_offset(k) == prev.function_offset(k));
            }
            assert(a.instructions@.take(0) =~= Seq::<IrOpcode>::empty());
            assert(self.output@ + ops_image(db, a.instructions@.take(0), true) =~= self.output@);
            assert(ops_labels(db, a.instructions@.take(0), true, action_start) =~= Seq::<(Seq<char>, int)>::empty());
            lemma_relocs_extend_refl(self.relocs(), old(self).pc);
        }
        let ghost padded = self.output@;
        let mut j: usize = 0;
        while j < a.instructions.len()
            invariant
                j <= a.instructions@.len(),
                self.wf(),
                self.db == old(self).db,
                db == *old(self).db,
                start == old(self).pc,
                action_start == start + align_pad(start as nat),
                padded == old(self).output@ + zeros(align_pad(start as nat)),
                padded.len() == action_start,
                forall|j2: int| 0 <= j2 < j ==> movement_op_encodes(db, #[trigger] a.instructions@[j2]),
                self.output@ == padded + ops_image(db, a.instructions@.take(j as int), true),
                self.relocs() == old(self).relocs(),
                relocs_extend(old(self).relocs(), self.relocs(), old(self).pc),
                forall|k: Seq<char>| #[trigger] opt_int(self.label_offset(k)) == setting_or(
                    last_setting(ops_labels(db, a.instructions@.take(j as int), true, action_start), k),
                    old(self).label_offset(k),
                ),
                forall|k: Seq<char>| #[trigger] opt_int(self.action_offset(k)) == setting_or(
                    last_setting(seq![(a.name@, action_start)], k),
                    old(self).action_offset(k),
                ),
                forall|k: Seq<char>| #[trigger] self.function_offset(k) == old(self).function_offset(k),
                action_start <= self.pc <= action_start + ops_bound(a.instructions@.take(j as int)),
                action_start + ops_bound(a.instructions@) <= usize::MAX,
            decreases a.instructions.len() - j,
        {
            proof {
                lemma_ops_bound_step(a.instructions@, j as int);
            }
            let ghost prev_pc = self.pc;
            let ghost prev = *self;
            match self.emit_movement(&a.instructions[j]) {
                Ok(()) => {},
                Err(e) => {
                    proof {
                        lemma_item_fails_at(db, TopLevelItem::Action(*a), j as int);
                    }
                    return Err(e);
                },
            }
            proof {
                let ops = a.instructions@;
                assert(ops.take(j + 1).drop_last() =~= ops.take(j as int));
                assert(ops.take(j + 1).last() == ops[j as int]);
                assert(self.output@ =~= padded + ops_image(db, ops.take(j + 1), true));
                let l0 = ops_labels(db, ops.take(j as int), true, action_start);
                assert(prev_pc == action_start + ops_image(db, ops.take(j as int), true).len());
                match ops[j as int] {
                    IrOpcode::Label(n) => {
                        assert(ops_labels(db, ops.take(j + 1), true, action_start) =~= l0.push((n@, prev_pc as int)));
                        assert forall|k: Seq<char>| #[trigger] opt_int(self.label_offset(k)) == setting_or(
                            last_setting(ops_labels(db, ops.take(j + 1), true, action_start), k),
                            old(self).label_offset(k),
                        ) by {
                            lemma_last_setting_push(l0, (n@, prev_pc as int), k);
                        }
                    },
                    IrOpcode::Command { .. } => {
                        assert(ops_labels(db, ops.take(j + 1), true, action_start) =~= l0);
                        assert forall|k: Seq<char>| #[trigger] opt_int(self.label_offset(k)) == setting_or(
                            last_setting(ops_labels(db, ops.take(j + 1), true, action_start), k),
                            old(self).label_offset(k),
                        ) by {
                            assert(self.label_offset(k) == prev.label_offset(k));
                        }
                    },
                }
                assert forall|k: Seq<char>| #[trigger] opt_int(self.action_offset(k)) == setting_or(
                    last_setting(seq![(a.name@, action_start)], k),
                    old(self).action_offset(k),
                ) by {
                    assert(self.action_offset(k) == prev.action_offset(k));
                }
                assert forall|k: Seq<char>| #[trigger] self.function_offset(k) == old(self).function_offset(k) by {
                    assert(self.function_offset(k) == prev.function_offset(k));
                }
            }
            j = j + 1;
        }
        assert(a.instructions@.take(a.instructions@.len() as int) =~= a.instructions@);
        Ok(())
    }

    /// Patches every pending reference with the 32-bit offset of its target
    /// relative to the end of the reference: a label of that name, else a
    /// script, else an action. Fails with a codegen error for the first
    /// reference whose target is undefined or whose offsets do not fit in
    /// `i32`.
    fn patch_relocations(&mut self) -> (r: ParseResult<()>)
        requires
            old(self).wf(),
        ensures
            final(self).wf(),
            final(self).db == old(self).db,
            final(self).pc == old(self).pc,
            final(self).relocs() == old(self).relocs(),
            final(self).label_offsets@ == old(self).label_offsets@,
            final(self).function_offsets@ == old(self).function_offsets@,
            final(self).action_offsets@ == old(self).action_offsets@,
            final(self).output@.len() == old(self).output@.len(),
            r is Err ==> r matches Err(CompileError::Codegen { .. }),
            (forall|q: int|
                0 <= q < old(self).relocs().len() ==> relocation_fits(
                    opt_int(old_view_resolved(
                        old(self).label_offsets@,
                        old(self).function_offsets@,
                        old(self).action_offsets@,
                        (#[trigger] old(self).relocs()[q]).1,
                    )),
                    old(self).relocs()[q].0 as int,
                )) ==> r is Ok,
            r is Ok ==> ({
                let rs = old(self).relocs();
                let (lo, fo, ao) = (old(self).label_offsets@, old(self).function_offsets@, old(self).action_offsets@);
                &&& forall|p: int|
                    #![trigger final(self).output@[p]]
                    0 <= p < old(self).output@.len() && (forall|q: int|
                        0 <= q < rs.len() ==> !((#[trigger] rs[q]).0 <= p < rs[q].0 + 4)) ==> final(self).output@[p]
                        == old(self).output@[p]
                &&& forall|q: int|
                    0 <= q < rs.len() ==> #[trigger] old_view_resolved(lo, fo, ao, rs[q].1) is Some
                        && final(self).output@.subrange(rs[q].0 as int, rs[q].0 + 4) == le32(
                        rel_word(old_view_resolved(lo, fo, ao, rs[q].1)->0 as int, rs[q].0 as int),
                    )
            }),
    {
        let ghost unpatched = self.output@;
        let ghost rs = self.relocs();
        let ghost lo = self.label_offsets@;
        let ghost fo = self.function_offsets@;
        let ghost ao = self.action_offsets@;
        let ghost fits = forall|q: int|
            0 <= q < rs.len() ==> relocation_fits(opt_int(old_view_resolved(lo, fo, ao, (#[trigger] rs[q]).1)), rs[q].0 as int);
        let mut k: usize = 0;
        while k < self.relocations.len()
            invariant
                self.wf(),
                k <= self.relocations@.len(),
                self.pc == old(self).pc,
                self.db == old(self).db,
                rs == self.relocs(),
                rs == old(self).relocs(),
                unpatched == old(self).output@,
                lo == old(self).label_offsets@,
                fo == old(self).function_offsets@,
                ao == old(self).action_offsets@,
                self.label_offsets@ == lo,
                self.function_offsets@ == fo,
                self.action_offsets@ == ao,
                self.output@.len() == unpatched.len(),
                forall|p: int|
                    #![trigger self.output@[p]]
                    0 <= p < unpatched.len() && (forall|q: int|
                        0 <= q < k ==> !((#[trigger] rs[q]).0 <= p < rs[q].0 + 4)) ==> self.output@[p]
                        == unpatched[p],
                forall|q: int|
                    0 <= q < k ==> #[trigger] old_view_resolved(lo, fo, ao, rs[q].1) is Some
                        && self.output@.subrange(rs[q].0 as int, rs[q].0 + 4) == le32(
                        rel_word(old_view_resolved(lo, fo, ao, rs[q].1)->0 as int, rs[q].0 as int),
                    ),
                fits == forall|q: int|
                    0 <= q < rs.len() ==> relocation_fits(opt_int(old_view_resolved(lo, fo, ao, (#[trigger] rs[q]).1)), rs[q].0 as int),
            decreases self.relocations.len() - k,
        {
            let offset = self.relocations[k].offset;
            let target = self.relocations[k].target.clone();
            assert(rs[k as int] == (offset, target@));
            let found = match get_offset(&self.label_offsets, &target) {
                Some(o) => Some(o),
                None => match get_offset(&self.function_offsets, &target) {
                    Some(o) => Some(o),
                    None => get_offset(&self.action_offsets, &target),
                },
            };
            assert(found == self.resolved_offset(target@));
            assert(found == old_view_resolved(lo, fo, ao, target@));
            let target_offset = match found {
                Some(o) => o,
                None => {
                    return Err(
                        codegen_error(
                            concat3("Undefined label '", target.as_str(), "' for relocation"),
                        ),
                    );
                },
            };
            if target_offset > 0x7fff_ffff {
                let o = usize_to_string(target_offset);
                let m1 = concat3("Relocation target '", target.as_str(), "' offset ");
                return Err(codegen_error(concat3(m1.as_str(), o.as_str(), " does not fit in i32")));
            }
            if offset > 0x7fff_ffff {
                let o = usize_to_string(offset);
                let m1 = concat3("Relocation offset ", o.as_str(), " does not fit in i32 for target '");
                return Err(codegen_error(concat3(m1.as_str(), target.as_str(), "'")));
            }
            let relative: i64 = target_offset as i64 - offset as i64 - 4;
            if relative < -0x8000_0000 || relative > 0x7fff_ffff {
                let v = i64_to_string(relative);
                let m1 = concat3("Relative jump ", v.as_str(), " does not fit in i32 for relocation target '");
                return Err(codegen_error(concat3(m1.as_str(), target.as_str(), "'")));
            }
            let word = (relative as i32) as u32;
            assert(word == rel_word(target_offset as int, offset as int));
            assert(offset + 4 <= self.output@.len());
            let ghost prev = self.output@;
            self.output.set(offset, (word % 256) as u8);
            self.output.set(offset + 1, ((word / 256) % 256) as u8);
            self.output.set(offset + 2, ((word / 65536) % 256) as u8);
            self.output.set(offset + 3, (word / 16777216) as u8);
            proof {
                assert(self.output@.subrange(offset as int, offset + 4) =~= le32(word));
                assert forall|p: int|
                    #![trigger self.output@[p]]
                    0 <= p < unpatched.len() && (forall|q: int|
                        0 <= q < k + 1 ==> !((#[trigger] rs[q]).0 <= p < rs[q].0 + 4)) implies self.output@[p]
                        == unpatched[p] by {
                    assert(!(rs[k as int].0 <= p < rs[k as int].0 + 4));
                    assert(self.output@[p] == prev[p]);
                    assert forall|q: int| 0 <= q < k implies !((#[trigger] rs[q]).0 <= p < rs[q].0 + 4) by {
                        assert(0 <= q < k + 1);
                    }
                }
                assert forall|q: int| 0 <= q < k + 1 implies #[trigger] old_view_resolved(lo, fo, ao, rs[q].1)
                    is Some && self.output@.subrange(rs[q].0 as int, rs[q].0 + 4) == le32(
                    rel_word(old_view_resolved(lo, fo, ao, rs[q].1)->0 as int, rs[q].0 as int),
                ) by {
                    if q == k {
                        assert(rs[q].1 == target@);
                        assert(rs[q].0 == offset);
                    } else {
                        assert(self.relocations@[q].offset + 4 <= self.relocations@[k as int].offset);
                        assert(rs[q].0 == self.relocations@[q].offset);
                        assert(self.output@.subrange(rs[q].0 as int, rs[q].0 + 4) =~= prev.subrange(
                            rs[q].0 as int,
                            rs[q].0 + 4,
                        ));
                    }
                }
            }
            k = k + 1;
        }
        Ok(())
    }
}

impl<'a> Emitter<'a> {
    /// Emits a whole script file and returns its bytes: the jump table (one
    /// entry per slot up to the largest, a missing slot repeating the next
    /// defined one), `jump_table_end_marker_count` end markers, then the
    /// scripts and the 4-byte aligned actions in source order; references
    /// are patched and the output is padded to a multiple of four bytes.
    #[verifier::spinoff_prover]
    #[verifier::rlimit(100)]
    pub fn emit_script_file(&mut self, items: &[TopLevelItem], jump_table_end_marker_count: u8) -> (r:
        ParseResult<Vec<u8>>)
        requires
            old(self).wf(),
            old(self).counter() + script_bound(items@, jump_table_end_marker_count) <= usize::MAX,
        ensures
            r matches Ok(b) ==> b@.len() % 4 == 0 && old(self).bytes().len() + 4 * table_len(
                items_slots(items@),
            ) + 2 * jump_table_end_marker_count <= b@.len(),
            r is Ok ==> final(self).bytes().len() == 0,
            script_file_emits(*old(self), items@, jump_table_end_marker_count) ==> r is Ok,
            r matches Err(e) ==> emit_error(e),
            (forall|i: int| 0 <= i < items@.len() ==> item_resolves(*old(self).database(), #[trigger] items@[i]))
                ==> (r is Err ==> r matches Err(CompileError::Codegen { .. })),
            r is Ok ==> forall|i: int|
                0 <= i < items@.len() ==> item_encodes(*old(self).database(), #[trigger] items@[i]),
            r is Ok ==> ({
                let all = items_slots(items@);
                let start = old(self).bytes().len() as int;
                let base = start + 4 * table_len(all) + 2 * jump_table_end_marker_count;
                final(self).relocs() == old(self).relocs() + table_relocs(all, start, table_len(all) as int)
                    + body_relocs(*old(self).database(), items@, base)
            }),
            r is Ok ==> ({
                let db = *old(self).database();
                let base = old(self).bytes().len() + 4 * table_len(items_slots(items@)) + 2
                    * jump_table_end_marker_count;
                forall|k: Seq<char>| #[trigger] opt_int(final(self).resolved_offset(k)) == first_offset(
                    setting_or(last_setting(body_labels(db, items@, base), k), old(self).label_offset(k)),
                    setting_or(last_setting(body_functions(db, items@, base), k), old(self).function_offset(k)),
                    setting_or(last_setting(body_actions(db, items@, base), k), old(self).action_offset(k)),
                )
            }),
            r matches Ok(b) ==> ({
                let n = table_len(items_slots(items@)) as int;
                let start = old(self).bytes().len() as int;
                let body_start = start + 4 * n + 2 * jump_table_end_marker_count;
                let image = old(self).bytes() + zeros((4 * n) as nat) + markers(
                    jump_table_end_marker_count as nat,
                ) + body_image(*old(self).database(), items@, body_start);
                let rs = final(self).relocs();
                &&& b@.len() == image.len() + align_pad(image.len())
                &&& forall|p: int| #![trigger b@[p]] image.len() <= p < b@.len() ==> b@[p] == 0
                &&& forall|p: int|
                    #![trigger b@[p]]
                    0 <= p < image.len() && (forall|q: int|
                        0 <= q < rs.len() ==> !((#[trigger] rs[q]).0 <= p < rs[q].0 + 4)) ==> b@[p]
                        == image[p]
                &&& forall|q: int|
                    0 <= q < rs.len() ==> #[trigger] final(self).resolved_offset(rs[q].1) is Some
                        && b@.subrange(rs[q].0 as int, rs[q].0 + 4) == le32(
                        rel_word(final(self).resolved_offset(rs[q].1)->0 as int, rs[q].0 as int),
                    )
            }),
            r matches Ok(b) ==> ({
                let all = items_slots(items@);
                let n = table_len(all) as int;
                let start = old(self).bytes().len() as int;
                let table_end = start + 4 * n;
                &&& b@.subrange(table_end, table_end + 2 * jump_table_end_marker_count) == markers(
                    jump_table_end_marker_count as nat,
                )
                &&& forall|q: int|
                    0 <= q < n ==> #[trigger] final(self).resolved_offset(table_target(all, q, n))
                        is Some && b@.subrange(start + 4 * q, start + 4 * q + 4) == le32(
                        rel_word(
                            final(self).resolved_offset(table_target(all, q, n))->0 as int,
                            start + 4 * q,
                        ),
                    )
            }),
    {
        let ghost start = self.output@.len();
        let ghost budget = script_bound(items@, jump_table_end_marker_count);
        let ghost emits = script_file_emits(*self, items@, jump_table_end_marker_count);
        let (slots, targets) = jump_table(items);
        let ghost all = items_slots(items@);
        let table_size = targets.len();
        proof {
            lemma_items_slots_bound(items@);
            lemma_table_len_bounds(all);
        }
        self.jump_table_slots = slots;
        // Jump table placeholders.
        let ghost out0 = self.output@;
        let ghost rel0 = self.relocs();
        let ghost trel = table_relocs(all, start as int, table_size as int);
        assert(out0 + zeros(0) =~= out0);
        assert(trel.take(0) =~= Seq::<(usize, Seq<char>)>::empty());
        assert(rel0 + trel.take(0) =~= rel0);
        let mut k: usize = 0;
        while k < targets.len()
            invariant
                self.wf(),
                k <= targets@.len(),
                targets@.len() == table_size,
                table_size == table_len(items_slots(items@)),
                all == items_slots(items@),
                forall|q: int| 0 <= q < k ==> (#[trigger] targets@[q])@ == table_target(all, q, table_size as int),
                forall|q: int| 0 <= q < table_size ==> (#[trigger] targets@[q])@ == table_target(all, q, table_size as int),
                self.pc == start + 4 * k,
                start == out0.len(),
                self.output@ == out0 + zeros((4 * k) as nat),
                trel == table_relocs(all, start as int, table_size as int),
                self.relocs() == rel0 + trel.take(k as int),
                self.label_offsets@ == old(self).label_offsets@,
                self.function_offsets@ == old(self).function_offsets@,
                self.action_offsets@ == old(self).action_offsets@,
                self.db == old(self).db,
                start + budget <= usize::MAX,
                budget == script_bound(items@, jump_table_end_marker_count),
            decreases targets.len() - k,
        {
            let offset = self.pc;
            let ghost prev = self.relocs();
            self.put_u32(0);
            let t = targets[k].clone();
            let ghost tv = t@;
            self.relocations.push(Relocation { offset, target: t });
            proof {
                assert(self.relocs() =~= prev.push((offset, tv)));
                assert(trel[k as int] == ((start + 4 * k) as usize, table_target(all, k as int, table_size as int)));
                assert(trel.take(k + 1) =~= trel.take(k as int).push(trel[k as int]));
                assert(self.relocs() =~= rel0 + trel.take(k + 1));
                assert(le32(0u32) =~= zeros(4));
                assert(self.output@ =~= out0 + zeros((4 * (k + 1)) as nat));
            }
            k = k + 1;
        }
        assert(trel.take(table_size as int) =~= trel);
        let ghost table_bytes = self.output@;
        assert(table_bytes + markers(0) =~= table_bytes);
        let mut m: u8 = 0;
        while m < jump_table_end_marker_count
            invariant
                self.wf(),
                m <= jump_table_end_marker_count,
                self.pc == start + 4 * table_size + 2 * m,
                table_size == table_len(items_slots(items@)),
                self.output@ == table_bytes + markers(m as nat),
                self.label_offsets@ == old(self).label_offsets@,
                self.function_offsets@ == old(self).function_offsets@,
                self.action_offsets@ == old(self).action_offsets@,
                self.relocs() == rel0 + trel,
                self.db == old(self).db,
                start + budget <= usize::MAX,
                budget == script_bound(items@, jump_table_end_marker_count),
            decreases jump_table_end_marker_count - m,
        {
            let ghost prev = self.output@;
            self.put_u8(0x13);
            self.put_u8(0xFD);
            proof {
                assert(self.relocs() =~= rel0 + trel);
                assert(self.output@ =~= table_bytes + markers((m + 1) as nat));
            }
            m = m + 1;
        }
        let ghost body_start = self.pc as int;
        let ghost head = self.output@;
        let ghost base_relocs = rel0 + trel;
        proof {
            assert(head.take(body_start) =~= head);
            lemma_relocs_extend_refl(base_relocs, body_start as usize);
        }
        // The scripts and actions.
        let mut i: usize = 0;
        while i < items.len()
            invariant
                self.wf(),
                i <= items@.len(),
                self.db == old(self).db,
                head.len() == body_start,
                self.output@.len() >= body_start,
                self.output@.take(body_start) == head,
                relocs_extend(base_relocs, self.relocs(), body_start as usize),
                forall|i2: int| 0 <= i2 < i ==> item_encodes(*old(self).db, #[trigger] items@[i2]),
                self.output@ == head + body_image(*old(self).db, items@.take(i as int), body_start),
                self.relocs() == base_relocs + body_relocs(*old(self).db, items@.take(i as int), body_start),
                forall|k: Seq<char>| #[trigger] opt_int(self.label_offset(k)) == setting_or(
                    last_setting(body_labels(*old(self).db, items@.take(i as int), body_start), k),
                    old(self).label_offset(k),
                ),
                forall|k: Seq<char>| #[trigger] opt_int(self.function_offset(k)) == setting_or(
                    last_setting(body_functions(*old(self).db, items@.take(i as int), body_start), k),
                    old(self).function_offset(k),
                ),
                forall|k: Seq<char>| #[trigger] opt_int(self.action_offset(k)) == setting_or(
                    last_setting(body_actions(*old(self).db, items@.take(i as int), body_start), k),
                    old(self).action_offset(k),
                ),
                body_start == start + 4 * table_len(items_slots(items@)) + 2
                    * jump_table_end_marker_count,
                body_start <= self.pc <= body_start + items_bound(items@.take(i as int)),
                body_start + items_bound(items@) + 3 <= usize::MAX,
                emits == script_file_emits(*old(self), items@, jump_table_end_marker_count),
            decreases items.len() - i,
        {
            proof {
                lemma_items_bound_step(items@, i as int);
            }
            let ghost item_start = self.pc as int;
            let ghost prev = *self;
            let ghost prev_rel = self.relocs();
            let ghost prev_out = self.output@;
            let ghost db = *old(self).db;
            let res = match &items[i] {
                TopLevelItem::Function(f) => self.emit_function_item(f),
                TopLevelItem::Action(a) => self.emit_action_item(a),
            };
            proof {
                lemma_relocs_extend_trans(base_relocs, prev_rel, self.relocs(), body_start as usize, item_start as usize);
            }
            match res {
                Ok(()) => {},
                Err(e) => {
                    assert(!item_encodes(*old(self).database(), items@[i as int]));
                    return Err(e);
                },
            }
            proof {
                let bl = body_labels(*old(self).db, items@.take(i as int), body_start);
                let bf = body_functions(*old(self).db, items@.take(i as int), body_start);
                let ba = body_actions(*old(self).db, items@.take(i as int), body_start);
                assert(items@.take(i + 1).drop_last() =~= items@.take(i as int));
                assert(items@.take(i + 1).last() == items@[i as int]);
                assert(prev_out.len() == item_start);
                assert(item_start == body_start + body_image(db, items@.take(i as int), body_start).len());
                match items@[i as int] {
                    TopLevelItem::Function(f) => {
                        assert(item_code_start(db, items@.take(i as int), body_start, items@[i as int]) == item_start);
                        assert(self.output@ =~= head + body_image(db, items@.take(i + 1), body_start));
                        assert(self.relocs() =~= base_relocs + body_relocs(db, items@.take(i + 1), body_start));
                        assert(item_encodes(db, items@[i as int]));
                        assert forall|k: Seq<char>| #[trigger] opt_int(self.label_offset(k)) == setting_or(
                            last_setting(body_labels(db, items@.take(i + 1), body_start), k),
                            old(self).label_offset(k),
                        ) by {
                            lemma_last_setting_append(bl, ops_labels(db, f.instructions@, false, item_start), k);
                        }
                        assert forall|k: Seq<char>| #[trigger] opt_int(self.function_offset(k)) == setting_or(
                            last_setting(body_functions(db, items@.take(i + 1), body_start), k),
                            old(self).function_offset(k),
                        ) by {
                            lemma_last_setting_append(bf, header_settings(f.headers@, item_start), k);
                        }
                        assert(body_actions(db, items@.take(i + 1), body_start) =~= ba);
                        assert forall|k: Seq<char>| #[trigger] opt_int(self.action_offset(k)) == setting_or(
                            last_setting(body_actions(db, items@.take(i + 1), body_start), k),
                            old(self).action_offset(k),
                        ) by {
                            assert(self.action_offset(k) == prev.action_offset(k));
                        }
                    },
                    TopLevelItem::Action(a) => {
                        let at = item_start + align_pad(item_start as nat);
                        assert(item_code_start(db, items@.take(i as int), body_start, items@[i as int]) == at);
                        assert(self.output@ =~= head + body_image(db, items@.take(i + 1), body_start));
                        assert(self.relocs() =~= base_relocs + body_relocs(db, items@.take(i + 1), body_start));
                        assert(item_encodes(db, items@[i as int]));
                        assert forall|k: Seq<char>| #[trigger] opt_int(self.label_offset(k)) == setting_or(
                            last_setting(body_labels(db, items@.take(i + 1), body_start), k),
                            old(self).label_offset(k),
                        ) by {
                            lemma_last_setting_append(bl, ops_labels(db, a.instructions@, true, at), k);
                        }
                        assert forall|k: Seq<char>| #[trigger] opt_int(self.action_offset(k)) == setting_or(
                            last_setting(body_actions(db, items@.take(i + 1), body_start), k),
                            old(self).action_offset(k),
                        ) by {
                            lemma_last_setting_append(ba, seq![(a.name@, at)], k);
                        }
                        assert(body_functions(db, items@.take(i + 1), body_start) =~= bf);
                        assert forall|k: Seq<char>| #[trigger] opt_int(self.function_offset(k)) == setting_or(
                            last_setting(body_functions(db, items@.take(i + 1), body_start), k),
                            old(self).function_offset(k),
                        ) by {
                            assert(self.function_offset(k) == prev.function_offset(k));
                        }
                    },
                }
                assert(self.output@.take(body_start) =~= head);
            }
            i = i + 1;
        }
        assert(items@.take(items@.len() as int) =~= items@);
        // Patch the references.
        let ghost unpatched = self.output@;
        let ghost rs = self.relocs();
        let ghost lo = self.label_offsets@;
        let ghost fo = self.function_offsets@;
        let ghost ao = self.action_offsets@;
        proof {
            assert forall|x: Seq<char>| #[trigger] opt_int(offset_of(lo, x)) == setting_or(
                last_setting(body_labels(*old(self).db, items@, body_start), x),
                old(self).label_offset(x),
            ) by {
                assert(self.label_offset(x) == offset_of(lo, x));
            }
            assert forall|x: Seq<char>| #[trigger] opt_int(offset_of(fo, x)) == setting_or(
                last_setting(body_functions(*old(self).db, items@, body_start), x),
                old(self).function_offset(x),
            ) by {
                assert(self.function_offset(x) == offset_of(fo, x));
            }
            assert forall|x: Seq<char>| #[trigger] opt_int(offset_of(ao, x)) == setting_or(
                last_setting(body_actions(*old(self).db, items@, body_start), x),
                old(self).action_offset(x),
            ) by {
                assert(self.action_offset(x) == offset_of(ao, x));
            }
        }
        let ghost table_end = start + 4 * table_size;
        proof {
            assert(rel0 == old(self).relocs());
            assert forall|q: int| 0 <= q < rs.len() implies (#[trigger] rs[q]).0 + 4 <= table_end || rs[q].0
                >= body_start by {
                assert(rs.take(base_relocs.len() as int) == base_relocs);
                if q < rel0.len() {
                    assert(rs[q] == rs.take(base_relocs.len() as int)[q]);
                    assert(rs[q] == base_relocs[q]);
                    assert(rel0[q] == (old(self).relocations@[q].offset, old(self).relocations@[q].target@));
                } else if q < base_relocs.len() {
                    assert(rs[q] == rs.take(base_relocs.len() as int)[q]);
                    assert(rs[q] == base_relocs[q]);
                    assert(base_relocs[q] == trel[q - rel0.len()]);
                }
            }
            assert forall|p: int| table_end <= p < body_start implies unpatched[p] == head[p] by {
                assert(unpatched.take(body_start)[p] == unpatched[p]);
            }
            assert(rs == script_file_relocs(*old(self), items@, jump_table_end_marker_count));
            assert forall|x: Seq<char>| #[trigger] opt_int(old_view_resolved(lo, fo, ao, x))
                == script_file_resolution(*old(self), items@, jump_table_end_marker_count, x) by {
                assert(opt_int(offset_of(lo, x)) == setting_or(
                    last_setting(body_labels(*old(self).db, items@, body_start), x),
                    old(self).label_offset(x),
                ));
                assert(opt_int(offset_of(fo, x)) == setting_or(
                    last_setting(body_functions(*old(self).db, items@, body_start), x),
                    old(self).function_offset(x),
                ));
                assert(opt_int(offset_of(ao, x)) == setting_or(
                    last_setting(body_actions(*old(self).db, items@, body_start), x),
                    old(self).action_offset(x),
                ));
            }
        }
        assert(emits ==> forall|q: int|
            0 <= q < rs.len() ==> relocation_fits(opt_int(old_view_resolved(lo, fo, ao, (#[trigger] rs[q]).1)), rs[q].0 as int));
        let patched_ok = self.patch_relocations();
        match patched_ok {
            Ok(()) => {},
            Err(e) => {
                return Err(e);
            },
        }
        proof {
            assert forall|p: int| table_end <= p < body_start implies self.output@[p] == unpatched[p] by {
                assert forall|q: int| 0 <= q < rs.len() implies !((#[trigger] rs[q]).0 <= p < rs[q].0 + 4) by {}
            }
        }
        let ghost patched = self.output@;
        proof {
            assert(patched.take(patched.len() as int) =~= patched);
        }
        let pad = (4 - self.output.len() % 4) % 4;
        let ghost pad_start = self.pc as int;
        let mut q: usize = 0;
        while q < pad
            invariant
                self.wf(),
                q <= pad <= 3,
                self.pc == pad_start + q,
                (pad_start + pad) % 4 == 0,
                pad_start + 3 <= usize::MAX,
                body_start <= pad_start,
                body_start == start + 4 * table_len(items_slots(items@)) + 2
                    * jump_table_end_marker_count,
                patched.len() == pad_start,
                self.output@.len() >= patched.len(),
                self.output@.take(patched.len() as int) == patched,
                forall|p: int| patched.len() <= p < self.output@.len() ==> self.output@[p] == 0,
                self.relocs() == rs,
                self.label_offsets@ == lo,
                self.function_offsets@ == fo,
                self.action_offsets@ == ao,
            decreases pad - q,
        {
            let ghost prev = self.output@;
            self.put_u8(0);
            proof {
                assert(self.output@.take(prev.len() as int) =~= prev);
                lemma_take_prefix(prev, self.output@, patched.len() as int);
            }
            q = q + 1;
        }
        proof {
            let b = self.output@;
            assert(b.take(patched.len() as int) == patched);
            assert forall|p: int| table_end <= p < body_start implies b[p] == head[p] by {
                assert(b.take(patched.len() as int)[p] == b[p]);
            }
            assert(head.subrange(table_end, body_start) =~= markers(jump_table_end_marker_count as nat)) by {
                assert(head == table_bytes + markers(jump_table_end_marker_count as nat));
                assert(table_bytes.len() == table_end);
            }
            assert(b.subrange(table_end, body_start) =~= head.subrange(table_end, body_start));
            assert forall|q: int| 0 <= q < table_size implies #[trigger] old_view_resolved(
                lo,
                fo,
                ao,
                table_target(all, q, table_size as int),
            ) is Some && b.subrange(start + 4 * q, start + 4 * q + 4) == le32(
                rel_word(
                    old_view_resolved(lo, fo, ao, table_target(all, q, table_size as int))->0 as int,
                    start + 4 * q,
                ),
            ) by {
                let idx = rel0.len() + q;
                assert(rs.take(base_relocs.len() as int) == base_relocs);
                assert(rs[idx] == rs.take(base_relocs.len() as int)[idx]);
                assert(base_relocs[idx] == trel[q]);
                assert(rs[idx] == ((start + 4 * q) as usize, table_target(all, q, table_size as int)));
                assert(old_view_resolved(lo, fo, ao, rs[idx].1) is Some);
                assert(b.take(patched.len() as int).subrange(start + 4 * q, start + 4 * q + 4) =~= b.subrange(
                    start + 4 * q,
                    start + 4 * q + 4,
                ));
            }
        }
        let ghost result = self.output@;
        let mut out: Vec<u8> = Vec::new();
        std::mem::swap(&mut out, &mut self.output);
        proof {
            assert(out@ == result);
            assert forall|x: Seq<char>| #[trigger] self.resolved_offset(x) == old_view_resolved(lo, fo, ao, x) by {}
            assert forall|x: Seq<char>| #[trigger] opt_int(self.resolved_offset(x)) == first_offset(
                setting_or(last_setting(body_labels(*old(self).db, items@, body_start), x), old(self).label_offset(x)),
                setting_or(last_setting(body_functions(*old(self).db, items@, body_start), x), old(self).function_offset(x)),
                setting_or(last_setting(body_actions(*old(self).db, items@, body_start), x), old(self).action_offset(x)),
            ) by {
                assert(opt_int(offset_of(lo, x)) == setting_or(
                    last_setting(body_labels(*old(self).db, items@, body_start), x),
                    old(self).label_offset(x),
                ));
                assert(opt_int(offset_of(fo, x)) == setting_or(
                    last_setting(body_functions(*old(self).db, items@, body_start), x),
                    old(self).function_offset(x),
                ));
                assert(opt_int(offset_of(ao, x)) == setting_or(
                    last_setting(body_actions(*old(self).db, items@, body_start), x),
                    old(self).action_offset(x),
                ));
            }
            assert(body_start == table_end + 2 * jump_table_end_marker_count);
            assert(self.relocs() == rs);
            assert(items@.take(items@.len() as int) =~= items@);
            assert(rs == base_relocs + body_relocs(*old(self).db, items@, body_start));
            assert(out0 == old(self).bytes());
            assert(unpatched == out0 + zeros((4 * table_size) as nat) + markers(jump_table_end_marker_count as nat)
                + body_image(*old(self).db, items@, body_start));
            assert forall|p: int|
                #![trigger result[p]]
                0 <= p < unpatched.len() && (forall|q: int|
                    0 <= q < rs.len() ==> !((#[trigger] rs[q]).0 <= p < rs[q].0 + 4)) implies result[p]
                    == unpatched[p] by {
                assert(result.take(patched.len() as int)[p] == result[p]);
                assert(patched[p] == unpatched[p]);
            }
            assert forall|q: int| 0 <= q < rs.len() implies #[trigger] old_view_resolved(lo, fo, ao, rs[q].1)
                is Some && result.subrange(rs[q].0 as int, rs[q].0 + 4) == le32(
                rel_word(old_view_resolved(lo, fo, ao, rs[q].1)->0 as int, rs[q].0 as int),
            ) by {
                assert(rs[q].0 == self.relocations@[q].offset);
                assert(result.take(patched.len() as int).subrange(rs[q].0 as int, rs[q].0 + 4) =~= result.subrange(
                    rs[q].0 as int,
                    rs[q].0 + 4,
                ));
            }
        }
        Ok(out)
    }
}

/// Slots are at most `u32::MAX - 1`: ids are reduced by one.
proof fn lemma_items_slots_bound(items: Seq<TopLevelItem>)
    ensures
        forall|q: int|
            0 <= q < items_slots(items).len() ==> (#[trigger] items_slots(items)[q]).0 < 0xffff_ffff,
    decreases items.len(),
{
    if items.len() > 0 {
        lemma_items_slots_bound(items.drop_last());
        let rest = items_slots(items.drop_last());
        assert forall|q: int|
            0 <= q < items_slots(items).len() implies (#[trigger] items_slots(items)[q]).0
            < 0xffff_ffff by {
            if q >= rest.len() {
                match items.last() {
                    TopLevelItem::Function(f) => {
                        let hs = header_slots(f.headers@);
                        assert(items_slots(items)[q] == hs.map_values(
                            |p: (u32, Seq<char>)| (if p.0 == 0 {
                                0u32
                            } else {
                                (p.0 - 1) as u32
                            }, p.1),
                        )[q - rest.len()]);
                    },
                    TopLevelItem::Action(_) => {},
                }
            }
        }
    }
}

/// When the table is not empty, its last slot is claimed.
proof fn lemma_table_len_last(slots: Seq<(u32, Seq<char>)>)
    ensures
        table_len(slots) > 0 ==> exists|q: int|
            0 <= q < slots.len() && (#[trigger] slots[q]).0 == table_len(slots) - 1,
    decreases slots.len(),
{
    if slots.len() > 0 {
        lemma_table_len_last(slots.drop_last());
        if table_len(slots) != slots.last().0 as nat + 1 {
            let q = choose|q: int|
                0 <= q < slots.drop_last().len() && (#[trigger] slots.drop_last()[q]).0
                    == table_len(slots.drop_last()) - 1;
            assert(slots[q] == slots.drop_last()[q]);
        }
    }
}

proof fn lemma_table_len_prefix(all: Seq<(u32, Seq<char>)>, k: int)
    requires
        0 <= k <= all.len(),
    ensures
        table_len(all.take(k)) <= table_len(all),
    decreases all.len() - k,
{
    if k < all.len() {
        assert(all.take(k + 1).drop_last() =~= all.take(k));
        lemma_table_len_prefix(all, k + 1);
    } else {
        assert(all.take(k) =~= all);
    }
}
} // verus!

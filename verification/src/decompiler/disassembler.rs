//! The disassembler: turns a script binary back into IR items (scripts and
//! movement actions), or recognises a level script and decodes that.
//!
//! A script binary starts with a jump table of relative `u32` offsets, one
//! per public script, closed by the marker `13 FD`. The code follows. The
//! disassembler finds every place control can reach (scripts, jump targets,
//! movement actions), names them, and cuts the code at those places.

use vstd::prelude::*;

use super::decomp_error::{invalid_format, DecompileError, DecompileResult};
use super::levelscript::{get_le16, get_le32, read_le16, read_le32, spec_from_bytes, LevelScript};
use crate::compiler::ast::FunctionHeader;
use crate::compiler::ir::{Arg, IrAction, IrFunction, IrOpcode, TopLevelItem};
use crate::compiler::preprocessor::{trim, trim_chars};
use crate::database::{
    index_of_id, index_of_mode, normalize_command_name, param_size, params_total,
    without_underscores, Command, CommandType, DatabaseV2, ParamDef,
};
use crate::text::{
    chars_eq, concat, contains_chars, contains_seq, is_prefix, parse_i32, parse_i32_spec,
    seq_to_lower, starts_with, str_chars, str_eq,
};

verus! {

/// What disassembling a binary gives.
#[derive(Debug, Clone)]
pub enum ScriptOutput {
    Normal(Vec<TopLevelItem>),
    Levelscript(LevelScript),
}

/// The two kinds of script binary.
#[derive(Debug, Clone, Copy, PartialEq, Eq, Structural)]
pub enum ScriptType {
    Normal,
    Levelscript,
}

/// Opcode of the movement that closes an action.
const END_MOVEMENT_OPCODE: u16 = 0xFE;

/// What a discovered offset is.
#[derive(Debug, Clone)]
enum LabelKind {
    /// The target of one or more jump-table slots.
    Script { slot_ids: Vec<u32> },
    /// A numbered function.
    #[allow(dead_code)]
    Function { id: u32 },
    /// A movement action.
    Action { id: u32 },
    /// A jump target inside the code.
    Internal,
}

/// The kind and name of a discovered offset.
#[derive(Debug, Clone)]
struct LabelInfo {
    kind: LabelKind,
    name: String,
}

/// The disassembler's state for one binary.
pub struct Disassembler<'a> {
    db: &'a DatabaseV2,
    bytes: Vec<u8>,
    script_type: ScriptType,
    jump_table_end: usize,
    has_jump_table_marker: bool,
    /// Jump-table targets and the slots that point there, by offset.
    script_slots: Vec<(usize, Vec<u32>)>,
    /// Named offsets; each offset at most once.
    symbols: Vec<(usize, LabelInfo)>,
    /// Offsets of movement actions; each at most once.
    action_offsets: Vec<usize>,
    #[allow(dead_code)]
    func_counter: u32,
    action_counter: u32,
}

// ---------------------------------------------------------------------------
// Size limits
// ---------------------------------------------------------------------------

/// Whether a command has a `relative_jump` parameter, the only kind whose
/// decoding can fail.
pub open spec fn has_jump_param(ps: Seq<ParamDef>) -> bool {
    exists|k: int| 0 <= k < ps.len() && (#[trigger] ps[k]).name@ == "relative_jump"@
}

/// A parameter list short enough that its encoded size fits in `isize`
/// (true of every list in memory: a parameter takes more than four bytes).
pub open spec fn params_fit(ps: Seq<ParamDef>) -> bool {
    4 * ps.len() <= isize::MAX
}

/// Every parameter list of `c` fits.
pub open spec fn command_fits(c: Command) -> bool {
    &&& params_fit(c.params@)
    &&& (c.variants matches Some(vs) ==> forall|k: int|
        0 <= k < vs@.len() ==> params_fit(#[trigger] vs@[k].params@))
}

/// Every parameter list of the database fits.
pub open spec fn db_fits(db: DatabaseV2) -> bool {
    forall|i: int| 0 <= i < db.commands@.len() ==> command_fits(#[trigger] db.commands@[i].1)
}

fn params_fit_check(ps: &Vec<ParamDef>) -> (b: bool)
    ensures
        b == params_fit(ps@),
{
    ps.len() <= (isize::MAX as usize) / 4
}

fn command_fits_check(c: &Command) -> (b: bool)
    ensures
        b == command_fits(*c),
{
    if !params_fit_check(&c.params) {
        return false;
    }
    match &c.variants {
        None => true,
        Some(vs) => {
            let mut k: usize = 0;
            while k < vs.len()
                invariant
                    k <= vs@.len(),
                    c.variants == Some(*vs),
                    forall|j: int| 0 <= j < k ==> params_fit(#[trigger] vs@[j].params@),
                decreases vs@.len() - k,
            {
                if !params_fit_check(&vs[k].params) {
                    return false;
                }
                k = k + 1;
            }
            true
        },
    }
}

/// Tells whether every parameter list of `db` fits, so that a caller can
/// establish what [`Disassembler::new`] and [`disassemble_bytes`] require.
pub fn db_fits_check(db: &DatabaseV2) -> (b: bool)
    ensures
        b == db_fits(*db),
{
    let mut i: usize = 0;
    while i < db.commands.len()
        invariant
            i <= db.commands@.len(),
            forall|j: int| 0 <= j < i ==> command_fits(#[trigger] db.commands@[j].1),
        decreases db.commands@.len() - i,
    {
        if !command_fits_check(&db.commands[i].1) {
            return false;
        }
        i = i + 1;
    }
    true
}

proof fn lemma_params_total_bound(ps: Seq<ParamDef>)
    ensures
        params_total(ps) <= 4 * ps.len(),
    decreases ps.len(),
{
    if ps.len() > 0 {
        lemma_params_total_bound(ps.drop_last());
    }
}

// ---------------------------------------------------------------------------
// The shape of a binary
// ---------------------------------------------------------------------------

/// Whether some complete 4-byte chunk of `b` starts with the jump-table
/// marker `13 FD`.
pub open spec fn has_table_terminator(b: Seq<u8>) -> bool {
    exists|i: int|
        0 <= i && i + 4 <= b.len() && i % 4 == 0 && #[trigger] b[i] == 0x13 && b[i + 1] == 0xFD
}

/// The kind of a binary: four zero bytes are an empty level script; a jump
/// table marker means a normal script; otherwise a non-zero seventh byte, or
/// zero fifth and sixth bytes (no valid address or command), mean a level
/// script.
pub open spec fn spec_detect(b: Seq<u8>) -> ScriptType {
    if b.len() == 4 && b[0] == 0 && b[1] == 0 && b[2] == 0 && b[3] == 0 {
        ScriptType::Levelscript
    } else if has_table_terminator(b) {
        ScriptType::Normal
    } else if (b.len() >= 7 && b[6] != 0) || (b.len() >= 6 && b[5] == 0 && b[4] == 0) {
        ScriptType::Levelscript
    } else {
        ScriptType::Normal
    }
}

/// The first position `p >= from` where `13 FD` occurs.
pub open spec fn marker_from(b: Seq<u8>, from: int) -> Option<int>
    decreases b.len() - from,
{
    if from < 0 || from + 2 > b.len() {
        None
    } else if b[from] == 0x13 && b[from + 1] == 0xFD {
        Some(from)
    } else {
        marker_from(b, from + 1)
    }
}

/// The absolute offset a jump-table entry at `i` names, as a 32-bit signed
/// sum of the stored relative offset and the end of the entry.
pub open spec fn entry_target(b: Seq<u8>, i: int) -> i32 {
    (read_le32(b, i) as i32).wrapping_add((i + 4) as i32)
}

/// The number of consecutive jump-table entries from `i` on whose targets
/// lie inside the binary.
pub open spec fn table_entries_from(b: Seq<u8>, i: int) -> nat
    decreases b.len() - i,
{
    if i < 0 || i + 4 > b.len() {
        0
    } else if 0 <= entry_target(b, i) && (entry_target(b, i) as int) < b.len() {
        1 + table_entries_from(b, i + 4)
    } else {
        0
    }
}

/// Where the jump table ends: at the marker, or, without one, after the
/// leading entries that point inside the binary.
pub open spec fn spec_table_end(b: Seq<u8>) -> int {
    match marker_from(b, 0) {
        Some(p) => p,
        None => (4 * table_entries_from(b, 0)) as int,
    }
}

/// The message of a jump table whose size is not a multiple of four.
pub open spec fn table_size_message(end: int) -> Seq<char> {
    "Jump table size "@ + crate::text::nat_to_decimal(end as nat) + " is not a multiple of 4"@
}

proof fn lemma_table_entries_bound(b: Seq<u8>, i: int)
    requires
        0 <= i,
    ensures
        i + 4 * table_entries_from(b, i) <= b.len() || table_entries_from(b, i) == 0,
    decreases b.len() - i,
{
    if i + 4 <= b.len() {
        lemma_table_entries_bound(b, i + 4);
    }
}

proof fn lemma_marker_from_bound(b: Seq<u8>, from: int)
    ensures
        marker_from(b, from) matches Some(p) ==> from <= p && p + 2 <= b.len() && b[p] == 0x13
            && b[p + 1] == 0xFD,
    decreases b.len() - from,
{
    if 0 <= from && from + 2 <= b.len() {
        lemma_marker_from_bound(b, from + 1);
    }
}

// ---------------------------------------------------------------------------
// Commands and their parameters
// ---------------------------------------------------------------------------

/// The parameters `get_variant_params` gives for `mode`.
pub open spec fn variant_params_of(c: Command, mode: u8) -> Seq<ParamDef> {
    match c.variants {
        Some(vs) => match index_of_mode(vs@, mode) {
            Some(k) => vs@[k].params@,
            None => c.params@,
        },
        None => c.params@,
    }
}

/// The parameters of command `c` whose operands start at `pos`: for a
/// command with variants, those of the variant chosen by the low byte of the
/// first operand, when that variant lists any; else the base parameters.
pub open spec fn params_at(b: Seq<u8>, pos: int, c: Command) -> Seq<ParamDef> {
    if c.variants is Some && pos + 2 <= b.len() && variant_params_of(c, b[pos]).len() > 0 {
        variant_params_of(c, b[pos])
    } else {
        c.params@
    }
}

/// The absolute target of a relative jump operand stored at `offset`: the
/// 32-bit sum of the operand's position, its value and four, as an address.
pub open spec fn rel_target(offset: int, raw: u32) -> usize {
    ((offset as i32).wrapping_add(raw as i32).wrapping_add(4i32)) as usize
}

/// The target of the first `relative_jump` parameter of `ps`, whose
/// operands start at `offset`, when its four bytes are inside `b`.
pub open spec fn jump_operand_target(b: Seq<u8>, ps: Seq<ParamDef>, offset: int) -> Option<usize>
    decreases ps.len(),
{
    if ps.len() == 0 {
        None
    } else if ps[0].name@ == "relative_jump"@ && offset + 4 <= b.len() {
        Some(rel_target(offset, read_le32(b, offset)))
    } else {
        jump_operand_target(b, ps.drop_first(), offset + param_size(ps[0].param_type))
    }
}

/// `name` equals `word` up to ASCII case (`word` is lower case).
pub open spec fn eq_ignore_case(name: Seq<char>, word: Seq<char>) -> bool {
    seq_to_lower(name) == word
}

/// Whether a command transfers control elsewhere.
pub open spec fn spec_is_jump_command(name: Seq<char>) -> bool {
    let key = seq_to_lower(without_underscores(name));
    contains_seq(key, "goto"@) || contains_seq(key, "jump"@) || is_prefix("call"@, key)
}

/// Whether a command names a movement action.
pub open spec fn spec_is_action_reference(name: Seq<char>) -> bool {
    let key = seq_to_lower(without_underscores(name));
    key == "applymovement"@ || key == "applymovementex"@ || key == "lockformovement"@
}

/// The value a default parameter text stands for: `TRUE`/`true` is 1,
/// `FALSE`/`false` is 0, `0x`/`0X` starts a hexadecimal number, anything
/// else is read as a decimal number; surrounding whitespace is ignored.
pub open spec fn default_value(s: Seq<char>) -> Option<int> {
    let t = trim(s);
    if t == "TRUE"@ || t == "true"@ {
        Some(1)
    } else if t == "FALSE"@ || t == "false"@ {
        Some(0)
    } else if t.len() >= 2 && t[0] == '0' && (t[1] == 'x' || t[1] == 'X') {
        parse_i32_spec(t.subrange(2, t.len() as int), 16)
    } else {
        parse_i32_spec(t, 10)
    }
}

/// Whether an argument is the value of its parameter's default.
pub open spec fn is_default_arg(a: Arg, p: ParamDef) -> bool {
    a matches Arg::Value(v) && (p.default matches Some(d) && default_value(d@) == Some(v as int))
}

/// How many leading arguments stay once the trailing ones that equal their
/// parameter's default are dropped.
pub open spec fn kept_args(args: Seq<Arg>, params: Seq<ParamDef>) -> nat
    decreases args.len(),
{
    if args.len() == 0 {
        0
    } else if args.len() - 1 < params.len() && is_default_arg(args.last(), params[args.len() - 1]) {
        kept_args(args.drop_last(), params)
    } else {
        args.len()
    }
}

/// Dropping trailing defaults loses nothing: every argument dropped is a
/// number equal to the default of its parameter, so the arguments kept,
/// followed by the defaults of the parameters after them, are the decoded
/// operands.
pub proof fn lemma_dropped_args_are_defaults(args: Seq<Arg>, params: Seq<ParamDef>)
    ensures
        kept_args(args, params) <= args.len(),
        forall|k: int|
            #![trigger args[k]]
            kept_args(args, params) <= k < args.len() ==> {
                &&& k < params.len()
                &&& params[k].default is Some
                &&& args[k] is Value
                &&& default_value(params[k].default->0@) == Some(args[k]->Value_0 as int)
            },
    decreases args.len(),
{
    if args.len() > 0 {
        lemma_dropped_args_are_defaults(args.drop_last(), params);
        assert forall|k: int|
            #![trigger args[k]]
            kept_args(args, params) <= k < args.len() implies {
                &&& k < params.len()
                &&& params[k].default is Some
                &&& args[k] is Value
                &&& default_value(params[k].default->0@) == Some(args[k]->Value_0 as int)
            } by {
            if k < args.len() - 1 {
                assert(args.drop_last()[k] == args[k]);
            }
        }
    }
}

proof fn lemma_kept_args_bound(args: Seq<Arg>, params: Seq<ParamDef>)
    ensures
        kept_args(args, params) <= args.len(),
    decreases args.len(),
{
    if args.len() > 0 {
        lemma_kept_args_bound(args.drop_last(), params);
    }
}

proof fn lemma_params_at_fit(b: Seq<u8>, pos: int, c: Command)
    requires
        command_fits(c),
    ensures
        params_fit(params_at(b, pos, c)),
{
    if c.variants is Some && pos + 2 <= b.len() {
        let vs = c.variants->0;
        crate::database::lemma_index_of_mode_bounds(vs@, b[pos]);
    }
}

fn is_jump_command(name: &str) -> (r: bool)
    ensures
        r == spec_is_jump_command(name@),
{
    let key = normalize_command_name(name);
    let k = str_chars(key.as_str());
    let goto = str_chars("goto");
    let jump = str_chars("jump");
    let call = str_chars("call");
    contains_chars(&k, &goto) || contains_chars(&k, &jump) || starts_with(&k, &call)
}

fn is_action_reference(name: &str) -> (r: bool)
    ensures
        r == spec_is_action_reference(name@),
{
    let key = normalize_command_name(name);
    str_eq(key.as_str(), "applymovement") || str_eq(key.as_str(), "applymovementex") || str_eq(
        key.as_str(),
        "lockformovement",
    )
}

fn eq_ignore_ascii_case(name: &str, word: &str) -> (r: bool)
    ensures
        r == eq_ignore_case(name@, word@),
{
    let chars = str_chars(name);
    let lowered = crate::text::chars_to_lower(&chars);
    let w = str_chars(word);
    chars_eq(&lowered, &w)
}

fn is_hard_terminator_name(name: &str) -> (r: bool)
    ensures
        r == eq_ignore_case(name@, "end"@),
{
    eq_ignore_ascii_case(name, "end")
}

fn is_soft_terminator_name(name: &str) -> (r: bool)
    ensures
        r == eq_ignore_case(name@, "return"@),
{
    eq_ignore_ascii_case(name, "return")
}

fn is_end_movement_name(name: &str) -> (r: bool)
    ensures
        r == (eq_ignore_case(name@, "endmovement"@) || eq_ignore_case(name@, "end_movement"@)
            || eq_ignore_case(name@, "step_end"@)),
{
    eq_ignore_ascii_case(name, "endmovement") || eq_ignore_ascii_case(name, "end_movement")
        || eq_ignore_ascii_case(name, "step_end")
}

fn parse_default_value(default_str: &str) -> (r: Option<i32>)
    ensures
        match default_value(default_str@) {
            Some(v) => r == Some(v as i32),
            None => r is None,
        },
{
    let raw = str_chars(default_str);
    let t = trim_chars(&raw);
    let upper_true = str_chars("TRUE");
    let lower_true = str_chars("true");
    let upper_false = str_chars("FALSE");
    let lower_false = str_chars("false");
    if chars_eq(&t, &upper_true) || chars_eq(&t, &lower_true) {
        Some(1)
    } else if chars_eq(&t, &upper_false) || chars_eq(&t, &lower_false) {
        Some(0)
    } else if t.len() >= 2 && t[0] == '0' && (t[1] == 'x' || t[1] == 'X') {
        let mut hex: Vec<char> = Vec::new();
        let mut i: usize = 2;
        while i < t.len()
            invariant
                2 <= i <= t@.len(),
                hex@ == t@.subrange(2, i as int),
            decreases t.len() - i,
        {
            hex.push(t[i]);
            i = i + 1;
            assert(hex@ =~= t@.subrange(2, i as int));
        }
        parse_i32(&hex, 16)
    } else {
        parse_i32(&t, 10)
    }
}

/// The total encoded size of a parameter list.
fn params_size_of(ps: &[ParamDef]) -> (r: usize)
    requires
        params_fit(ps@),
    ensures
        r == params_total(ps@),
        r <= isize::MAX,
{
    let mut total: usize = 0;
    let mut i: usize = 0;
    while i < ps.len()
        invariant
            i <= ps@.len(),
            params_fit(ps@),
            total == params_total(ps@.take(i as int)),
            total <= 4 * i,
        decreases ps.len() - i,
    {
        assert(ps@.take(i + 1).drop_last() =~= ps@.take(i as int));
        total = total + ps[i].param_type.size();
        i = i + 1;
    }
    assert(ps@.take(ps@.len() as int) =~= ps@);
    total
}

// ---------------------------------------------------------------------------
// Movement runs and terminators
// ---------------------------------------------------------------------------

/// Whether the movement records from `pos` (each four bytes, up to `limit`)
/// are known movements closed by an end-of-movement record, with at least
/// one movement before it once `started`.
pub open spec fn movement_run(db: DatabaseV2, b: Seq<u8>, pos: int, limit: int, started: bool) -> bool
    decreases limit - pos,
{
    if pos + 4 > limit {
        false
    } else if read_le16(b, pos) == 0xFE {
        started
    } else if index_of_id(db.commands@, CommandType::Movement, read_le16(b, pos)) is None {
        false
    } else {
        movement_run(db, b, pos + 4, limit, true)
    }
}

/// Whether a movement sequence (one or more movements, then the end record)
/// starts at `start` and ends before `end`.
pub open spec fn spec_has_movement_sequence(db: DatabaseV2, b: Seq<u8>, start: int, end: int) -> bool {
    if start + 4 > b.len() || start >= end {
        false
    } else {
        movement_run(db, b, start, if end < b.len() { end } else { b.len() as int }, false)
    }
}

/// `x` rounded up to a multiple of four.
pub open spec fn align4(x: int) -> int {
    if x % 4 == 0 {
        x
    } else {
        x + 4 - x % 4
    }
}

/// Whether the end-of-movement record `FE 00 00 00` is at `pos`.
pub open spec fn end_record_at(b: Seq<u8>, pos: int) -> bool {
    0 <= pos && pos + 4 <= b.len() && b[pos] == 0xFE && b[pos + 1] == 0 && b[pos + 2] == 0 && b[pos
        + 3] == 0
}

/// The first end-of-movement record at `pos`, `pos + 4`, ... before `limit`.
pub open spec fn end_record_from(b: Seq<u8>, pos: int, limit: int) -> Option<int>
    decreases limit - pos,
{
    if pos >= limit {
        None
    } else if end_record_at(b, pos) {
        Some(pos)
    } else if pos + 4 >= limit {
        None
    } else {
        end_record_from(b, pos + 4, limit)
    }
}

/// The next aligned end-of-movement record at or after `start`, before `end`.
pub open spec fn spec_next_terminator(b: Seq<u8>, start: int, end: int) -> Option<int> {
    if start + 4 > b.len() || start >= end {
        None
    } else {
        end_record_from(
            b,
            align4(start),
            if end < b.len() - 3 {
                end
            } else {
                b.len() - 3
            },
        )
    }
}

proof fn lemma_end_record_from_bound(b: Seq<u8>, pos: int, limit: int)
    ensures
        end_record_from(b, pos, limit) matches Some(p) ==> pos <= p < limit && end_record_at(b, p)
            && (p - pos) % 4 == 0,
    decreases limit - pos,
{
    if pos + 4 < limit && !end_record_at(b, pos) {
        lemma_end_record_from_bound(b, pos + 4, limit);
    }
}

// ---------------------------------------------------------------------------
// The symbol table
// ---------------------------------------------------------------------------

spec fn symbol_keys(s: Seq<(usize, LabelInfo)>) -> Seq<usize> {
    s.map_values(|p: (usize, LabelInfo)| p.0)
}

spec fn slot_keys(s: Seq<(usize, Vec<u32>)>) -> Seq<usize> {
    s.map_values(|p: (usize, Vec<u32>)| p.0)
}

spec fn has_symbol(s: Seq<(usize, LabelInfo)>, off: usize) -> bool {
    exists|i: int| 0 <= i < s.len() && (#[trigger] s[i]).0 == off
}

spec fn slots_sorted(s: Seq<(usize, Vec<u32>)>) -> bool {
    forall|i: int, j: int| 0 <= i < j < s.len() ==> (#[trigger] s[i]).0 < (#[trigger] s[j]).0
}

/// The offsets of `targets`, in order, that lie in `code_start..len` and
/// have no name in `syms`.
spec fn fresh_targets(targets: Seq<usize>, code_start: int, len: int, syms: Seq<(usize, LabelInfo)>) -> Seq<usize>
    decreases targets.len(),
{
    if targets.len() == 0 {
        Seq::empty()
    } else {
        let rest = fresh_targets(targets.drop_last(), code_start, len, syms);
        let t = targets.last();
        if code_start <= t < len && !has_symbol(syms, t) {
            rest.push(t)
        } else {
            rest
        }
    }
}

/// The nearest of the offsets `acts` after `pc` and at most `end`.
spec fn nearest_action(acts: Seq<usize>, pc: int, end: int) -> Option<usize>
    decreases acts.len(),
{
    if acts.len() == 0 {
        None
    } else {
        let rest = nearest_action(acts.drop_last(), pc, end);
        let off = acts.last();
        if off > pc && off <= end {
            match rest {
                Some(b) => if off < b {
                    Some(off)
                } else {
                    Some(b)
                },
                None => Some(off),
            }
        } else {
            rest
        }
    }
}

/// Whether a name other than an action's lies in `from..to`.
spec fn code_label_in(syms: Seq<(usize, LabelInfo)>, from: int, to: int) -> bool {
    exists|i: int| 0 <= i < syms.len() && from <= (#[trigger] syms[i]).0 < to && !(syms[i].1.kind is Action)
}

/// `pc + 3` in `usize` arithmetic that wraps, rounded down to a multiple of
/// four.
spec fn wrapped_align(pc: usize) -> usize {
    let w: usize = if pc + 3 > usize::MAX {
        (pc + 3 - usize::MAX - 1) as usize
    } else {
        (pc + 3) as usize
    };
    w & !3usize
}

/// The offsets `0..n`.
spec fn offsets_below(n: nat) -> Seq<usize> {
    Seq::new(n, |i: int| i as usize)
}

/// A sequence without repeats, all of whose elements occur in `u`, is no
/// longer than `u`.
proof fn lemma_distinct_within(s: Seq<usize>, u: Seq<usize>)
    requires
        s.no_duplicates(),
        forall|i: int| 0 <= i < s.len() ==> u.contains(#[trigger] s[i]),
    ensures
        s.len() <= u.len(),
    decreases s.len(),
{
    if s.len() > 0 {
        let x = s.last();
        assert(u.contains(s[s.len() - 1]));
        let k = choose|k: int| 0 <= k < u.len() && u[k] == x;
        let u2 = u.remove(k);
        let s2 = s.drop_last();
        assert forall|i: int| 0 <= i < s2.len() implies u2.contains(#[trigger] s2[i]) by {
            let y = s2[i];
            assert(y == s[i]);
            assert(y != x);
            assert(u.contains(s[i]));
            let j = choose|j: int| 0 <= j < u.len() && u[j] == y;
            if j < k {
                assert(u2[j] == y);
            } else {
                assert(u2[j - 1] == y);
            }
        }
        assert(s2.no_duplicates()) by {
            assert forall|a: int, c: int| 0 <= a < s2.len() && 0 <= c < s2.len() && a != c implies s2[a]
                != s2[c] by {
                assert(s2[a] == s[a] && s2[c] == s[c]);
            }
        }
        lemma_distinct_within(s2, u2);
    }
}

impl<'a> Disassembler<'a> {
    /// The binary being disassembled.
    pub closed spec fn bytes_of(&self) -> Seq<u8> {
        self.bytes@
    }

    /// The command database the disassembler reads.
    pub closed spec fn database(&self) -> DatabaseV2 {
        *self.db
    }

    spec fn code_start_spec(&self) -> int {
        if self.has_jump_table_marker {
            self.jump_table_end + 2
        } else {
            self.jump_table_end as int
        }
    }

    /// The state is consistent: sizes fit, each offset is named at most once,
    /// named offsets are inside the binary or jump-table targets, and action
    /// offsets are distinct and inside the binary.
    pub closed spec fn wf(&self) -> bool {
        &&& self.bytes@.len() <= isize::MAX
        &&& db_fits(*self.db)
        &&& self.code_start_spec() <= self.bytes@.len()
        &&& symbol_keys(self.symbols@).no_duplicates()
        &&& forall|i: int|
            0 <= i < self.symbols@.len() ==> (#[trigger] self.symbols@[i]).0 < self.bytes@.len()
                || slot_keys(self.script_slots@).contains(self.symbols@[i].0)
        &&& slots_sorted(self.script_slots@)
        &&& forall|k: int|
            0 <= k < self.script_slots@.len() ==> (#[trigger] self.script_slots@[k]).1@.len() > 0
        &&& forall|i: int|
            0 <= i < self.symbols@.len() ==> ((#[trigger] self.symbols@[i]).1.kind matches LabelKind::Script {
                slot_ids,
            } ==> slot_ids@.len() > 0)
        &&& self.action_offsets@.no_duplicates()
        &&& forall|i: int|
            0 <= i < self.action_offsets@.len() ==> #[trigger] self.action_offsets@[i]
                < self.bytes@.len()
    }

    /// How many more offsets can still be named or marked as actions.
    spec fn room(&self) -> int {
        2 * self.bytes@.len() + self.script_slots@.len() - self.symbols@.len()
            - self.action_offsets@.len()
    }

    /// The discovery state only grows: the binary, database, jump table and
    /// slots stay, and symbols and action offsets are only appended.
    spec fn grows_to(&self, next: &Self) -> bool {
        &&& next.bytes@ == self.bytes@
        &&& next.db == self.db
        &&& next.jump_table_end == self.jump_table_end
        &&& next.has_jump_table_marker == self.has_jump_table_marker
        &&& next.script_slots@ == self.script_slots@
        &&& next.script_type == self.script_type
        &&& self.symbols@.len() <= next.symbols@.len()
        &&& next.symbols@.subrange(0, self.symbols@.len() as int) == self.symbols@
        &&& self.action_offsets@.len() <= next.action_offsets@.len()
        &&& next.action_offsets@.subrange(0, self.action_offsets@.len() as int)
            == self.action_offsets@
    }

    proof fn lemma_room(&self)
        requires
            self.wf(),
        ensures
            self.room() >= 0,
            self.symbols@.len() <= self.bytes@.len() + self.script_slots@.len(),
            self.action_offsets@.len() <= self.bytes@.len(),
    {
        let n = self.bytes@.len();
        let u = offsets_below(n) + slot_keys(self.script_slots@);
        let keys = symbol_keys(self.symbols@);
        assert forall|i: int| 0 <= i < keys.len() implies u.contains(#[trigger] keys[i]) by {
            let k = keys[i];
            assert(k == self.symbols@[i].0);
            if k < n {
                assert(u[k as int] == k);
            } else {
                let sk = slot_keys(self.script_slots@);
                assert(sk.contains(k));
                let j = choose|j: int| 0 <= j < sk.len() && sk[j] == k;
                assert(u[n + j] == k);
            }
        }
        lemma_distinct_within(keys, u);
        let a = self.action_offsets@;
        let v = offsets_below(n);
        assert forall|i: int| 0 <= i < a.len() implies v.contains(#[trigger] a[i]) by {
            assert(v[a[i] as int] == a[i]);
        }
        lemma_distinct_within(a, v);
    }

    /// A disassembler for `bytes`, reading commands from `db`. The length of a
    /// byte vector and the sizes of the database's parameter lists always fit.
    pub fn new(db: &'a DatabaseV2, bytes: Vec<u8>) -> (r: Self)
        requires
            bytes@.len() <= isize::MAX,
            db_fits(*db),
        ensures
            r.wf(),
            r.bytes_of() == bytes@,
            r.database() == *db,
    {
        Disassembler {
            db,
            bytes,
            script_type: ScriptType::Normal,
            jump_table_end: 0,
            has_jump_table_marker: false,
            script_slots: Vec::new(),
            symbols: Vec::new(),
            action_offsets: Vec::new(),
            func_counter: 0,
            action_counter: 0,
        }
    }

    fn symbol_index(&self, off: usize) -> (r: Option<usize>)
        ensures
            match r {
                Some(i) => i < self.symbols@.len() && self.symbols@[i as int].0 == off,
                None => !has_symbol(self.symbols@, off),
            },
    {
        let mut i: usize = 0;
        while i < self.symbols.len()
            invariant
                i <= self.symbols@.len(),
                forall|j: int| 0 <= j < i ==> (#[trigger] self.symbols@[j]).0 != off,
            decreases self.symbols.len() - i,
        {
            if self.symbols[i].0 == off {
                return Some(i);
            }
            i = i + 1;
        }
        None
    }

    fn contains_symbol(&self, off: usize) -> (r: bool)
        ensures
            r == has_symbol(self.symbols@, off),
    {
        self.symbol_index(off).is_some()
    }

    fn is_action_offset(&self, off: usize) -> (r: bool)
        ensures
            r == self.action_offsets@.contains(off),
    {
        let mut i: usize = 0;
        while i < self.action_offsets.len()
            invariant
                i <= self.action_offsets@.len(),
                forall|j: int| 0 <= j < i ==> self.action_offsets@[j] != off,
            decreases self.action_offsets.len() - i,
        {
            if self.action_offsets[i] == off {
                return true;
            }
            i = i + 1;
        }
        false
    }

    /// Names a new offset inside the binary.
    fn add_symbol(&mut self, off: usize, info: LabelInfo)
        requires
            old(self).wf(),
            off < old(self).bytes@.len(),
            !has_symbol(old(self).symbols@, off),
            !(info.kind is Script),
        ensures
            final(self).wf(),
            old(self).grows_to(&*final(self)),
            final(self).symbols@ == old(self).symbols@.push((off, info)),
            final(self).action_offsets@ == old(self).action_offsets@,
            final(self).action_counter == old(self).action_counter,
    {
        let ghost before = self.symbols@;
        self.symbols.push((off, info));
        proof {
            assert(symbol_keys(self.symbols@) =~= symbol_keys(before).push(off));
            assert forall|i: int| 0 <= i < symbol_keys(before).len() implies symbol_keys(before)[i]
                != off by {
                assert(symbol_keys(before)[i] == before[i].0);
            }
            assert(self.symbols@.subrange(0, before.len() as int) =~= before);
            assert(self.action_offsets@.subrange(0, self.action_offsets@.len() as int)
                =~= self.action_offsets@);
        }
    }

    /// Marks an offset inside the binary as a movement action.
    fn add_action_offset(&mut self, off: usize)
        requires
            old(self).wf(),
            off < old(self).bytes@.len(),
        ensures
            final(self).wf(),
            old(self).grows_to(&*final(self)),
            final(self).symbols@ == old(self).symbols@,
            final(self).action_offsets@.contains(off),
            final(self).action_counter == old(self).action_counter,
            old(self).action_offsets@.contains(off) ==> final(self).action_offsets@ == old(
                self,
            ).action_offsets@,
    {
        proof {
            assert(self.symbols@.subrange(0, self.symbols@.len() as int) =~= self.symbols@);
            assert(self.action_offsets@.subrange(0, self.action_offsets@.len() as int)
                =~= self.action_offsets@);
        }
        if !self.is_action_offset(off) {
            let ghost before = self.action_offsets@;
            self.action_offsets.push(off);
            proof {
                assert(self.action_offsets@[before.len() as int] == off);
                assert(self.action_offsets@.subrange(0, before.len() as int) =~= before);
            }
        }
    }

    /// The next action number; numbers wrap around after `u32::MAX`.
    fn next_action_id(&mut self) -> (r: u32)
        ensures
            r == old(self).action_counter,
            final(self).action_counter == old(self).action_counter.wrapping_add(1),
            final(self).bytes == old(self).bytes,
            final(self).db == old(self).db,
            final(self).jump_table_end == old(self).jump_table_end,
            final(self).has_jump_table_marker == old(self).has_jump_table_marker,
            final(self).script_slots == old(self).script_slots,
            final(self).script_type == old(self).script_type,
            final(self).symbols == old(self).symbols,
            final(self).action_offsets == old(self).action_offsets,
    {
        let id = self.action_counter;
        self.action_counter = self.action_counter.wrapping_add(1);
        id
    }

    fn detect_script_type(&self) -> (r: ScriptType)
        ensures
            r == spec_detect(self.bytes@),
    {
        let b = &self.bytes;
        let len = b.len();
        if len == 4 && b[0] == 0 && b[1] == 0 && b[2] == 0 && b[3] == 0 {
            return ScriptType::Levelscript;
        }
        let mut i: usize = 0;
        while i <= len && len - i >= 4
            invariant
                len == b@.len(),
                b@ == self.bytes@,
                !(len == 4 && b@[0] == 0 && b@[1] == 0 && b@[2] == 0 && b@[3] == 0),
                i % 4 == 0,
                i <= len,
                forall|j: int|
                    0 <= j < i && j % 4 == 0 && j + 4 <= len ==> !(#[trigger] b@[j] == 0x13 && b@[j
                        + 1] == 0xFD),
            decreases len - i,
        {
            if b[i] == 0x13 && b[i + 1] == 0xFD {
                assert(has_table_terminator(b@)) by {
                    assert(b@[i as int] == 0x13);
                }
                return ScriptType::Normal;
            }
            i = i + 4;
        }
        assert(!has_table_terminator(b@)) by {
            if has_table_terminator(b@) {
                let j = choose|j: int|
                    0 <= j && j + 4 <= b@.len() && j % 4 == 0 && #[trigger] b@[j] == 0x13 && b@[j + 1]
                        == 0xFD;
                assert(j < i);
            }
        }
        if (len >= 7 && b[6] != 0) || (len >= 6 && b[5] == 0 && b[4] == 0) {
            ScriptType::Levelscript
        } else {
            ScriptType::Normal
        }
    }

    fn find_jump_table_boundary(&self) -> (r: usize)
        requires
            self.bytes@.len() <= isize::MAX,
        ensures
            r == 4 * table_entries_from(self.bytes@, 0),
            r <= self.bytes@.len(),
    {
        let b = &self.bytes;
        let len = b.len();
        let mut count: usize = 0;
        let mut i: usize = 0;
        while i + 4 <= len
            invariant
                len == b@.len(),
                b@ == self.bytes@,
                len <= isize::MAX,
                i == 4 * count,
                i <= len,
                table_entries_from(b@, 0) == count + table_entries_from(b@, i as int),
            decreases len - i,
        {
            let s: i32 = (get_le32(b, i) as i32).wrapping_add(#[verifier::truncate] ((i + 4) as i32));
            assert(s == entry_target(b@, i as int));
            if s >= 0 && (s as i64) < (len as i64) {
                count = count + 1;
                i = i + 4;
            } else {
                assert(table_entries_from(b@, i as int) == 0);
                return i;
            }
        }
        assert(table_entries_from(b@, i as int) == 0);
        i
    }

    fn code_start(&self) -> (r: usize)
        requires
            self.wf(),
        ensures
            r == self.code_start_spec(),
    {
        if self.has_jump_table_marker {
            self.jump_table_end + 2
        } else {
            self.jump_table_end
        }
    }

    fn get_variant_params_at<'b>(&'b self, start: usize, cmd: &'b Command) -> (r: &'b [ParamDef])
        ensures
            r@ == params_at(self.bytes@, start as int, *cmd),
    {
        if cmd.variants.is_some() && start < self.bytes.len() && self.bytes.len() - start >= 2 {
            // The variant mode is the low byte of the little-endian first operand.
            let mode = self.bytes[start];
            let variant_params = cmd.get_variant_params(mode);
            if variant_params.len() > 0 {
                return variant_params;
            }
        }
        cmd.params.as_slice()
    }

    fn command_size_at(&self, pc: usize, cmd: &Command) -> (r: usize)
        requires
            command_fits(*cmd),
            pc + 2 <= self.bytes@.len(),
            self.bytes@.len() <= isize::MAX,
        ensures
            r == params_total(params_at(self.bytes@, pc + 2, *cmd)),
            r <= isize::MAX,
    {
        let params = self.get_variant_params_at(pc + 2, cmd);
        proof {
            lemma_params_at_fit(self.bytes@, pc + 2, *cmd);
        }
        params_size_of(params)
    }

    fn extract_jump_target(&self, pc: usize, cmd: &Command) -> (r: Option<usize>)
        requires
            command_fits(*cmd),
            pc + 2 <= self.bytes@.len(),
            self.bytes@.len() <= isize::MAX,
        ensures
            r == jump_operand_target(self.bytes@, params_at(self.bytes@, pc + 2, *cmd), pc + 2),
    {
        let mut offset = pc + 2;
        let params = self.get_variant_params_at(offset, cmd);
        let ghost ps = params@;
        proof {
            lemma_params_at_fit(self.bytes@, pc + 2, *cmd);
            lemma_params_total_bound(ps);
        }
        let mut i: usize = 0;
        assert(ps.subrange(0, ps.len() as int) =~= ps);
        while i < params.len()
            invariant
                ps == params@,
                ps == params_at(self.bytes@, pc + 2, *cmd),
                params_fit(ps),
                i <= ps.len(),
                offset == pc + 2 + params_total(ps.take(i as int)),
                params_total(ps.take(i as int)) <= 4 * i,
                pc + 2 <= self.bytes@.len(),
                self.bytes@.len() <= isize::MAX,
                jump_operand_target(self.bytes@, ps, pc + 2) == jump_operand_target(
                    self.bytes@,
                    ps.subrange(i as int, ps.len() as int),
                    offset as int,
                ),
            decreases params.len() - i,
        {
            let ghost rest = ps.subrange(i as int, ps.len() as int);
            assert(rest[0] == ps[i as int]);
            let size = params[i].param_type.size();
            if str_eq(params[i].name.as_str(), "relative_jump") && offset < self.bytes.len()
                && self.bytes.len() - offset >= 4 {
                let raw = get_le32(&self.bytes, offset);
                assert(rest[0].name@ == "relative_jump"@);
                assert(jump_operand_target(self.bytes@, rest, offset as int) == Some(rel_target(offset as int, raw)));
                return Some(((offset as i32).wrapping_add(raw as i32).wrapping_add(4)) as usize);
            }
            assert(rest.drop_first() =~= ps.subrange(i + 1, ps.len() as int));
            assert(ps.take(i + 1).drop_last() =~= ps.take(i as int));
            offset = offset + size;
            i = i + 1;
        }
        None
    }

    fn extract_action_offset(&self, pc: usize, cmd: &Command) -> (r: Option<usize>)
        requires
            command_fits(*cmd),
            pc + 2 <= self.bytes@.len(),
            self.bytes@.len() <= isize::MAX,
        ensures
            r == jump_operand_target(self.bytes@, params_at(self.bytes@, pc + 2, *cmd), pc + 2),
    {
        self.extract_jump_target(pc, cmd)
    }

    fn has_movement_sequence_at(&self, start: usize, end: usize) -> (r: bool)
        ensures
            r == spec_has_movement_sequence(*self.db, self.bytes@, start as int, end as int),
    {
        let len = self.bytes.len();
        if len < 4 || start > len - 4 || start >= end {
            return false;
        }
        let scan_limit = if end < len {
            end
        } else {
            len
        };
        let mut pos = start;
        let mut started = false;
        while pos <= scan_limit && scan_limit - pos >= 4
            invariant
                len == self.bytes@.len(),
                scan_limit <= len,
                start <= pos,
                spec_has_movement_sequence(*self.db, self.bytes@, start as int, end as int)
                    == movement_run(*self.db, self.bytes@, pos as int, scan_limit as int, started),
            decreases scan_limit - pos,
        {
            let opcode = get_le16(&self.bytes, pos);
            if opcode == END_MOVEMENT_OPCODE {
                return started;
            }
            if self.db.get_movement_by_id(opcode).is_none() {
                return false;
            }
            started = true;
            pos = pos + 4;
        }
        false
    }

    fn find_next_terminator(&self, start: usize, end: usize) -> (r: Option<usize>)
        ensures
            match spec_next_terminator(self.bytes@, start as int, end as int) {
                Some(p) => r == Some(p as usize),
                None => r is None,
            },
            r matches Some(p) ==> start <= p < end && p + 4 <= self.bytes@.len(),
    {
        let len = self.bytes.len();
        if len < 4 || start > len - 4 || start >= end {
            return None;
        }
        let aligned_start = if start % 4 == 0 {
            start
        } else {
            start + (4 - start % 4)
        };
        let search_end = if end < len - 3 {
            end
        } else {
            len - 3
        };
        let mut pos = aligned_start;
        proof {
            lemma_end_record_from_bound(self.bytes@, aligned_start as int, search_end as int);
        }
        while pos < search_end
            invariant
                pos <= search_end + 3,
                len == self.bytes@.len(),
                len >= 4,
                search_end <= len - 3,
                start <= aligned_start <= pos,
                spec_next_terminator(self.bytes@, start as int, end as int) == end_record_from(
                    self.bytes@,
                    pos as int,
                    search_end as int,
                ),
                search_end <= end,
            decreases search_end + 4 - pos,
        {
            if self.bytes[pos] == 0xFE && self.bytes[pos + 1] == 0 && self.bytes[pos + 2] == 0
                && self.bytes[pos + 3] == 0 {
                return Some(pos);
            }
            pos = pos + 4;
        }
        assert(end_record_from(self.bytes@, pos as int, search_end as int) is None);
        None
    }

    /// The script command whose opcode is stored at `pc`.
    fn script_cmd_at(&self, pc: usize) -> (r: Option<(&'a String, &'a Command)>)
        requires
            self.wf(),
            pc + 2 <= self.bytes@.len(),
        ensures
            match index_of_id(self.db.commands@, CommandType::ScriptCmd, read_le16(self.bytes@, pc as int)) {
                Some(i) => r matches Some(p) && *p.0 == self.db.commands@[i].0 && *p.1
                    == self.db.commands@[i].1,
                None => r is None,
            },
            r matches Some(p) ==> command_fits(*p.1),
    {
        let db: &'a DatabaseV2 = self.db;
        let opcode = get_le16(&self.bytes, pc);
        proof {
            crate::database::lemma_index_of_id_bounds(db.commands@, CommandType::ScriptCmd, opcode);
        }
        db.get_script_cmd_by_id(opcode)
    }

    /// Reads the jump table: its end, the slots each target offset serves,
    /// and a script label for each target.
    fn parse_jump_table(&mut self) -> (r: DecompileResult<()>)
        requires
            old(self).wf(),
        ensures
            final(self).wf(),
            final(self).bytes@ == old(self).bytes@,
            final(self).db == old(self).db,
            final(self).action_offsets@ == old(self).action_offsets@,
            final(self).jump_table_end == spec_table_end(old(self).bytes@),
            final(self).has_jump_table_marker == marker_from(old(self).bytes@, 0) is Some,
            match r {
                Ok(_) => spec_table_end(old(self).bytes@) % 4 == 0,
                Err(e) => spec_table_end(old(self).bytes@) % 4 != 0 && e == (DecompileError::InvalidFormat {
                    message: e->InvalidFormat_message,
                }) && e->InvalidFormat_message@ == table_size_message(spec_table_end(old(self).bytes@)),
            },
    {
        let ghost b = self.bytes@;
        let marker_pos = self.find_marker();
        proof {
            lemma_marker_from_bound(b, 0);
        }
        let table_end = match marker_pos {
            Some(p) => p,
            None => self.find_jump_table_boundary(),
        };
        self.has_jump_table_marker = marker_pos.is_some();
        self.jump_table_end = table_end;
        if table_end % 4 != 0 {
            let n = crate::text::usize_to_string(table_end);
            let message = crate::text::concat3("Jump table size ", n.as_str(), " is not a multiple of 4");
            return Err(invalid_format(message));
        }
        let entry_count = table_end / 4;
        let mut i: usize = 0;
        while i < entry_count
            invariant
                self.wf(),
                self.bytes@ == b,
                self.db == old(self).db,
                self.action_offsets@ == old(self).action_offsets@,
                self.jump_table_end == table_end,
                self.has_jump_table_marker == marker_pos is Some,
                entry_count * 4 == table_end,
                table_end <= b.len(),
                i <= entry_count,
            decreases entry_count - i,
        {
            let raw = get_le32(&self.bytes, i * 4);
            let step: i32 = (#[verifier::truncate] (i as i32)).wrapping_add(1).wrapping_mul(4);
            let abs = #[verifier::truncate] ((raw as i32).wrapping_add(step) as usize);
            self.add_slot(abs, #[verifier::truncate] (i as u32));
            i = i + 1;
        }
        let mut k: usize = 0;
        while k < self.script_slots.len()
            invariant
                self.wf(),
                self.bytes@ == b,
                self.db == old(self).db,
                self.action_offsets@ == old(self).action_offsets@,
                self.jump_table_end == table_end,
                self.has_jump_table_marker == marker_pos is Some,
                k <= self.script_slots@.len(),
            decreases self.script_slots.len() - k,
        {
            let offset = self.script_slots[k].0;
            let slot_ids = self.script_slots[k].1.clone();
            let first = slot_ids[0];
            let id_text = crate::text::u64_to_string(first as u64);
            let name = concat("script_", id_text.as_str());
            proof {
                assert(slot_keys(self.script_slots@)[k as int] == offset);
            }
            self.set_symbol(offset, LabelInfo { kind: LabelKind::Script { slot_ids }, name });
            k = k + 1;
        }
        Ok(())
    }

    fn find_marker(&self) -> (r: Option<usize>)
        ensures
            match marker_from(self.bytes@, 0) {
                Some(p) => r == Some(p as usize),
                None => r is None,
            },
    {
        let len = self.bytes.len();
        let mut p: usize = 0;
        while p < len && len - p >= 2
            invariant
                len == self.bytes@.len(),
                p <= len,
                marker_from(self.bytes@, 0) == marker_from(self.bytes@, p as int),
            decreases len - p,
        {
            if self.bytes[p] == 0x13 && self.bytes[p + 1] == 0xFD {
                return Some(p);
            }
            p = p + 1;
        }
        None
    }

    /// Records that jump-table slot `slot` points at `off`.
    fn add_slot(&mut self, off: usize, slot: u32)
        requires
            old(self).wf(),
        ensures
            final(self).wf(),
            final(self).bytes@ == old(self).bytes@,
            final(self).db == old(self).db,
            final(self).symbols@ == old(self).symbols@,
            final(self).action_offsets@ == old(self).action_offsets@,
            final(self).jump_table_end == old(self).jump_table_end,
            final(self).has_jump_table_marker == old(self).has_jump_table_marker,
            slot_keys(final(self).script_slots@).contains(off),
    {
        let ghost old_keys = slot_keys(self.script_slots@);
        let mut k: usize = 0;
        while k < self.script_slots.len() && self.script_slots[k].0 < off
            invariant
                k <= self.script_slots@.len(),
                forall|j: int| 0 <= j < k ==> (#[trigger] self.script_slots@[j]).0 < off,
            decreases self.script_slots.len() - k,
        {
            k = k + 1;
        }
        let ghost before = self.script_slots@;
        if k < self.script_slots.len() && self.script_slots[k].0 == off {
            let mut entry = self.script_slots.remove(k);
            entry.1.push(slot);
            self.script_slots.insert(k, entry);
            proof {
                assert(self.script_slots@ =~= before.update(k as int, entry));
                assert(slot_keys(self.script_slots@) =~= old_keys);
                assert(slot_keys(self.script_slots@)[k as int] == off);
            }
        } else {
            let mut ids: Vec<u32> = Vec::new();
            ids.push(slot);
            self.script_slots.insert(k, (off, ids));
            proof {
                let ns = self.script_slots@;
                assert(slot_keys(ns) =~= old_keys.insert(k as int, off));
                assert(slot_keys(ns)[k as int] == off);
                assert forall|x: usize| old_keys.contains(x) implies slot_keys(ns).contains(x) by {
                    let j = choose|j: int| 0 <= j < old_keys.len() && old_keys[j] == x;
                    if j < k {
                        assert(slot_keys(ns)[j] == x);
                    } else {
                        assert(slot_keys(ns)[j + 1] == x);
                    }
                }
                assert forall|a: int, c: int| 0 <= a < c < ns.len() implies (#[trigger] ns[a]).0
                    < (#[trigger] ns[c]).0 by {
                    if c < k {
                    } else if c == k {
                        assert(ns[a] == before[a]);
                    } else if a == k {
                        assert(ns[c] == before[c - 1]);
                    } else if a < k {
                        assert(ns[a] == before[a]);
                        assert(ns[c] == before[c - 1]);
                    } else {
                        assert(ns[a] == before[a - 1]);
                        assert(ns[c] == before[c - 1]);
                    }
                }
                assert forall|j: int| 0 <= j < ns.len() implies (#[trigger] ns[j]).1@.len() > 0 by {
                    if j < k {
                        assert(ns[j] == before[j]);
                    } else if j > k {
                        assert(ns[j] == before[j - 1]);
                    }
                }
            }
        }
        proof {
            assert forall|i: int| 0 <= i < self.symbols@.len() implies (#[trigger] self.symbols@[i]).0
                < self.bytes@.len() || slot_keys(self.script_slots@).contains(self.symbols@[i].0) by {
                if !(self.symbols@[i].0 < self.bytes@.len()) {
                    let x = self.symbols@[i].0;
                    assert(old_keys.contains(x));
                    let j = choose|j: int| 0 <= j < old_keys.len() && old_keys[j] == x;
                    if k < self.script_slots@.len() && slot_keys(self.script_slots@) == old_keys {
                        assert(slot_keys(self.script_slots@)[j] == x);
                    } else if j < k {
                        assert(slot_keys(self.script_slots@)[j] == x);
                    } else {
                        assert(slot_keys(self.script_slots@)[j + 1] == x);
                    }
                }
            }
        }
    }

    /// Names `off`, a jump-table target, replacing an earlier name.
    fn set_symbol(&mut self, off: usize, info: LabelInfo)
        requires
            old(self).wf(),
            slot_keys(old(self).script_slots@).contains(off),
            info.kind matches LabelKind::Script { slot_ids } ==> slot_ids@.len() > 0,
        ensures
            final(self).wf(),
            final(self).bytes@ == old(self).bytes@,
            final(self).db == old(self).db,
            final(self).script_slots@ == old(self).script_slots@,
            final(self).action_offsets@ == old(self).action_offsets@,
            final(self).jump_table_end == old(self).jump_table_end,
            final(self).has_jump_table_marker == old(self).has_jump_table_marker,
            final(self).symbols@.len() == if has_symbol(old(self).symbols@, off) {
                old(self).symbols@.len()
            } else {
                old(self).symbols@.len() + 1
            },
            exists|i: int| 0 <= i < final(self).symbols@.len() && final(self).symbols@[i] == (off, info),
            forall|j: int|
                0 <= j < old(self).symbols@.len() && old(self).symbols@[j].0 != off
                    ==> final(self).symbols@[j] == old(self).symbols@[j],
    {
        let ghost before = self.symbols@;
        match self.symbol_index(off) {
            Some(i) => {
                let ghost pair = (off, info);
                self.symbols.set(i, (off, info));
                proof {
                    assert(symbol_keys(self.symbols@) =~= symbol_keys(before));
                    assert(self.symbols@[i as int] == pair);
                    assert(has_symbol(before, off));
                }
            },
            None => {
                let ghost pair = (off, info);
                self.symbols.push((off, info));
                assert(self.symbols@[before.len() as int] == pair);
                proof {
                    assert(symbol_keys(self.symbols@) =~= symbol_keys(before).push(off));
                    assert forall|j: int| 0 <= j < symbol_keys(before).len() implies symbol_keys(
                        before,
                    )[j] != off by {
                        assert(symbol_keys(before)[j] == before[j].0);
                    }
                }
            },
        }
    }

    /// Follows the code from `start` to its end, collecting the targets of
    /// jump commands into `targets` and marking referenced movement actions.
    /// Gives the position after the last command read.
    fn scan_function_for_targets(&mut self, start: usize, targets: &mut Vec<usize>) -> (r: usize)
        requires
            old(self).wf(),
        ensures
            final(self).wf(),
            old(self).grows_to(&*final(self)),
            final(self).symbols@ == old(self).symbols@,
            final(self).action_counter == old(self).action_counter,
            r >= start,
    {
        proof {
            assert(self.symbols@.subrange(0, self.symbols@.len() as int) =~= self.symbols@);
            assert(self.action_offsets@.subrange(0, self.action_offsets@.len() as int)
                =~= self.action_offsets@);
        }
        let len = self.bytes.len();
        let mut pc = start;
        while pc <= len && len - pc >= 2
            invariant
                self.wf(),
                old(self).grows_to(&*self),
                self.symbols@ == old(self).symbols@,
                self.action_counter == old(self).action_counter,
                len == self.bytes@.len(),
                pc >= start,
            decreases if pc <= len {
                len - pc + 1
            } else {
                0
            },
        {
            match self.script_cmd_at(pc) {
                Some((name, cmd)) => {
                    let cmd_size = self.command_size_at(pc, cmd);
                    if is_jump_command(name.as_str()) {
                        match self.extract_jump_target(pc, cmd) {
                            Some(target) => {
                                targets.push(target);
                            },
                            None => {},
                        }
                    }
                    if is_action_reference(name.as_str()) {
                        match self.extract_action_offset(pc, cmd) {
                            Some(action_offset) => {
                                if action_offset < len && action_offset % 4 == 0 {
                                    let ghost mid = *self;
                                    self.add_action_offset(action_offset);
                                    proof {
                                        lemma_grows_trans(&*old(self), &mid, &*self);
                                    }
                                }
                            },
                            None => {},
                        }
                    }
                    let is_hard_terminator = is_hard_terminator_name(name.as_str());
                    pc = pc + 2 + cmd_size;
                    if is_hard_terminator && !self.contains_symbol(pc) {
                        break;
                    }
                },
                None => {
                    break;
                },
            }
        }
        pc
    }

    /// Gives every movement action a name, numbering the ones that have none.
    fn insert_missing_action_symbols(&mut self)
        requires
            old(self).wf(),
        ensures
            final(self).wf(),
            old(self).grows_to(&*final(self)),
            final(self).action_offsets@ == old(self).action_offsets@,
            forall|i: int|
                0 <= i < final(self).action_offsets@.len() ==> has_symbol(
                    final(self).symbols@,
                    #[trigger] final(self).action_offsets@[i],
                ),
    {
        proof {
            lemma_grows_refl(&*self);
        }
        let mut i: usize = 0;
        while i < self.action_offsets.len()
            invariant
                self.wf(),
                old(self).grows_to(&*self),
                self.action_offsets@ == old(self).action_offsets@,
                i <= self.action_offsets@.len(),
                forall|j: int|
                    0 <= j < i ==> has_symbol(self.symbols@, #[trigger] self.action_offsets@[j]),
            decreases self.action_offsets.len() - i,
        {
            let offset = self.action_offsets[i];
            if !self.contains_symbol(offset) {
                let ghost s0 = *self;
                let id = self.next_action_id();
                let name = action_name(id);
                let ghost s1 = *self;
                self.add_symbol(offset, LabelInfo { kind: LabelKind::Action { id }, name });
                proof {
                    lemma_grows_refl(&s0);
                    assert(s0.grows_to(&s1));
                    lemma_grows_trans(&*old(self), &s0, &s1);
                    lemma_grows_trans(&*old(self), &s1, &*self);
                    assert(self.symbols@[self.symbols@.len() - 1].0 == offset);
                    assert forall|j: int| 0 <= j < i implies has_symbol(
                        self.symbols@,
                        #[trigger] self.action_offsets@[j],
                    ) by {
                        lemma_has_symbol_grows(s0.symbols@, self.symbols@, self.action_offsets@[j]);
                    }
                }
            }
            i = i + 1;
        }
    }

    /// Follows the code from `start`, naming every jump target inside the
    /// code that has no name yet and following it in turn. Gives where the
    /// code from `start` stops.
    fn discover_targets_from_offset(&mut self, start: usize) -> (r: usize)
        requires
            old(self).wf(),
        ensures
            final(self).wf(),
            old(self).grows_to(&*final(self)),
    {
        let code_start = self.code_start();
        let len = self.bytes.len();
        let mut pending: Vec<usize> = Vec::new();
        let stop_pc = self.scan_function_for_targets(start, &mut pending);
        let mut new_targets = self.fresh_code_targets(&pending, code_start);
        proof {
            lemma_grows_refl(&*self);
        }
        while new_targets.len() > 0
            invariant
                self.wf(),
                old(self).grows_to(&*self),
                len == self.bytes@.len(),
                code_start == self.code_start_spec(),
                forall|k: int| 0 <= k < new_targets@.len() ==> #[trigger] new_targets@[k] < len,
            decreases self.room(), new_targets.len(),
        {
            let ghost round = *self;
            proof {
                lemma_grows_refl(&*self);
            }
            let mut next_round: Vec<usize> = Vec::new();
            let mut j: usize = 0;
            while j < new_targets.len()
                invariant
                    self.wf(),
                    old(self).grows_to(&*self),
                    round.grows_to(&*self),
                    len == self.bytes@.len(),
                    code_start == self.code_start_spec(),
                    forall|k: int| 0 <= k < new_targets@.len() ==> #[trigger] new_targets@[k] < len,
                    forall|k: int| 0 <= k < next_round@.len() ==> #[trigger] next_round@[k] < len,
                    next_round@.len() > 0 ==> self.symbols@.len() > round.symbols@.len(),
                    self.symbols@.len() == round.symbols@.len() ==> self.action_offsets@
                        == round.action_offsets@,
                    j <= new_targets@.len(),
                decreases new_targets.len() - j,
            {
                let target = new_targets[j];
                if !self.contains_symbol(target) && !self.is_action_offset(target) {
                    let ghost s0 = *self;
                    let name = internal_name(target);
                    self.add_symbol(target, LabelInfo { kind: LabelKind::Internal, name });
                    let ghost s1 = *self;
                    let mut local_targets: Vec<usize> = Vec::new();
                    self.scan_function_for_targets(target, &mut local_targets);
                    proof {
                        lemma_grows_trans(&*old(self), &s0, &s1);
                        lemma_grows_trans(&*old(self), &s1, &*self);
                        lemma_grows_trans(&round, &s0, &s1);
                        lemma_grows_trans(&round, &s1, &*self);
                    }
                    let fresh = self.fresh_code_targets(&local_targets, code_start);
                    let mut q: usize = 0;
                    while q < fresh.len()
                        invariant
                            q <= fresh@.len(),
                            forall|k: int| 0 <= k < fresh@.len() ==> #[trigger] fresh@[k] < len,
                            forall|k: int| 0 <= k < next_round@.len() ==> #[trigger] next_round@[k]
                                < len,
                        decreases fresh.len() - q,
                    {
                        next_round.push(fresh[q]);
                        q = q + 1;
                    }
                }
                j = j + 1;
            }
            proof {
                self.lemma_room();
            }
            new_targets = next_round;
        }
        let ghost s2 = *self;
        self.insert_missing_action_symbols();
        proof {
            lemma_grows_trans(&*old(self), &s2, &*self);
        }
        stop_pc
    }

    /// The targets in `targets` that lie in the code and have no name yet.
    fn fresh_code_targets(&self, targets: &Vec<usize>, code_start: usize) -> (r: Vec<usize>)
        ensures
            forall|k: int| 0 <= k < r@.len() ==> code_start <= #[trigger] r@[k] < self.bytes@.len(),
            r@ == fresh_targets(targets@, code_start as int, self.bytes@.len() as int, self.symbols@),
    {
        let mut out: Vec<usize> = Vec::new();
        let mut i: usize = 0;
        assert(targets@.take(0) =~= Seq::<usize>::empty());
        while i < targets.len()
            invariant
                i <= targets@.len(),
                forall|k: int|
                    0 <= k < out@.len() ==> code_start <= #[trigger] out@[k] < self.bytes@.len(),
                out@ == fresh_targets(targets@.take(i as int), code_start as int, self.bytes@.len() as int, self.symbols@),
            decreases targets.len() - i,
        {
            assert(targets@.take(i + 1).drop_last() =~= targets@.take(i as int));
            let t = targets[i];
            if t >= code_start && t < self.bytes.len() && !self.contains_symbol(t) {
                out.push(t);
            }
            i = i + 1;
        }
        assert(targets@.take(targets@.len() as int) =~= targets@);
        out
    }

    /// Names everything reachable from the scripts of the jump table:
    /// jump targets inside the code, and movement actions.
    fn discover_boundaries(&mut self) -> (r: DecompileResult<()>)
        requires
            old(self).wf(),
        ensures
            final(self).wf(),
            old(self).grows_to(&*final(self)),
            r is Ok,
    {
        let code_start = self.code_start();
        let len = self.bytes.len();
        let mut pending_jump_targets: Vec<usize> = Vec::new();
        let mut script_starts: Vec<usize> = Vec::new();
        let mut k: usize = 0;
        while k < self.script_slots.len()
            invariant
                k <= self.script_slots@.len(),
            decreases self.script_slots.len() - k,
        {
            script_starts.push(self.script_slots[k].0);
            k = k + 1;
        }
        proof {
            lemma_grows_refl(&*self);
        }
        let mut k: usize = 0;
        while k < script_starts.len()
            invariant
                self.wf(),
                old(self).grows_to(&*self),
                len == self.bytes@.len(),
                code_start == self.code_start_spec(),
                k <= script_starts@.len(),
            decreases script_starts.len() - k,
        {
            let ghost s0 = *self;
            self.scan_function_for_targets(script_starts[k], &mut pending_jump_targets);
            proof {
                lemma_grows_trans(&*old(self), &s0, &*self);
            }
            k = k + 1;
        }
        let mut new_targets = self.fresh_code_targets(&pending_jump_targets, code_start);
        while new_targets.len() > 0
            invariant
                self.wf(),
                old(self).grows_to(&*self),
                len == self.bytes@.len(),
                code_start == self.code_start_spec(),
                forall|k: int| 0 <= k < new_targets@.len() ==> #[trigger] new_targets@[k] < len,
            decreases self.room(), new_targets.len(),
        {
            let ghost round = *self;
            proof {
                lemma_grows_refl(&*self);
            }
            let mut next_round: Vec<usize> = Vec::new();
            let mut j: usize = 0;
            while j < new_targets.len()
                invariant
                    self.wf(),
                    old(self).grows_to(&*self),
                    round.grows_to(&*self),
                    len == self.bytes@.len(),
                    code_start == self.code_start_spec(),
                    forall|k: int| 0 <= k < new_targets@.len() ==> #[trigger] new_targets@[k] < len,
                    forall|k: int| 0 <= k < next_round@.len() ==> #[trigger] next_round@[k] < len,
                    next_round@.len() > 0 ==> self.symbols@.len() > round.symbols@.len(),
                    self.symbols@.len() == round.symbols@.len() ==> self.action_offsets@
                        == round.action_offsets@,
                    j <= new_targets@.len(),
                decreases new_targets.len() - j,
            {
                let target = new_targets[j];
                if !self.contains_symbol(target) {
                    let ghost s0 = *self;
                    let name = internal_name(target);
                    self.add_symbol(target, LabelInfo { kind: LabelKind::Internal, name });
                    let ghost s1 = *self;
                    let mut local_targets: Vec<usize> = Vec::new();
                    self.scan_function_for_targets(target, &mut local_targets);
                    proof {
                        lemma_grows_trans(&*old(self), &s0, &s1);
                        lemma_grows_trans(&*old(self), &s1, &*self);
                        lemma_grows_trans(&round, &s0, &s1);
                        lemma_grows_trans(&round, &s1, &*self);
                    }
                    let fresh = self.fresh_code_targets(&local_targets, code_start);
                    let mut q: usize = 0;
                    while q < fresh.len()
                        invariant
                            q <= fresh@.len(),
                            forall|k: int| 0 <= k < fresh@.len() ==> #[trigger] fresh@[k] < len,
                            forall|k: int| 0 <= k < next_round@.len() ==> #[trigger] next_round@[k]
                                < len,
                        decreases fresh.len() - q,
                    {
                        next_round.push(fresh[q]);
                        q = q + 1;
                    }
                }
                j = j + 1;
            }
            proof {
                self.lemma_room();
            }
            new_targets = next_round;
        }
        let mut k: usize = 0;
        while k < pending_jump_targets.len()
            invariant
                self.wf(),
                old(self).grows_to(&*self),
                len == self.bytes@.len(),
                code_start == self.code_start_spec(),
                k <= pending_jump_targets@.len(),
            decreases pending_jump_targets.len() - k,
        {
            let target = pending_jump_targets[k];
            if target >= code_start && target < len && !self.contains_symbol(target) {
                let ghost s0 = *self;
                let name = internal_name(target);
                self.add_symbol(target, LabelInfo { kind: LabelKind::Internal, name });
                proof {
                    lemma_grows_trans(&*old(self), &s0, &*self);
                }
            }
            k = k + 1;
        }
        let ghost s1 = *self;
        self.insert_missing_action_symbols();
        let ghost s2 = *self;
        let _ = self.discover_remaining_targets();
        let ghost s3 = *self;
        self.insert_missing_action_symbols();
        proof {
            lemma_grows_trans(&*old(self), &s1, &s2);
            lemma_grows_trans(&*old(self), &s2, &s3);
            lemma_grows_trans(&*old(self), &s3, &*self);
        }
        Ok(())
    }

    /// Reads on from every named offset (movement actions aside) to the next
    /// terminator, naming jump targets and movement actions still unnamed.
    fn discover_remaining_targets(&mut self) -> (r: DecompileResult<()>)
        requires
            old(self).wf(),
        ensures
            final(self).wf(),
            old(self).grows_to(&*final(self)),
            r is Ok,
    {
        let code_start = self.code_start();
        let len = self.bytes.len();
        let mut missed_targets: Vec<usize> = Vec::new();
        let mut missed_actions: Vec<usize> = Vec::new();
        let mut all_starts: Vec<usize> = Vec::new();
        let mut k: usize = 0;
        while k < self.symbols.len()
            invariant
                k <= self.symbols@.len(),
            decreases self.symbols.len() - k,
        {
            all_starts.push(self.symbols[k].0);
            k = k + 1;
        }
        let mut k: usize = 0;
        while k < all_starts.len()
            invariant
                self.wf(),
                *self == *old(self),
                len == self.bytes@.len(),
                k <= all_starts@.len(),
                forall|q: int| 0 <= q < missed_actions@.len() ==> #[trigger] missed_actions@[q] < len,
                forall|q: int| 0 <= q < missed_targets@.len() ==> #[trigger] missed_targets@[q] < len,
            decreases all_starts.len() - k,
        {
            let start = all_starts[k];
            let is_action = match self.symbol_index(start) {
                Some(i) => matches!(self.symbols[i].1.kind, LabelKind::Action { .. }),
                None => false,
            };
            if !is_action {
                let mut pc = start;
                while pc <= len && len - pc >= 2
                    invariant
                        self.wf(),
                        len == self.bytes@.len(),
                        forall|q: int|
                            0 <= q < missed_actions@.len() ==> #[trigger] missed_actions@[q] < len,
                        forall|q: int|
                            0 <= q < missed_targets@.len() ==> #[trigger] missed_targets@[q] < len,
                    decreases if pc <= len {
                        len - pc + 1
                    } else {
                        0
                    },
                {
                    match self.script_cmd_at(pc) {
                        Some((name, cmd)) => {
                            let cmd_size = self.command_size_at(pc, cmd);
                            match self.extract_jump_target(pc, cmd) {
                                Some(target) => {
                                    if target < len && !self.contains_symbol(target) {
                                        if is_action_reference(name.as_str()) && target % 4 == 0 {
                                            missed_actions.push(target);
                                        } else if target >= code_start {
                                            missed_targets.push(target);
                                        }
                                    }
                                },
                                None => {},
                            }
                            let is_terminator = is_hard_terminator_name(name.as_str())
                                || is_soft_terminator_name(name.as_str());
                            pc = pc + 2 + cmd_size;
                            if is_terminator {
                                break;
                            }
                        },
                        None => {
                            break;
                        },
                    }
                }
            }
            k = k + 1;
        }
        proof {
            lemma_grows_refl(&*self);
        }
        let mut k: usize = 0;
        while k < missed_actions.len()
            invariant
                self.wf(),
                old(self).grows_to(&*self),
                len == self.bytes@.len(),
                k <= missed_actions@.len(),
                forall|q: int| 0 <= q < missed_actions@.len() ==> #[trigger] missed_actions@[q] < len,
            decreases missed_actions.len() - k,
        {
            let target = missed_actions[k];
            if !self.contains_symbol(target) {
                let ghost s0 = *self;
                let id = self.next_action_id();
                let ghost s1 = *self;
                self.add_action_offset(target);
                let ghost s2 = *self;
                let name = action_name(id);
                self.add_symbol(target, LabelInfo { kind: LabelKind::Action { id }, name });
                proof {
                    lemma_grows_refl(&s0);
                    assert(s0.grows_to(&s1));
                    lemma_grows_trans(&*old(self), &s0, &s1);
                    lemma_grows_trans(&*old(self), &s1, &s2);
                    lemma_grows_trans(&*old(self), &s2, &*self);
                }
            }
            k = k + 1;
        }
        let mut k: usize = 0;
        while k < missed_targets.len()
            invariant
                self.wf(),
                old(self).grows_to(&*self),
                len == self.bytes@.len(),
                k <= missed_targets@.len(),
                forall|q: int| 0 <= q < missed_targets@.len() ==> #[trigger] missed_targets@[q] < len,
            decreases missed_targets.len() - k,
        {
            let target = missed_targets[k];
            if !self.contains_symbol(target) {
                let ghost s0 = *self;
                let name = internal_name(target);
                self.add_symbol(target, LabelInfo { kind: LabelKind::Internal, name });
                proof {
                    lemma_grows_trans(&*old(self), &s0, &*self);
                }
            }
            k = k + 1;
        }
        Ok(())
    }

    /// Whether `b[from..to]` lies inside the binary and is all zero.
    fn all_zero_in(&self, from: usize, to: usize) -> (r: bool)
        ensures
            r == (from <= to && to <= self.bytes@.len() && forall|i: int|
                from <= i < to ==> #[trigger] self.bytes@[i] == 0),
    {
        if from > to || to > self.bytes.len() {
            return false;
        }
        let mut i = from;
        while i < to
            invariant
                from <= i <= to,
                to <= self.bytes@.len(),
                forall|j: int| from <= j < i ==> #[trigger] self.bytes@[j] == 0,
            decreases to - i,
        {
            if self.bytes[i] != 0 {
                return false;
            }
            i = i + 1;
        }
        true
    }

    /// The start of the code, the end of the binary and every named offset,
    /// in increasing order, each once.
    fn sorted_offsets(&self, code_start: usize) -> (r: Vec<usize>)
        ensures
            forall|i: int, j: int| 0 <= i < j < r@.len() ==> (#[trigger] r@[i]) < (#[trigger] r@[j]),
            forall|x: usize|
                r@.contains(x) <==> (x == code_start || x == self.bytes@.len() || has_symbol(
                    self.symbols@,
                    x,
                )),
    {
        let mut out: Vec<usize> = Vec::new();
        insert_sorted(&mut out, code_start);
        insert_sorted(&mut out, self.bytes.len());
        let mut k: usize = 0;
        while k < self.symbols.len()
            invariant
                k <= self.symbols@.len(),
                forall|i: int, j: int|
                    0 <= i < j < out@.len() ==> (#[trigger] out@[i]) < (#[trigger] out@[j]),
                forall|x: usize|
                    out@.contains(x) <==> (x == code_start || x == self.bytes@.len() || exists|i: int|
                        0 <= i < k && (#[trigger] self.symbols@[i]).0 == x),
            decreases self.symbols.len() - k,
        {
            insert_sorted(&mut out, self.symbols[k].0);
            proof {
                assert forall|x: usize| out@.contains(x) <==> (x == code_start || x
                    == self.bytes@.len() || exists|i: int|
                    0 <= i < k + 1 && (#[trigger] self.symbols@[i]).0 == x) by {
                    if x == self.symbols@[k as int].0 {
                        assert(self.symbols@[k as int].0 == x);
                    }
                }
            }
            k = k + 1;
        }
        out
    }

    /// Looks for jump targets in the stretches of code that no named offset
    /// reaches, until no new offset is named.
    fn discover_gap_targets(&mut self) -> (r: DecompileResult<()>)
        requires
            old(self).wf(),
        ensures
            final(self).wf(),
            old(self).grows_to(&*final(self)),
            r is Ok,
    {
        let code_start = self.code_start();
        proof {
            lemma_grows_refl(&*self);
        }
        loop
            invariant
                self.wf(),
                old(self).grows_to(&*self),
                code_start == self.code_start_spec(),
            decreases self.room(),
        {
            let ghost round = *self;
            proof {
                lemma_grows_refl(&*self);
            }
            let symbols_before = self.symbols.len();
            let actions_before = self.action_offsets.len();
            let offsets = self.sorted_offsets(code_start);
            let mut i: usize = 0;
            while offsets.len() > 1 && i < offsets.len() - 1
                invariant
                    self.wf(),
                    old(self).grows_to(&*self),
                    round.grows_to(&*self),
                    code_start == self.code_start_spec(),
                    symbols_before == round.symbols@.len(),
                    actions_before == round.action_offsets@.len(),
                    i <= offsets@.len(),
                decreases offsets.len() - i,
            {
                let gap_start = offsets[i];
                let gap_end = offsets[i + 1];
                if gap_start >= code_start && gap_start < gap_end {
                    let gap_size = gap_end - gap_start;
                    let is_small_zero_padding = gap_size < 4 && self.all_zero_in(gap_start, gap_end);
                    // Rounded up to a multiple of four, as `(x + 3) & !3` in
                    // machine arithmetic.
                    let aligned_gap_start = gap_start.wrapping_add(3) & !3usize;
                    if !is_small_zero_padding && !self.has_movement_sequence_at(
                        aligned_gap_start,
                        gap_end,
                    ) {
                        let mut cursor = gap_start;
                        while cursor < gap_end
                            invariant
                                self.wf(),
                                old(self).grows_to(&*self),
                                round.grows_to(&*self),
                                code_start == self.code_start_spec(),
                                symbols_before == round.symbols@.len(),
                                actions_before == round.action_offsets@.len(),
                            decreases gap_end - cursor,
                        {
                            let ghost s0 = *self;
                            let stop = self.discover_targets_from_offset(cursor);
                            proof {
                                lemma_grows_trans(&*old(self), &s0, &*self);
                                lemma_grows_trans(&round, &s0, &*self);
                            }
                            if stop <= cursor || stop >= gap_end {
                                break;
                            }
                            let aligned_stop = stop.wrapping_add(3) & !3usize;
                            if self.has_movement_sequence_at(aligned_stop, gap_end) {
                                break;
                            }
                            cursor = stop;
                        }
                    }
                }
                i = i + 1;
            }
            if self.symbols.len() == symbols_before && self.action_offsets.len() == actions_before {
                break;
            }
            proof {
                self.lemma_room();
            }
        }
        Ok(())
    }

    /// Whether argument `a`, the `k`-th of a command whose operands start at
    /// `start` with parameters `ps`, is what the bytes hold: the operand's
    /// value, or for a relative jump the name of the offset it reaches.
    spec fn arg_decoded(&self, ps: Seq<ParamDef>, start: int, k: int, a: Arg) -> bool {
        let off = start + params_total(ps.take(k));
        let size = param_size(ps[k].param_type);
        let is_jump = size == 4 && ps[k].name@ == "relative_jump"@;
        &&& off + size <= self.bytes@.len()
        &&& match a {
            Arg::Value(v) => !is_jump && v == operand_value(self.bytes@, off, size),
            Arg::Pointer(p) => is_jump && exists|i: int|
                0 <= i < self.symbols@.len() && (#[trigger] self.symbols@[i]).0 == rel_target(
                    off,
                    read_le32(self.bytes@, off),
                ) && self.symbols@[i].1.name@ == p@,
        }
    }

    /// Whether `args` and `consumed` are what decoding the operands of `cmd`
    /// at `start` gives: the parameters are read in order while their bytes
    /// lie in the binary, each into the argument the bytes hold
    /// (`arg_decoded`); `consumed` is the number of bytes read, and the
    /// arguments are those read with trailing defaults dropped.
    spec fn decoded_operands(&self, cmd: Command, start: int, args: Seq<Arg>, consumed: int) -> bool {
        let ps = params_at(self.bytes@, start, cmd);
        exists|decoded: Seq<Arg>|
            #![trigger kept_args(decoded, ps)]
            {
                &&& decoded.len() <= ps.len()
                &&& consumed == params_total(ps.take(decoded.len() as int))
                &&& (decoded.len() == ps.len() || start + params_total(ps.take((decoded.len() + 1) as int))
                    > self.bytes@.len())
                &&& (forall|k: int|
                    0 <= k < decoded.len() ==> self.arg_decoded(ps, start, k, #[trigger] decoded[k]))
                &&& args == decoded.take(kept_args(decoded, ps) as int)
            }
    }

    /// Drops the trailing arguments that equal their parameter's default.
    fn omit_trailing_defaults(&self, binary_args: Vec<Arg>, params: &[ParamDef]) -> (r: Vec<Arg>)
        ensures
            r@ == binary_args@.take(kept_args(binary_args@, params@) as int),
    {
        let mut args = binary_args;
        let ghost all = args@;
        let mut keep: usize = args.len();
        assert(all.take(keep as int) =~= all);
        while keep > 0 && keep - 1 < params.len() && self.matches_default(&args[keep - 1], &params[keep - 1])
            invariant
                args@ == all,
                keep <= all.len(),
                kept_args(all, params@) == kept_args(all.take(keep as int), params@),
            decreases keep,
        {
            assert(all.take(keep as int).drop_last() =~= all.take(keep - 1));
            keep = keep - 1;
        }
        proof {
            if keep > 0 {
                assert(all.take(keep as int).last() == all[keep - 1]);
            }
            lemma_kept_args_bound(all.take(keep as int), params@);
        }
        args.truncate(keep);
        args
    }

    fn matches_default(&self, arg: &Arg, param: &ParamDef) -> (r: bool)
        ensures
            r == is_default_arg(*arg, *param),
    {
        match arg {
            Arg::Value(v) => match &param.default {
                Some(d) => match parse_default_value(d.as_str()) {
                    Some(x) => x == *v,
                    None => false,
                },
                None => false,
            },
            Arg::Pointer(_) => false,
        }
    }

    /// Reads the operands of `cmd` starting at `start`; a relative jump must
    /// reach a named action or a named offset where a script command starts.
    /// Gives the arguments (trailing defaults dropped) and the number of
    /// bytes read.
    fn decode_command_args(&self, start: usize, cmd: &Command) -> (r: DecompileResult<(Vec<Arg>, usize)>)
        requires
            self.wf(),
            command_fits(*cmd),
            start <= self.bytes@.len(),
        ensures
            match r {
                Ok((args, consumed)) => {
                    &&& start + consumed <= self.bytes@.len()
                    &&& args@.len() <= params_at(self.bytes@, start as int, *cmd).len()
                    &&& forall|k: int|
                        0 <= k < args@.len() ==> self.arg_decoded(
                            params_at(self.bytes@, start as int, *cmd),
                            start as int,
                            k,
                            #[trigger] args@[k],
                        )
                    &&& self.decoded_operands(*cmd, start as int, args@, consumed as int)
                },
                Err(e) => e is InvalidFormat,
            },
            !has_jump_param(params_at(self.bytes@, start as int, *cmd)) ==> r is Ok,
    {
        let len = self.bytes.len();
        let params = self.get_variant_params_at(start, cmd);
        let ghost ps = params@;
        proof {
            lemma_params_at_fit(self.bytes@, start as int, *cmd);
        }
        let mut binary_args: Vec<Arg> = Vec::new();
        let mut offset = start;
        let mut i: usize = 0;
        while i < params.len()
            invariant
                self.wf(),
                len == self.bytes@.len(),
                ps == params@,
                ps == params_at(self.bytes@, start as int, *cmd),
                i <= ps.len(),
                start <= offset <= len,
                offset == start + params_total(ps.take(i as int)),
                binary_args@.len() == i,
                forall|k: int|
                    0 <= k < i ==> self.arg_decoded(ps, start as int, k, #[trigger] binary_args@[k]),
            ensures
                i <= ps.len(),
                offset == start + params_total(ps.take(i as int)),
                binary_args@.len() == i,
                forall|k: int|
                    0 <= k < i ==> self.arg_decoded(ps, start as int, k, #[trigger] binary_args@[k]),
                i == ps.len() || start + params_total(ps.take(i + 1)) > len,
            decreases params.len() - i,
        {
            assert(ps.take(i + 1).drop_last() =~= ps.take(i as int));
            let size = params[i].param_type.size();
            if size > len - offset {
                break;
            }
            if size == 4 && str_eq(params[i].name.as_str(), "relative_jump") {
                let raw = get_le32(&self.bytes, offset);
                let rel = raw as i32;
                let target = #[verifier::truncate] ((#[verifier::truncate] (offset as i32)).wrapping_add(
                    rel,
                ).wrapping_add(4) as usize);
                let target_is_action = self.is_action_offset(target);
                let target_is_script_boundary = target < len && len - target >= 2
                    && self.script_cmd_at(target).is_some();
                match self.symbol_index(target) {
                    Some(si) => {
                        if target_is_action || target_is_script_boundary {
                            let name = self.symbols[si].1.name.clone();
                            binary_args.push(Arg::Pointer(name));
                        } else {
                            return Err(unresolved_jump_error(target, rel, offset));
                        }
                    },
                    None => {
                        return Err(unresolved_jump_error(target, rel, offset));
                    },
                }
            } else {
                let value: i32 = if size == 1 {
                    self.bytes[offset] as i32
                } else if size == 2 {
                    get_le16(&self.bytes, offset) as i32
                } else {
                    get_le32(&self.bytes, offset) as i32
                };
                binary_args.push(Arg::Value(value));
            }
            offset = offset + size;
            i = i + 1;
        }
        let consumed = offset - start;
        let ghost decoded = binary_args@;
        let final_args = self.omit_trailing_defaults(binary_args, params);
        proof {
            lemma_kept_args_bound(decoded, ps);
            assert(kept_args(decoded, ps) == kept_args(decoded, ps));
        }
        Ok((final_args, consumed))
    }

    /// Disassembles the code between `start` and `end` as one script: its
    /// headers come from the name of `start`, a label marks every other
    /// named offset, and it stops after a terminator where no label follows.
    /// Gives nothing for an action, or when no command could be read, and
    /// where reading stopped.
    fn disassemble_function_with_span(&self, start: usize, end: usize) -> (r: DecompileResult<(Option<IrFunction>, usize)>)
        requires
            self.wf(),
        ensures
            match r {
                Ok((f, stop)) => start <= stop && (f matches Some(func) ==> func.headers@.len() > 0
                    && func.instructions@.len() > 0),
                Err(e) => e is InvalidFormat,
            },
    {
        let len = self.bytes.len();
        let headers = match self.symbol_index(start) {
            Some(si) => match &self.symbols[si].1.kind {
                LabelKind::Script { slot_ids } => {
                    let first = crate::text::u64_to_string(slot_ids[0] as u64);
                    let base_name = concat("script_", first.as_str());
                    let mut hs: Vec<FunctionHeader> = Vec::new();
                    let mut k: usize = 0;
                    while k < slot_ids.len()
                        invariant
                            k <= slot_ids@.len(),
                            hs@.len() == k,
                        decreases slot_ids.len() - k,
                    {
                        hs.push(FunctionHeader { name: base_name.clone(), id: Some(slot_ids[k]), is_public: true });
                        k = k + 1;
                    }
                    hs
                },
                LabelKind::Function { id } => {
                    let mut hs: Vec<FunctionHeader> = Vec::new();
                    hs.push(FunctionHeader { name: self.symbols[si].1.name.clone(), id: Some(*id), is_public: false });
                    hs
                },
                LabelKind::Internal => {
                    let mut hs: Vec<FunctionHeader> = Vec::new();
                    hs.push(FunctionHeader { name: self.symbols[si].1.name.clone(), id: None, is_public: false });
                    hs
                },
                LabelKind::Action { .. } => {
                    return Ok((None, start));
                },
            },
            None => {
                let digits = crate::text::u64_to_hex_padded(start as u64, 4);
                let mut hs: Vec<FunctionHeader> = Vec::new();
                hs.push(FunctionHeader { name: concat("func_", digits.as_str()), id: None, is_public: false });
                hs
            },
        };
        let mut instructions: Vec<IrOpcode> = Vec::new();
        let mut pc = start;
        while pc < end
            invariant
                self.wf(),
                len == self.bytes@.len(),
                start <= pc,
                pc == start || pc <= len,
            decreases if pc <= end {
                end - pc
            } else {
                0
            },
        {
            if pc != start {
                match self.symbol_index(pc) {
                    Some(si) => {
                        instructions.push(IrOpcode::Label(self.symbols[si].1.name.clone()));
                    },
                    None => {},
                }
            }
            if end - pc < 2 || pc > len || len - pc < 2 {
                break;
            }
            match self.script_cmd_at(pc) {
                Some((name, cmd)) => {
                    let (args, bytes_consumed) = match self.decode_command_args(pc + 2, cmd) {
                        Ok(decoded) => decoded,
                        Err(e) => {
                            return Err(e);
                        },
                    };
                    let is_hard_terminator = is_hard_terminator_name(name.as_str());
                    let is_soft_terminator = is_soft_terminator_name(name.as_str());
                    instructions.push(IrOpcode::Command { name: name.clone(), args });
                    pc = pc + 2 + bytes_consumed;
                    if is_hard_terminator && !self.contains_symbol(pc) {
                        break;
                    }
                    if is_soft_terminator && self.should_stop_at_return(pc, end) {
                        break;
                    }
                },
                None => {
                    break;
                },
            }
        }
        if instructions.len() == 0 {
            return Ok((None, pc));
        }
        Ok((Some(IrFunction { headers, instructions }), pc))
    }

    /// Disassembles the movement records between `start` and `end` as one
    /// action, up to and including the end-of-movement record. Gives nothing
    /// when no record fits, and where reading stopped.
    fn disassemble_action_with_span(&self, start: usize, end: usize) -> (r: DecompileResult<(Option<IrAction>, usize)>)
        requires
            self.wf(),
        ensures
            r matches Ok((a, stop)) && start <= stop && (a is None <==> stop == start) && (stop
                == start || stop <= self.bytes@.len()),
    {
        let len = self.bytes.len();
        let name = match self.symbol_index(start) {
            Some(si) => self.symbols[si].1.name.clone(),
            None => {
                let digits = crate::text::u64_to_hex_padded(start as u64, 4);
                concat("action_", digits.as_str())
            },
        };
        let mut instructions: Vec<IrOpcode> = Vec::new();
        let mut pc = start;
        while pc <= end && end - pc >= 4 && pc <= len && len - pc >= 4
            invariant
                len == self.bytes@.len(),
                start <= pc,
                pc == start || pc <= len,
                instructions@.len() > 0 <==> pc != start,
            decreases end - pc,
        {
            let opcode = get_le16(&self.bytes, pc);
            let param = get_le16(&self.bytes, pc + 2);
            match self.db.get_movement_by_id(opcode) {
                Some((mov_name, _)) => {
                    let mut args: Vec<Arg> = Vec::new();
                    if opcode != END_MOVEMENT_OPCODE {
                        args.push(Arg::Value(param as i32));
                    }
                    instructions.push(IrOpcode::Command { name: mov_name.clone(), args });
                    pc = pc + 4;
                    if opcode == END_MOVEMENT_OPCODE {
                        break;
                    }
                },
                None => {
                    let digits = crate::text::u64_to_hex_padded(opcode as u64, 2);
                    let mut args: Vec<Arg> = Vec::new();
                    args.push(Arg::Value(param as i32));
                    instructions.push(IrOpcode::Command { name: concat("Movement_0x", digits.as_str()), args });
                    pc = pc + 4;
                },
            }
        }
        if instructions.len() == 0 {
            return Ok((None, pc));
        }
        Ok((Some(IrAction { name, instructions }), pc))
    }

    /// Whether a `Return` at `pc` ends the script: when only actions lie
    /// between it and the next action before `end`, or, with no action ahead,
    /// when no code label lies ahead and a movement sequence follows.
    fn should_stop_at_return(&self, pc: usize, end: usize) -> (r: bool)
        ensures
            r == match nearest_action(self.action_offsets@, pc as int, end as int) {
                Some(a) => !code_label_in(self.symbols@, pc + 1, a as int),
                None => !code_label_in(self.symbols@, pc as int, end as int) && spec_has_movement_sequence(
                    *self.db,
                    self.bytes@,
                    wrapped_align(pc) as int,
                    end as int,
                ),
            },
    {
        let mut next_action: Option<usize> = None;
        let mut i: usize = 0;
        assert(self.action_offsets@.take(0) =~= Seq::<usize>::empty());
        while i < self.action_offsets.len()
            invariant
                i <= self.action_offsets@.len(),
                next_action matches Some(a) ==> a > pc,
                next_action == nearest_action(self.action_offsets@.take(i as int), pc as int, end as int),
            decreases self.action_offsets.len() - i,
        {
            assert(self.action_offsets@.take(i + 1).drop_last() =~= self.action_offsets@.take(i as int));
            let off = self.action_offsets[i];
            if off > pc && off <= end {
                next_action = match next_action {
                    Some(best) => if off < best {
                        Some(off)
                    } else {
                        Some(best)
                    },
                    None => Some(off),
                };
            }
            i = i + 1;
        }
        assert(self.action_offsets@.take(self.action_offsets@.len() as int) =~= self.action_offsets@);
        match next_action {
            Some(action_off) => !self.has_code_label_between(pc + 1, action_off),
            None => {
                if self.has_code_label_between(pc, end) {
                    return false;
                }
                let w = pc.wrapping_add(3);
                assert(w == if pc + 3 > usize::MAX {
                    (pc + 3 - usize::MAX - 1) as usize
                } else {
                    (pc + 3) as usize
                });
                let aligned_pc = w & !3usize;
                self.has_movement_sequence_at(aligned_pc, end)
            },
        }
    }

    /// Whether a name other than an action's lies in `from..to`.
    fn has_code_label_between(&self, from: usize, to: usize) -> (r: bool)
        ensures
            r == exists|i: int|
                0 <= i < self.symbols@.len() && from <= (#[trigger] self.symbols@[i]).0 < to
                    && !(self.symbols@[i].1.kind is Action),
    {
        let mut i: usize = 0;
        while i < self.symbols.len()
            invariant
                i <= self.symbols@.len(),
                forall|j: int|
                    0 <= j < i ==> !(from <= (#[trigger] self.symbols@[j]).0 < to && !(
                    self.symbols@[j].1.kind is Action)),
            decreases self.symbols.len() - i,
        {
            let off = self.symbols[i].0;
            if off >= from && off < to && !matches!(self.symbols[i].1.kind, LabelKind::Action { .. }) {
                return true;
            }
            i = i + 1;
        }
        false
    }

    /// Finds the movement sequences in `gap_start..gap_end`, marks each as a
    /// named action and disassembles it.
    fn scan_gap_for_movements(&mut self, gap_start: usize, gap_end: usize) -> (r: DecompileResult<Vec<TopLevelItem>>)
        requires
            old(self).wf(),
        ensures
            final(self).wf(),
            old(self).grows_to(&*final(self)),
            r is Ok,
    {
        let mut items: Vec<TopLevelItem> = Vec::new();
        let mut current_start = gap_start;
        proof {
            lemma_grows_refl(&*self);
        }
        while current_start < gap_end
            invariant
                self.wf(),
                old(self).grows_to(&*self),
            decreases if current_start <= gap_end {
                gap_end - current_start
            } else {
                0
            },
        {
            match self.find_next_terminator(current_start, gap_end) {
                Some(term_pos) => {
                    let movement_end = term_pos + 4;
                    let action_start = if current_start % 4 == 0 {
                        current_start
                    } else {
                        current_start + (4 - current_start % 4)
                    };
                    if action_start <= term_pos {
                        let ghost s0 = *self;
                        self.add_action_offset(action_start);
                        proof {
                            lemma_grows_trans(&*old(self), &s0, &*self);
                        }
                        if !self.contains_symbol(action_start) {
                            let ghost s1 = *self;
                            let id = self.next_action_id();
                            let ghost s2 = *self;
                            let name = action_name(id);
                            self.add_symbol(action_start, LabelInfo { kind: LabelKind::Action { id }, name });
                            proof {
                                lemma_grows_refl(&s1);
                                assert(s1.grows_to(&s2));
                                lemma_grows_trans(&*old(self), &s1, &s2);
                                lemma_grows_trans(&*old(self), &s2, &*self);
                            }
                        }
                        match self.disassemble_action_with_span(action_start, movement_end) {
                            Ok((Some(action), _)) => {
                                items.push(TopLevelItem::Action(action));
                            },
                            _ => {},
                        }
                    }
                    current_start = movement_end;
                },
                None => {
                    break;
                },
            }
        }
        Ok(items)
    }

    /// Recovers what lies in `gap_start..gap_end`, between what the named
    /// offsets cover: movement actions, else (unless it is a little zero
    /// padding) code, which is followed for new targets first.
    fn recover_gap_items(&mut self, gap_start: usize, gap_end: usize) -> (r: DecompileResult<Vec<TopLevelItem>>)
        requires
            old(self).wf(),
        ensures
            final(self).wf(),
            old(self).grows_to(&*final(self)),
            r matches Err(e) ==> e is InvalidFormat,
        decreases gap_end - gap_start,
    {
        proof {
            lemma_grows_refl(&*self);
        }
        if gap_start >= gap_end {
            return Ok(Vec::new());
        }
        let mut items = match self.scan_gap_for_movements(gap_start, gap_end) {
            Ok(found) => found,
            Err(e) => {
                return Err(e);
            },
        };
        let ghost s0 = *self;
        let mut movement_covered_end: usize = 0;
        let mut k: usize = 0;
        while k < items.len()
            invariant
                k <= items@.len(),
                movement_covered_end <= k,
            decreases items.len() - k,
        {
            match &items[k] {
                TopLevelItem::Action(action) => {
                    if action.instructions.len() > 0 {
                        match &action.instructions[action.instructions.len() - 1] {
                            IrOpcode::Command { name, .. } => {
                                if is_end_movement_name(name.as_str()) {
                                    movement_covered_end = movement_covered_end + 1;
                                }
                            },
                            IrOpcode::Label(_) => {},
                        }
                    }
                },
                TopLevelItem::Function(_) => {},
            }
            k = k + 1;
        }
        if movement_covered_end == 0 {
            let gap_size = gap_end - gap_start;
            let is_small_zero_padding = gap_size < 4 && self.all_zero_in(gap_start, gap_end);
            if !is_small_zero_padding {
                self.discover_targets_from_offset(gap_start);
                let ghost s1 = *self;
                proof {
                    lemma_grows_trans(&*old(self), &s0, &s1);
                }
                match self.disassemble_function_with_span(gap_start, gap_end) {
                    Ok((func_opt, actual_end)) => {
                        match func_opt {
                            Some(func) => {
                                items.push(TopLevelItem::Function(func));
                            },
                            None => {},
                        }
                        if actual_end > gap_start && actual_end < gap_end {
                            match self.recover_gap_items(actual_end, gap_end) {
                                Ok(remaining) => {
                                    proof {
                                        lemma_grows_trans(&*old(self), &s1, &*self);
                                    }
                                    let mut remaining = remaining;
                                    items.append(&mut remaining);
                                },
                                Err(e) => {
                                    proof {
                                        lemma_grows_trans(&*old(self), &s1, &*self);
                                    }
                                    return Err(e);
                                },
                            }
                        }
                    },
                    Err(e) => {
                        return Err(e);
                    },
                }
            }
        }
        Ok(items)
    }

    /// Disassembles the code chunk by chunk: each named offset starts a chunk
    /// running to the next one; a chunk is an action or a script, followed by
    /// what can be recovered from the rest of it.
    fn disassemble_chunks(&mut self) -> (r: DecompileResult<Vec<TopLevelItem>>)
        requires
            old(self).wf(),
        ensures
            final(self).wf(),
            old(self).grows_to(&*final(self)),
            r matches Err(e) ==> e is InvalidFormat,
    {
        let code_start = self.code_start();
        let offsets = self.sorted_offsets(code_start);
        let mut items: Vec<TopLevelItem> = Vec::new();
        proof {
            lemma_grows_refl(&*self);
        }
        let mut i: usize = 0;
        while offsets.len() > 1 && i < offsets.len() - 1
            invariant
                self.wf(),
                old(self).grows_to(&*self),
                i <= offsets@.len(),
                code_start == self.code_start_spec(),
            decreases offsets.len() - i,
        {
            let chunk_start = offsets[i];
            let chunk_end = offsets[i + 1];
            if chunk_start >= code_start {
                let actual_end = if self.is_action_offset(chunk_start) {
                    match self.disassemble_action_with_span(chunk_start, chunk_end) {
                        Ok((action_opt, actual_end)) => {
                            match action_opt {
                                Some(action) => {
                                    items.push(TopLevelItem::Action(action));
                                },
                                None => {},
                            }
                            actual_end
                        },
                        Err(e) => {
                            return Err(e);
                        },
                    }
                } else {
                    match self.disassemble_function_with_span(chunk_start, chunk_end) {
                        Ok((func_opt, actual_end)) => {
                            match func_opt {
                                Some(func) => {
                                    items.push(TopLevelItem::Function(func));
                                },
                                None => {},
                            }
                            actual_end
                        },
                        Err(e) => {
                            return Err(e);
                        },
                    }
                };
                if actual_end < chunk_end {
                    let ghost s0 = *self;
                    match self.recover_gap_items(actual_end, chunk_end) {
                        Ok(gap_items) => {
                            proof {
                                lemma_grows_trans(&*old(self), &s0, &*self);
                            }
                            let mut gap_items = gap_items;
                            items.append(&mut gap_items);
                        },
                        Err(e) => {
                            proof {
                                lemma_grows_trans(&*old(self), &s0, &*self);
                            }
                            return Err(e);
                        },
                    }
                }
            }
            i = i + 1;
        }
        Ok(items)
    }
}

// ---------------------------------------------------------------------------
// Label references in the output
// ---------------------------------------------------------------------------

/// The names the pointer arguments of `args` point to, in order.
pub open spec fn pointer_names(args: Seq<Arg>) -> Seq<Seq<char>>
    decreases args.len(),
{
    if args.len() == 0 {
        Seq::empty()
    } else {
        let rest = pointer_names(args.drop_last());
        match args.last() {
            Arg::Pointer(p) => rest.push(p@),
            Arg::Value(_) => rest,
        }
    }
}

/// The names instruction `op` points to.
pub open spec fn op_references(op: IrOpcode) -> Seq<Seq<char>> {
    match op {
        IrOpcode::Command { args, .. } => pointer_names(args@),
        IrOpcode::Label(_) => Seq::empty(),
    }
}

/// The names the instructions `ops` point to, in order.
pub open spec fn ops_references(ops: Seq<IrOpcode>) -> Seq<Seq<char>>
    decreases ops.len(),
{
    if ops.len() == 0 {
        Seq::empty()
    } else {
        ops_references(ops.drop_last()) + op_references(ops.last())
    }
}

/// The instructions of an item.
pub open spec fn item_ops(item: TopLevelItem) -> Seq<IrOpcode> {
    match item {
        TopLevelItem::Function(f) => f.instructions@,
        TopLevelItem::Action(a) => a.instructions@,
    }
}

/// The names the items point to, in order.
pub open spec fn items_references(items: Seq<TopLevelItem>) -> Seq<Seq<char>>
    decreases items.len(),
{
    if items.len() == 0 {
        Seq::empty()
    } else {
        items_references(items.drop_last()) + ops_references(item_ops(items.last()))
    }
}

/// The names of the headers `hs`.
pub open spec fn header_names(hs: Seq<FunctionHeader>) -> Seq<Seq<char>>
    decreases hs.len(),
{
    if hs.len() == 0 {
        Seq::empty()
    } else {
        header_names(hs.drop_last()).push(hs.last().name@)
    }
}

/// The labels among the instructions `ops`.
pub open spec fn label_names(ops: Seq<IrOpcode>) -> Seq<Seq<char>>
    decreases ops.len(),
{
    if ops.len() == 0 {
        Seq::empty()
    } else {
        let rest = label_names(ops.drop_last());
        match ops.last() {
            IrOpcode::Label(l) => rest.push(l@),
            IrOpcode::Command { .. } => rest,
        }
    }
}

/// The labels an item defines: a script its header names and inner labels,
/// an action its name.
pub open spec fn item_definitions(item: TopLevelItem) -> Seq<Seq<char>> {
    match item {
        TopLevelItem::Function(f) => header_names(f.headers@) + label_names(f.instructions@),
        TopLevelItem::Action(a) => seq![a.name@],
    }
}

/// The labels the items define, in order.
pub open spec fn items_definitions(items: Seq<TopLevelItem>) -> Seq<Seq<char>>
    decreases items.len(),
{
    if items.len() == 0 {
        Seq::empty()
    } else {
        items_definitions(items.drop_last()) + item_definitions(items.last())
    }
}

/// Whether `name` is pointed to but defined by no item.
pub open spec fn unresolved_label(items: Seq<TopLevelItem>, name: Seq<char>) -> bool {
    items_references(items).contains(name) && !items_definitions(items).contains(name)
}

/// Lexicographic order of character sequences by code point (the order of
/// `String`, whose UTF-8 bytes sort as the code points do).
pub open spec fn lex_lt(a: Seq<char>, b: Seq<char>) -> bool
    decreases a.len(),
{
    if a.len() == 0 {
        b.len() > 0
    } else if b.len() == 0 {
        false
    } else if a[0] != b[0] {
        (a[0] as u32) < (b[0] as u32)
    } else {
        lex_lt(a.drop_first(), b.drop_first())
    }
}

/// Whether the strings of `v` are in strictly increasing order.
pub open spec fn names_sorted(v: Seq<Seq<char>>) -> bool {
    forall|i: int, j: int| 0 <= i < j < v.len() ==> lex_lt(#[trigger] v[i], #[trigger] v[j])
}

/// The names of `list` separated by `", "`.
pub open spec fn join_names(list: Seq<Seq<char>>) -> Seq<char>
    decreases list.len(),
{
    if list.len() == 0 {
        Seq::empty()
    } else if list.len() == 1 {
        list[0]
    } else {
        join_names(list.drop_last()) + ", "@ + list.last()
    }
}

/// The message listing unresolved label references.
pub open spec fn unresolved_message(list: Seq<Seq<char>>) -> Seq<char> {
    "Disassembly emitted unresolved label reference(s): "@ + join_names(list)
}

/// The views of a sequence of strings.
pub open spec fn name_views(v: Seq<String>) -> Seq<Seq<char>> {
    v.map_values(|s: String| s@)
}

proof fn lemma_char_code_injective(c: char, d: char)
    requires
        c != d,
    ensures
        (c as u32) != (d as u32),
{
    assert((c as u32) as int == c as int);
    assert((d as u32) as int == d as int);
}

proof fn lemma_lex_total(a: Seq<char>, b: Seq<char>)
    ensures
        a == b || lex_lt(a, b) || lex_lt(b, a),
    decreases a.len(),
{
    if a.len() > 0 && b.len() > 0 && a[0] == b[0] {
        lemma_lex_total(a.drop_first(), b.drop_first());
        if a.drop_first() == b.drop_first() {
            assert(a =~= seq![a[0]] + a.drop_first());
            assert(b =~= seq![b[0]] + b.drop_first());
        }
    } else if a.len() > 0 && b.len() > 0 {
        lemma_char_code_injective(a[0], b[0]);
    } else if a.len() == 0 && b.len() == 0 {
        assert(a =~= b);
    }
}

proof fn lemma_lex_trans(a: Seq<char>, b: Seq<char>, c: Seq<char>)
    requires
        lex_lt(a, b),
        lex_lt(b, c),
    ensures
        lex_lt(a, c),
    decreases a.len(),
{
    if a.len() > 0 && b.len() > 0 && c.len() > 0 {
        if a[0] == b[0] && b[0] == c[0] {
            lemma_lex_trans(a.drop_first(), b.drop_first(), c.drop_first());
        } else {
            if a[0] != b[0] {
                lemma_char_code_injective(a[0], b[0]);
            }
            if b[0] != c[0] {
                lemma_char_code_injective(b[0], c[0]);
            }
            if a[0] != c[0] {
                lemma_char_code_injective(a[0], c[0]);
            }
        }
    }
}

proof fn lemma_push_contains(s: Seq<Seq<char>>, x: Seq<char>, y: Seq<char>)
    ensures
        s.push(x).contains(y) <==> (s.contains(y) || y == x),
{
    if s.push(x).contains(y) {
        let j = choose|j: int| 0 <= j < s.push(x).len() && s.push(x)[j] == y;
        if j < s.len() {
            assert(s[j] == y);
        }
    }
    if s.contains(y) {
        let j = choose|j: int| 0 <= j < s.len() && s[j] == y;
        assert(s.push(x)[j] == y);
    }
    if y == x {
        assert(s.push(x)[s.len() as int] == y);
    }
}

/// Compares two character slices in lexicographic order.
fn lex_less(a: &[char], b: &[char]) -> (r: bool)
    ensures
        r == lex_lt(a@, b@),
{
    let mut i: usize = 0;
    assert(a@.subrange(0, a@.len() as int) =~= a@);
    assert(b@.subrange(0, b@.len() as int) =~= b@);
    while i < a.len() && i < b.len() && a[i] == b[i]
        invariant
            i <= a@.len(),
            i <= b@.len(),
            lex_lt(a@, b@) == lex_lt(
                a@.subrange(i as int, a@.len() as int),
                b@.subrange(i as int, b@.len() as int),
            ),
        decreases a.len() - i,
    {
        let ghost sa = a@.subrange(i as int, a@.len() as int);
        let ghost sb = b@.subrange(i as int, b@.len() as int);
        assert(sa.drop_first() =~= a@.subrange(i + 1, a@.len() as int));
        assert(sb.drop_first() =~= b@.subrange(i + 1, b@.len() as int));
        i = i + 1;
    }
    if i == a.len() {
        i < b.len()
    } else if i == b.len() {
        false
    } else {
        (a[i] as u32) < (b[i] as u32)
    }
}

fn contains_name(v: &Vec<String>, s: &str) -> (r: bool)
    ensures
        r == name_views(v@).contains(s@),
{
    let mut i: usize = 0;
    while i < v.len()
        invariant
            i <= v@.len(),
            forall|j: int| 0 <= j < i ==> (#[trigger] v@[j])@ != s@,
        decreases v.len() - i,
    {
        if str_eq(v[i].as_str(), s) {
            assert(name_views(v@)[i as int] == s@);
            return true;
        }
        i = i + 1;
    }
    assert(!name_views(v@).contains(s@)) by {
        if name_views(v@).contains(s@) {
            let j = choose|j: int| 0 <= j < name_views(v@).len() && name_views(v@)[j] == s@;
            assert(v@[j]@ == s@);
        }
    }
    false
}

/// Where `s` goes in the strictly increasing `v`: after every smaller name.
fn sorted_position(v: &Vec<String>, s: &String) -> (k: usize)
    ensures
        k <= v@.len(),
        forall|j: int| 0 <= j < k ==> lex_lt(#[trigger] v@[j]@, s@),
        k < v@.len() ==> !lex_lt(v@[k as int]@, s@),
{
    let sc = str_chars(s.as_str());
    let mut k: usize = 0;
    while k < v.len()
        invariant
            k <= v@.len(),
            sc@ == s@,
            forall|j: int| 0 <= j < k ==> lex_lt(#[trigger] v@[j]@, s@),
        decreases v.len() - k,
    {
        let vc = str_chars(v[k].as_str());
        if !lex_less(&vc, &sc) {
            return k;
        }
        k = k + 1;
    }
    k
}

/// Inserts `s` into the strictly increasing `v`, unless it is there.
fn insert_sorted_name(v: &mut Vec<String>, s: &String)
    requires
        names_sorted(name_views(old(v)@)),
    ensures
        names_sorted(name_views(final(v)@)),
        forall|n: Seq<char>|
            name_views(final(v)@).contains(n) <==> (name_views(old(v)@).contains(n) || n == s@),
{
    let k = sorted_position(v, s);
    let ghost before = v@;
    let ghost bv = name_views(before);
    if k < v.len() && str_eq(v[k].as_str(), s.as_str()) {
        proof {
            assert forall|n: Seq<char>| bv.contains(n) <==> (bv.contains(n) || n == s@) by {
                if n == s@ {
                    assert(bv[k as int] == n);
                }
            }
        }
        return;
    }
    proof {
        if k < before.len() {
            lemma_lex_total(before[k as int]@, s@);
        }
    }
    v.insert(k, s.clone());
    proof {
        let n = v@;
        let nv = name_views(n);
        assert(nv =~= bv.insert(k as int, s@));
        assert forall|i: int, j: int| 0 <= i < j < nv.len() implies lex_lt(
            #[trigger] nv[i],
            #[trigger] nv[j],
        ) by {
            if j < k {
                assert(nv[i] == bv[i] && nv[j] == bv[j]);
            } else if j == k {
                assert(nv[i] == bv[i] && bv[i] == before[i]@);
            } else if i == k {
                assert(nv[j] == bv[j - 1] && bv[j - 1] == before[j - 1]@);
                if j - 1 > k {
                    assert(lex_lt(bv[k as int], bv[j - 1]));
                    lemma_lex_trans(s@, before[k as int]@, before[j - 1]@);
                }
            } else if i < k {
                assert(nv[i] == bv[i] && nv[j] == bv[j - 1]);
                assert(bv[i] == before[i]@);
                assert(lex_lt(before[i]@, s@));
                lemma_lex_total(before[k as int]@, s@);
                assert(lex_lt(s@, before[k as int]@));
                lemma_lex_trans(before[i]@, s@, before[k as int]@);
                if j - 1 > k {
                    assert(lex_lt(bv[k as int], bv[j - 1]));
                    lemma_lex_trans(bv[i], bv[k as int], bv[j - 1]);
                }
            } else {
                assert(nv[i] == bv[i - 1] && nv[j] == bv[j - 1]);
            }
        }
        assert forall|m: Seq<char>| nv.contains(m) <==> (bv.contains(m) || m == s@) by {
            if nv.contains(m) {
                let j = choose|j: int| 0 <= j < nv.len() && nv[j] == m;
                if j < k {
                    assert(bv[j] == m);
                } else if j > k {
                    assert(bv[j - 1] == m);
                }
            }
            if bv.contains(m) {
                let j = choose|j: int| 0 <= j < bv.len() && bv[j] == m;
                if j < k {
                    assert(nv[j] == m);
                } else {
                    assert(nv[j + 1] == m);
                }
            }
            if m == s@ {
                assert(nv[k as int] == m);
            }
        }
    }
}

/// Joins the strings of `v` with `", "`.
fn join_with_commas(v: &Vec<String>) -> (r: String)
    ensures
        r@ == join_names(name_views(v@)),
{
    let mut out = String::new();
    let mut i: usize = 0;
    while i < v.len()
        invariant
            i <= v@.len(),
            out@ == join_names(name_views(v@.take(i as int))),
        decreases v.len() - i,
    {
        let ghost prev = name_views(v@.take(i as int));
        let ghost nxt = name_views(v@.take(i + 1));
        assert(nxt =~= prev.push(v@[i as int]@));
        assert(nxt.drop_last() =~= prev);
        if i > 0 {
            out.append(", ");
        }
        out.append(v[i].as_str());
        proof {
            if i == 0 {
                assert(out@ =~= v@[0]@);
            } else {
                assert(out@ =~= join_names(prev) + ", "@ + v@[i as int]@);
            }
        }
        i = i + 1;
    }
    assert(v@.take(v@.len() as int) =~= v@);
    out
}

/// `u` holds exactly the names referenced in `refs` that `defs` lacks.
spec fn tracks(u: Seq<Seq<char>>, refs: Seq<Seq<char>>, defs: Seq<Seq<char>>) -> bool {
    forall|n: Seq<char>| #![all_triggers] u.contains(n) <==> (refs.contains(n) && !defs.contains(n))
}

proof fn lemma_tracks_push_new(
    u: Seq<Seq<char>>,
    u2: Seq<Seq<char>>,
    refs: Seq<Seq<char>>,
    defs: Seq<Seq<char>>,
    x: Seq<char>,
)
    requires
        tracks(u, refs, defs),
        !defs.contains(x),
        forall|n: Seq<char>| #![all_triggers] u2.contains(n) <==> (u.contains(n) || n == x),
    ensures
        tracks(u2, refs.push(x), defs),
{
    assert forall|n: Seq<char>| #![all_triggers] u2.contains(n) <==> (refs.push(x).contains(n) && !defs.contains(n)) by {
        lemma_push_contains(refs, x, n);
        assert(u.contains(n) <==> (refs.contains(n) && !defs.contains(n)));
        assert(u2.contains(n) <==> (u.contains(n) || n == x));
    }
}

proof fn lemma_tracks_push_defined(u: Seq<Seq<char>>, refs: Seq<Seq<char>>, defs: Seq<Seq<char>>, x: Seq<char>)
    requires
        tracks(u, refs, defs),
        defs.contains(x),
    ensures
        tracks(u, refs.push(x), defs),
{
    assert forall|n: Seq<char>| #![all_triggers] u.contains(n) <==> (refs.push(x).contains(n) && !defs.contains(n)) by {
        lemma_push_contains(refs, x, n);
        assert(u.contains(n) <==> (refs.contains(n) && !defs.contains(n)));
    }
}

/// Checks that every label an argument points to is defined by some item.
/// Otherwise the error lists the unresolved names once each, in increasing
/// order.
fn validate_pointer_labels(items: &Vec<TopLevelItem>) -> (r: DecompileResult<()>)
    ensures
        match r {
            Ok(_) => forall|n: Seq<char>| !unresolved_label(items@, n),
            Err(e) => exists|list: Seq<Seq<char>>|
                {
                    &&& names_sorted(list)
                    &&& list.len() > 0
                    &&& (forall|n: Seq<char>| list.contains(n) <==> unresolved_label(items@, n))
                    &&& e matches DecompileError::InvalidFormat { message } && message@
                        == unresolved_message(list)
                },
        },
{
    let mut defined: Vec<String> = Vec::new();
    let mut i: usize = 0;
    while i < items.len()
        invariant
            i <= items@.len(),
            name_views(defined@) == items_definitions(items@.take(i as int)),
        decreases items.len() - i,
    {
        let ghost base = name_views(defined@);
        match &items[i] {
            TopLevelItem::Function(function) => {
                let mut h: usize = 0;
                while h < function.headers.len()
                    invariant
                        h <= function.headers@.len(),
                        name_views(defined@) == base + header_names(function.headers@.take(h as int)),
                    decreases function.headers.len() - h,
                {
                    let ghost prev = name_views(defined@);
                    defined.push(function.headers[h].name.clone());
                    proof {
                        assert(name_views(defined@) =~= prev.push(function.headers@[h as int].name@));
                        assert(function.headers@.take(h + 1).drop_last() =~= function.headers@.take(h as int));
                    }
                    h = h + 1;
                }
                assert(function.headers@.take(function.headers@.len() as int) =~= function.headers@);
                let ghost mid = name_views(defined@);
                let mut k: usize = 0;
                while k < function.instructions.len()
                    invariant
                        k <= function.instructions@.len(),
                        name_views(defined@) == mid + label_names(function.instructions@.take(k as int)),
                    decreases function.instructions.len() - k,
                {
                    let ghost prev = name_views(defined@);
                    assert(function.instructions@.take(k + 1).drop_last() =~= function.instructions@.take(k as int));
                    match &function.instructions[k] {
                        IrOpcode::Label(name) => {
                            defined.push(name.clone());
                            proof {
                                assert(name_views(defined@) =~= prev.push(name@));
                            }
                        },
                        IrOpcode::Command { .. } => {},
                    }
                    k = k + 1;
                }
                assert(function.instructions@.take(function.instructions@.len() as int) =~= function.instructions@);
                assert(name_views(defined@) =~= base + item_definitions(items@[i as int]));
            },
            TopLevelItem::Action(action) => {
                defined.push(action.name.clone());
                proof {
                    assert(name_views(defined@) =~= base + item_definitions(items@[i as int]));
                }
            },
        }
        assert(items@.take(i + 1).drop_last() =~= items@.take(i as int));
        i = i + 1;
    }
    assert(items@.take(items@.len() as int) =~= items@);
    let ghost defs = items_definitions(items@);
    let mut unresolved: Vec<String> = Vec::new();
    let mut i: usize = 0;
    while i < items.len()
        invariant
            i <= items@.len(),
            name_views(defined@) == defs,
            defs == items_definitions(items@),
            names_sorted(name_views(unresolved@)),
            tracks(name_views(unresolved@), items_references(items@.take(i as int)), defs),
        decreases items.len() - i,
    {
        let ops: &Vec<IrOpcode> = match &items[i] {
            TopLevelItem::Function(function) => &function.instructions,
            TopLevelItem::Action(action) => &action.instructions,
        };
        assert(ops@ == item_ops(items@[i as int]));
        let ghost base = items_references(items@.take(i as int));
        let mut k: usize = 0;
        assert(ops@.take(0) =~= Seq::<IrOpcode>::empty());
        assert(base + ops_references(ops@.take(0)) =~= base);
        while k < ops.len()
            invariant
                k <= ops@.len(),
                name_views(defined@) == defs,
                names_sorted(name_views(unresolved@)),
                tracks(name_views(unresolved@), base + ops_references(ops@.take(k as int)), defs),
            decreases ops.len() - k,
        {
            let ghost before = base + ops_references(ops@.take(k as int));
            assert(ops@.take(k + 1).drop_last() =~= ops@.take(k as int));
            match &ops[k] {
                IrOpcode::Command { args, .. } => {
                    let mut j: usize = 0;
                    assert(args@.take(0) =~= Seq::<Arg>::empty());
                    assert(before + pointer_names(args@.take(0)) =~= before);
                    while j < args.len()
                        invariant
                            j <= args@.len(),
                            name_views(defined@) == defs,
                            names_sorted(name_views(unresolved@)),
                            tracks(name_views(unresolved@), before + pointer_names(args@.take(j as int)), defs),
                        decreases args.len() - j,
                    {
                        let ghost acc = before + pointer_names(args@.take(j as int));
                        let ghost old_names = name_views(unresolved@);
                        assert(args@.take(j + 1).drop_last() =~= args@.take(j as int));
                        match &args[j] {
                            Arg::Pointer(name) => {
                                assert(before + pointer_names(args@.take(j + 1)) =~= acc.push(name@));
                                if !contains_name(&defined, name.as_str()) {
                                    insert_sorted_name(&mut unresolved, name);
                                    proof {
                                        lemma_tracks_push_new(old_names, name_views(unresolved@), acc, defs, name@);
                                    }
                                } else {
                                    proof {
                                        lemma_tracks_push_defined(old_names, acc, defs, name@);
                                    }
                                }
                            },
                            Arg::Value(_) => {
                                assert(before + pointer_names(args@.take(j + 1)) =~= acc);
                            },
                        }
                        j = j + 1;
                    }
                    assert(args@.take(args@.len() as int) =~= args@);
                    assert(base + ops_references(ops@.take(k + 1)) =~= before + pointer_names(args@));
                },
                IrOpcode::Label(_) => {
                    assert(base + ops_references(ops@.take(k + 1)) =~= before);
                },
            }
            k = k + 1;
        }
        assert(ops@.take(ops@.len() as int) =~= ops@);
        assert(items@.take(i + 1).drop_last() =~= items@.take(i as int));
        assert(items_references(items@.take(i + 1)) =~= base + ops_references(ops@));
        i = i + 1;
    }
    assert(items@.take(items@.len() as int) =~= items@);
    if unresolved.len() == 0 {
        assert forall|n: Seq<char>| !unresolved_label(items@, n) by {
            assert(name_views(unresolved@).contains(n) <==> (items_references(items@).contains(n)
                && !defs.contains(n)));
            if unresolved_label(items@, n) {
                let j = choose|j: int| 0 <= j < name_views(unresolved@).len() && name_views(unresolved@)[j] == n;
            }
        }
        return Ok(());
    }
    let joined = join_with_commas(&unresolved);
    let message = concat("Disassembly emitted unresolved label reference(s): ", joined.as_str());
    let ghost list = name_views(unresolved@);
    assert(list.len() > 0);
    assert(names_sorted(list));
    assert forall|n: Seq<char>| list.contains(n) <==> unresolved_label(items@, n) by {
        assert(name_views(unresolved@).contains(n) <==> (items_references(items@).contains(n)
            && !defs.contains(n)));
    }
    assert(message@ == unresolved_message(list));
    Err(invalid_format(message))
}

/// What disassembling the binary `b` gives: a binary under four bytes is
/// refused; a level script is decoded (or its decoding error reported); a
/// normal script whose jump table size is not a multiple of four is refused;
/// otherwise the output, when there is one, is a list of items in which every
/// label an argument points to is defined, and every error is one of format.
pub open spec fn disassembly_outcome(b: Seq<u8>, r: DecompileResult<ScriptOutput>) -> bool {
    if b.len() < 4 {
        r matches Err(DecompileError::InvalidFormat { message }) && message@
            == "File too small to contain a valid script"@
    } else if spec_detect(b) == ScriptType::Levelscript {
        match spec_from_bytes(b) {
            Ok(m) => r matches Ok(ScriptOutput::Levelscript(ls)) && ls@ == m,
            Err(msg) => r matches Err(DecompileError::InvalidFormat { message }) && message@ == msg,
        }
    } else if spec_table_end(b) % 4 != 0 {
        r matches Err(DecompileError::InvalidFormat { message }) && message@ == table_size_message(
            spec_table_end(b),
        )
    } else {
        match r {
            Ok(out) => out matches ScriptOutput::Normal(items) && forall|n: Seq<char>|
                !unresolved_label(items@, n),
            Err(e) => e is InvalidFormat,
        }
    }
}

impl<'a> Disassembler<'a> {
    /// Disassembles the binary: a level script is decoded as such, a normal
    /// script into its scripts and movement actions.
    pub fn disassemble(&mut self) -> (r: DecompileResult<ScriptOutput>)
        requires
            old(self).wf(),
        ensures
            final(self).wf(),
            final(self).bytes_of() == old(self).bytes_of(),
            final(self).database() == old(self).database(),
            disassembly_outcome(old(self).bytes_of(), r),
    {
        if self.bytes.len() < 4 {
            return Err(invalid_format(crate::text::string_from("File too small to contain a valid script")));
        }
        self.script_type = self.detect_script_type();
        match self.script_type {
            ScriptType::Normal => match self.disassemble_normal_script() {
                Ok(items) => Ok(ScriptOutput::Normal(items)),
                Err(e) => Err(e),
            },
            ScriptType::Levelscript => match self.disassemble_levelscript() {
                Ok(ls) => Ok(ScriptOutput::Levelscript(ls)),
                Err(e) => Err(e),
            },
        }
    }

    fn disassemble_levelscript(&self) -> (r: DecompileResult<LevelScript>)
        ensures
            match spec_from_bytes(self.bytes@) {
                Ok(m) => r matches Ok(ls) && ls@ == m,
                Err(msg) => r matches Err(DecompileError::InvalidFormat { message }) && message@
                    == msg,
            },
    {
        match LevelScript::from_bytes(self.bytes.as_slice()) {
            Ok(ls) => Ok(ls),
            Err(message) => Err(invalid_format(message)),
        }
    }

    fn disassemble_normal_script(&mut self) -> (r: DecompileResult<Vec<TopLevelItem>>)
        requires
            old(self).wf(),
        ensures
            final(self).wf(),
            final(self).bytes@ == old(self).bytes@,
            final(self).db == old(self).db,
            match r {
                Ok(items) => spec_table_end(old(self).bytes@) % 4 == 0 && forall|n: Seq<char>|
                    !unresolved_label(items@, n),
                Err(e) => e is InvalidFormat && (spec_table_end(old(self).bytes@) % 4 != 0
                    ==> e->InvalidFormat_message@ == table_size_message(
                    spec_table_end(old(self).bytes@),
                )),
            },
    {
        match self.parse_jump_table() {
            Ok(_) => {},
            Err(e) => {
                return Err(e);
            },
        }
        let _ = self.discover_boundaries();
        let _ = self.discover_gap_targets();
        let items = match self.disassemble_chunks() {
            Ok(items) => items,
            Err(e) => {
                return Err(e);
            },
        };
        match validate_pointer_labels(&items) {
            Ok(_) => Ok(items),
            Err(e) => Err(e),
        }
    }
}

/// Disassembles a script binary with the commands of `db`.
pub fn disassemble_bytes(db: &DatabaseV2, bytes: Vec<u8>) -> (r: DecompileResult<ScriptOutput>)
    requires
        bytes@.len() <= isize::MAX,
        db_fits(*db),
    ensures
        disassembly_outcome(bytes@, r),
{
    let mut disasm = Disassembler::new(db, bytes);
    disasm.disassemble()
}

/// The value of an operand of `size` bytes stored little-endian at `offset`.
pub open spec fn operand_value(b: Seq<u8>, offset: int, size: nat) -> i32 {
    if size == 1 {
        b[offset] as i32
    } else if size == 2 {
        read_le16(b, offset) as i32
    } else if size == 4 {
        read_le32(b, offset) as i32
    } else {
        0
    }
}

/// The message for a relative jump at `offset` by `rel` to `target` that
/// reaches no named action or command.
pub open spec fn unresolved_jump_message(target: usize, rel: i32, offset: usize) -> Seq<char> {
    "Unresolved relative jump target 0x"@ + crate::text::hex_padded(target as nat, 4) + " (rel "@
        + crate::text::int_to_decimal(rel as int) + ") at offset 0x"@ + crate::text::hex_padded(
        offset as nat,
        4,
    )
}

/// The error for a relative jump that reaches no named action or command.
fn unresolved_jump_error(target: usize, rel: i32, offset: usize) -> (r: DecompileError)
    ensures
        r is InvalidFormat,
        r matches DecompileError::InvalidFormat { message } && message@ == unresolved_jump_message(
            target,
            rel,
            offset,
        ),
{
    let t = crate::text::u64_to_hex_padded(target as u64, 4);
    let o = crate::text::u64_to_hex_padded(offset as u64, 4);
    let r = crate::text::i32_to_string(rel);
    let a = crate::text::concat3("Unresolved relative jump target 0x", t.as_str(), " (rel ");
    let b = crate::text::concat3(a.as_str(), r.as_str(), ") at offset 0x");
    invalid_format(concat(b.as_str(), o.as_str()))
}

/// Inserts `x` into the strictly increasing `v`, unless it is there.
fn insert_sorted(v: &mut Vec<usize>, x: usize)
    requires
        forall|i: int, j: int|
            0 <= i < j < old(v)@.len() ==> (#[trigger] old(v)@[i]) < (#[trigger] old(v)@[j]),
    ensures
        forall|i: int, j: int|
            0 <= i < j < final(v)@.len() ==> (#[trigger] final(v)@[i]) < (#[trigger] final(v)@[j]),
        forall|y: usize| final(v)@.contains(y) <==> (old(v)@.contains(y) || y == x),
{
    let mut k: usize = 0;
    while k < v.len() && v[k] < x
        invariant
            k <= v@.len(),
            v@ == old(v)@,
            forall|j: int| 0 <= j < k ==> #[trigger] v@[j] < x,
        decreases v.len() - k,
    {
        k = k + 1;
    }
    if k < v.len() && v[k] == x {
        return;
    }
    let ghost before = v@;
    v.insert(k, x);
    proof {
        let n = v@;
        assert forall|i: int, j: int| 0 <= i < j < n.len() implies (#[trigger] n[i]) < (#[trigger] n[j]) by {
            if j < k {
                assert(n[i] == before[i] && n[j] == before[j]);
            } else if j == k {
                assert(n[i] == before[i]);
            } else if i == k {
                assert(n[j] == before[j - 1]);
                assert(k < before.len() ==> before[k as int] > x);
                if j - 1 > k {
                    assert(before[k as int] < before[j - 1]);
                }
            } else if i < k {
                assert(n[i] == before[i] && n[j] == before[j - 1]);
            } else {
                assert(n[i] == before[i - 1] && n[j] == before[j - 1]);
            }
        }
        assert forall|y: usize| n.contains(y) <==> (before.contains(y) || y == x) by {
            if n.contains(y) {
                let j = choose|j: int| 0 <= j < n.len() && n[j] == y;
                if j < k {
                    assert(before[j] == y);
                } else if j > k {
                    assert(before[j - 1] == y);
                }
            }
            if before.contains(y) {
                let j = choose|j: int| 0 <= j < before.len() && before[j] == y;
                if j < k {
                    assert(n[j] == y);
                } else {
                    assert(n[j + 1] == y);
                }
            }
            if y == x {
                assert(n[k as int] == x);
            }
        }
    }
}

/// The name of movement action number `id`.
fn action_name(id: u32) -> (r: String)
    ensures
        r@ == "action_"@ + crate::text::nat_to_decimal(id as nat),
{
    let digits = crate::text::u64_to_string(id as u64);
    concat("action_", digits.as_str())
}

/// The name of a jump target inside the code: `_L` and at least four
/// upper-case hexadecimal digits of its offset.
fn internal_name(offset: usize) -> (r: String)
    ensures
        r@ == "_L"@ + crate::text::hex_padded(offset as nat, 4),
{
    let digits = crate::text::u64_to_hex_padded(offset as u64, 4);
    concat("_L", digits.as_str())
}

proof fn lemma_grows_refl<'a>(a: &Disassembler<'a>)
    ensures
        a.grows_to(a),
{
    assert(a.symbols@.subrange(0, a.symbols@.len() as int) =~= a.symbols@);
    assert(a.action_offsets@.subrange(0, a.action_offsets@.len() as int) =~= a.action_offsets@);
}

proof fn lemma_has_symbol_grows(a: Seq<(usize, LabelInfo)>, b: Seq<(usize, LabelInfo)>, off: usize)
    requires
        has_symbol(a, off),
        a.len() <= b.len(),
        b.subrange(0, a.len() as int) == a,
    ensures
        has_symbol(b, off),
{
    let i = choose|i: int| 0 <= i < a.len() && (#[trigger] a[i]).0 == off;
    assert(b.subrange(0, a.len() as int)[i] == b[i]);
}

proof fn lemma_grows_trans<'a>(a: &Disassembler<'a>, b: &Disassembler<'a>, c: &Disassembler<'a>)
    requires
        a.grows_to(b),
        b.grows_to(c),
    ensures
        a.grows_to(c),
{
    assert(c.symbols@.subrange(0, a.symbols@.len() as int) =~= c.symbols@.subrange(
        0,
        b.symbols@.len() as int,
    ).subrange(0, a.symbols@.len() as int));
    assert(c.action_offsets@.subrange(0, a.action_offsets@.len() as int)
        =~= c.action_offsets@.subrange(0, b.action_offsets@.len() as int).subrange(
        0,
        a.action_offsets@.len() as int,
    ));
}

} // verus!

//! Levelscript (initscript) model and its binary format.
//!
//! A levelscript maps trigger conditions to script IDs. The binary layout is a
//! list of header entries (one command byte each, followed by a 4-byte little
//! endian operand), an `0x00` terminator, an optional table of var conditions
//! (three little-endian `u16`s each, closed by a zero `u16`), zero padding to a
//! 4-byte boundary and optional extra zero padding.

use vstd::prelude::*;

use crate::text::{
    concat3, hex_padded, nat_to_decimal, string_from, u64_to_hex_padded, usize_to_string,
};

verus! {

/// Command byte closing the header list.
pub const ENTRY_END: u8 = 0x00;

/// Command byte of the var-condition table pointer.
pub const ON_FRAME_TABLE: u8 = 0x01;

/// Command byte of an on-transition entry.
pub const ON_TRANSITION: u8 = 0x02;

/// Command byte of an on-resume entry.
pub const ON_RESUME: u8 = 0x03;

/// Command byte of an on-load entry.
pub const ON_LOAD: u8 = 0x04;

/// Ordered header entry in a levelscript binary.
#[derive(Debug, Clone, Copy, PartialEq, Eq, Structural)]
pub enum LevelScriptHeaderEntry {
    /// Runs upon first entering a map.
    OnTransition { script_id: u32 },
    /// Runs after the map has been fully loaded and drawn.
    OnResume { script_id: u32 },
    /// Runs after the map layout is loaded but not drawn yet.
    OnLoad { script_id: u32 },
    /// Points to the var-condition table.
    OnVarCondition,
}

/// A var-condition entry (`var == value -> script_id`).
#[derive(Debug, Clone, Copy, PartialEq, Eq, Structural)]
pub struct LevelScriptVarConditionEntry {
    pub var: u16,
    pub value: u16,
    pub script_id: u16,
}

/// Semantic error in a [`LevelScript`] that would produce a binary the game
/// ignores or misreads.
#[derive(Debug, Clone, Copy, PartialEq, Eq, Structural)]
pub enum LevelScriptValidationError {
    /// A var-condition entry used `var == 0`, the table terminator.
    ZeroVarInCondition { index: usize },
    /// More than one `OnVarCondition` header entry.
    DuplicateOnVarCondition { count: usize },
    /// Var conditions present without an `OnVarCondition` header entry.
    ConditionsWithoutHeader { condition_count: usize },
}

/// A complete levelscript definition.
#[derive(Debug, Clone, PartialEq, Eq)]
pub struct LevelScript {
    /// Ordered header entries as they appear in the binary.
    pub header_entries: Vec<LevelScriptHeaderEntry>,
    /// Var conditions referenced by `OnVarCondition`.
    pub var_conditions: Vec<LevelScriptVarConditionEntry>,
    /// Extra trailing zero bytes beyond the normal 4-byte alignment.
    pub padding: u8,
}

/// The abstract content of a levelscript.
pub struct LevelScriptModel {
    pub headers: Seq<LevelScriptHeaderEntry>,
    pub conditions: Seq<LevelScriptVarConditionEntry>,
    pub padding: u8,
}

impl View for LevelScript {
    type V = LevelScriptModel;

    open spec fn view(&self) -> LevelScriptModel {
        LevelScriptModel {
            headers: self.header_entries@,
            conditions: self.var_conditions@,
            padding: self.padding,
        }
    }
}

// ---------------------------------------------------------------------------
// Little-endian encodings
// ---------------------------------------------------------------------------

/// Little-endian bytes of a `u32`.
pub open spec fn le32(x: u32) -> Seq<u8> {
    seq![
        (x % 256) as u8,
        ((x / 256) % 256) as u8,
        ((x / 65536) % 256) as u8,
        (x / 16777216) as u8,
    ]
}

/// Little-endian bytes of a `u16`.
pub open spec fn le16(x: u16) -> Seq<u8> {
    seq![(x % 256) as u8, (x / 256) as u8]
}

/// The `u32` stored little-endian at `b[i..i + 4]`.
pub open spec fn read_le32(b: Seq<u8>, i: int) -> u32 {
    (b[i] as int + b[i + 1] as int * 256 + b[i + 2] as int * 65536 + b[i + 3] as int
        * 16777216) as u32
}

/// The `u16` stored little-endian at `b[i..i + 2]`.
pub open spec fn read_le16(b: Seq<u8>, i: int) -> u16 {
    (b[i] as int + b[i + 1] as int * 256) as u16
}

/// A run of `n` zero bytes.
pub open spec fn zeros(n: nat) -> Seq<u8> {
    Seq::new(n, |i: int| 0u8)
}

/// Number of zero bytes needed to bring `len` to a multiple of four.
pub open spec fn align_pad(len: nat) -> nat {
    ((4 - (len % 4)) % 4) as nat
}

// ---------------------------------------------------------------------------
// Serialization model
// ---------------------------------------------------------------------------

/// Whether a header entry is the var-condition pointer.
pub open spec fn is_var_header(e: LevelScriptHeaderEntry) -> bool {
    e is OnVarCondition
}

/// Number of var-condition pointers among `hs`.
pub open spec fn var_header_count(hs: Seq<LevelScriptHeaderEntry>) -> nat
    decreases hs.len(),
{
    if hs.len() == 0 {
        0
    } else {
        var_header_count(hs.drop_last()) + if is_var_header(hs.last()) {
            1nat
        } else {
            0nat
        }
    }
}

/// Index of the last var-condition pointer among `hs`, or `-1`.
pub open spec fn last_var_header(hs: Seq<LevelScriptHeaderEntry>) -> int
    decreases hs.len(),
{
    if hs.len() == 0 {
        -1
    } else if is_var_header(hs.last()) {
        hs.len() - 1
    } else {
        last_var_header(hs.drop_last())
    }
}

/// Bytes of the header entry at index `i` of `n`; only the var-condition
/// pointer at index `k` is patched to point just past the header list.
pub open spec fn header_bytes(e: LevelScriptHeaderEntry, i: int, n: int, k: int) -> Seq<u8> {
    match e {
        LevelScriptHeaderEntry::OnTransition { script_id } => seq![ON_TRANSITION] + le32(script_id),
        LevelScriptHeaderEntry::OnResume { script_id } => seq![ON_RESUME] + le32(script_id),
        LevelScriptHeaderEntry::OnLoad { script_id } => seq![ON_LOAD] + le32(script_id),
        LevelScriptHeaderEntry::OnVarCondition => seq![ON_FRAME_TABLE] + le32(
            if i == k {
                (5 * (n - 1 - i) + 1) as u32
            } else {
                0u32
            },
        ),
    }
}

/// Bytes of the header entries `hs[i..]`.
pub open spec fn headers_bytes_from(hs: Seq<LevelScriptHeaderEntry>, i: int, k: int) -> Seq<u8>
    decreases hs.len() - i,
{
    if i >= hs.len() || i < 0 {
        Seq::empty()
    } else {
        header_bytes(hs[i], i, hs.len() as int, k) + headers_bytes_from(hs, i + 1, k)
    }
}

/// Bytes of the var-condition entries `cs[i..]`.
pub open spec fn conditions_bytes_from(cs: Seq<LevelScriptVarConditionEntry>, i: int) -> Seq<u8>
    decreases cs.len() - i,
{
    if i >= cs.len() || i < 0 {
        Seq::empty()
    } else {
        le16(cs[i].var) + le16(cs[i].value) + le16(cs[i].script_id) + conditions_bytes_from(
            cs,
            i + 1,
        )
    }
}

/// The headers, terminator and (when a pointer exists) the var-condition table.
pub open spec fn body_bytes(m: LevelScriptModel) -> Seq<u8> {
    let hs = m.headers;
    let head = headers_bytes_from(hs, 0, last_var_header(hs)) + seq![ENTRY_END];
    if last_var_header(hs) >= 0 {
        head + conditions_bytes_from(m.conditions, 0) + seq![0u8, 0u8]
    } else {
        head
    }
}

/// The binary image of a levelscript.
pub open spec fn spec_to_bytes(m: LevelScriptModel) -> Seq<u8> {
    if m.headers.len() == 0 && m.conditions.len() == 0 {
        seq![0u8, 0u8, 0u8, 0u8]
    } else {
        let body = body_bytes(m);
        body + zeros(align_pad(body.len())) + zeros(m.padding as nat)
    }
}

// ---------------------------------------------------------------------------
// Parsing model
// ---------------------------------------------------------------------------

/// Result of reading the header list: the entries, the var-table offset named
/// by the last pointer (if any) and the position just past the list.
pub struct HeaderScan {
    pub entries: Seq<LevelScriptHeaderEntry>,
    pub var_offset: Option<int>,
    pub end: int,
}

/// Prepends already-read entries (and the pointer offset seen so far) to the
/// scan of the remaining bytes.
pub open spec fn combine_scan(
    prefix: Seq<LevelScriptHeaderEntry>,
    off: Option<int>,
    rest: Result<HeaderScan, Seq<char>>,
) -> Result<HeaderScan, Seq<char>> {
    match rest {
        Ok(r) => Ok(
            HeaderScan {
                entries: prefix + r.entries,
                var_offset: if r.var_offset is Some {
                    r.var_offset
                } else {
                    off
                },
                end: r.end,
            },
        ),
        Err(e) => Err(e),
    }
}

/// The machine offset `o` mirrors the exact offset `off` whenever it fits.
pub open spec fn offset_fits(off: Option<int>, o: Option<usize>) -> bool {
    match off {
        Some(x) => if x <= usize::MAX {
            x >= 0 && o == Some(x as usize)
        } else {
            o is None
        },
        None => o is None,
    }
}

/// Message for a truncated header entry.
pub open spec fn truncated_message(name: Seq<char>) -> Seq<char> {
    "Levelscript: "@ + name + " truncated"@
}

/// Message for an unknown command byte at `offset`.
pub open spec fn unknown_command_message(cmd: u8, offset: int) -> Seq<char> {
    "Levelscript: Unknown command byte 0x"@ + hex_padded(cmd as nat, 2) + " at offset "@
        + nat_to_decimal(offset as nat)
}

/// Message for a truncated var-condition entry.
pub open spec fn truncated_condition_message() -> Seq<char> {
    "Levelscript: Var-condition entry truncated"@
}

/// Reads header entries from `pc` until the terminator or the end of `b`.
pub open spec fn scan_headers(b: Seq<u8>, pc: int) -> Result<HeaderScan, Seq<char>>
    decreases b.len() - pc,
{
    if pc >= b.len() || pc < 0 {
        Ok(HeaderScan { entries: Seq::empty(), var_offset: None, end: pc })
    } else {
        let cmd = b[pc];
        if cmd == ENTRY_END {
            Ok(HeaderScan { entries: Seq::empty(), var_offset: None, end: pc + 1 })
        } else if cmd == ON_FRAME_TABLE {
            if pc + 5 > b.len() {
                Err(truncated_message("ON_FRAME_TABLE"@))
            } else {
                match scan_headers(b, pc + 5) {
                    Ok(rest) => Ok(
                        HeaderScan {
                            entries: seq![LevelScriptHeaderEntry::OnVarCondition] + rest.entries,
                            var_offset: if rest.var_offset is Some {
                                rest.var_offset
                            } else {
                                Some(pc + 5 + read_le32(b, pc + 1) as int)
                            },
                            end: rest.end,
                        },
                    ),
                    Err(e) => Err(e),
                }
            }
        } else if cmd == ON_TRANSITION || cmd == ON_RESUME || cmd == ON_LOAD {
            if pc + 5 > b.len() {
                Err(
                    truncated_message(
                        if cmd == ON_TRANSITION {
                            "ON_TRANSITION"@
                        } else if cmd == ON_RESUME {
                            "ON_RESUME"@
                        } else {
                            "ON_LOAD"@
                        },
                    ),
                )
            } else {
                let id = read_le32(b, pc + 1);
                let e = if cmd == ON_TRANSITION {
                    LevelScriptHeaderEntry::OnTransition { script_id: id }
                } else if cmd == ON_RESUME {
                    LevelScriptHeaderEntry::OnResume { script_id: id }
                } else {
                    LevelScriptHeaderEntry::OnLoad { script_id: id }
                };
                match scan_headers(b, pc + 5) {
                    Ok(rest) => Ok(
                        HeaderScan {
                            entries: seq![e] + rest.entries,
                            var_offset: rest.var_offset,
                            end: rest.end,
                        },
                    ),
                    Err(e) => Err(e),
                }
            }
        } else {
            Err(unknown_command_message(cmd, pc))
        }
    }
}

/// Reads var-condition entries from `pc`; `end` is the logical end reached so
/// far. Returns the entries and the new logical end.
pub open spec fn scan_conditions(b: Seq<u8>, pc: int, end: int) -> Result<
    (Seq<LevelScriptVarConditionEntry>, int),
    Seq<char>,
>
    decreases b.len() - pc,
{
    if pc + 2 > b.len() || pc < 0 {
        Ok((Seq::empty(), end))
    } else if read_le16(b, pc) == 0 {
        Ok((Seq::empty(), pc + 2))
    } else if pc + 6 > b.len() {
        Err(truncated_condition_message())
    } else {
        let c = LevelScriptVarConditionEntry {
            var: read_le16(b, pc),
            value: read_le16(b, pc + 2),
            script_id: read_le16(b, pc + 4),
        };
        match scan_conditions(b, pc + 6, pc + 6) {
            Ok((rest, e)) => Ok((seq![c] + rest, e)),
            Err(msg) => Err(msg),
        }
    }
}

/// Padding recorded for a binary whose logical content ends at `end`.
pub open spec fn trailing_padding(b: Seq<u8>, end: int) -> u8 {
    let aligned = end + align_pad(end as nat);
    if b.len() > aligned && (forall|i: int| aligned <= i < b.len() ==> b[i] == 0) {
        ((b.len() - aligned) % 256) as u8
    } else {
        0
    }
}

/// Whether `b` is all zeros.
pub open spec fn all_zero(b: Seq<u8>) -> bool {
    forall|i: int| 0 <= i < b.len() ==> b[i] == 0
}

/// The empty levelscript model.
pub open spec fn empty_model() -> LevelScriptModel {
    LevelScriptModel { headers: Seq::empty(), conditions: Seq::empty(), padding: 0 }
}

/// What parsing a levelscript binary yields.
pub open spec fn spec_from_bytes(b: Seq<u8>) -> Result<LevelScriptModel, Seq<char>> {
    if (b.len() == 4 && all_zero(b)) || b.len() == 0 {
        Ok(empty_model())
    } else {
        match scan_headers(b, 0) {
            Err(e) => Err(e),
            Ok(h) => {
                let conds = if h.var_offset is Some && h.var_offset->0 < b.len() {
                    scan_conditions(b, h.var_offset->0, h.end)
                } else {
                    Ok((Seq::empty(), h.end))
                };
                match conds {
                    Err(e) => Err(e),
                    Ok((cs, end)) => Ok(
                        LevelScriptModel {
                            headers: h.entries,
                            conditions: cs,
                            padding: trailing_padding(b, end),
                        },
                    ),
                }
            }
        }
    }
}

// ---------------------------------------------------------------------------
// Validation model
// ---------------------------------------------------------------------------

/// Index of the first var condition at or after `i` with `var == 0`, or `-1`.
pub open spec fn first_zero_var_from(cs: Seq<LevelScriptVarConditionEntry>, i: int) -> int
    decreases cs.len() - i,
{
    if i >= cs.len() || i < 0 {
        -1
    } else if cs[i].var == 0 {
        i
    } else {
        first_zero_var_from(cs, i + 1)
    }
}

/// What validating a levelscript model yields.
pub open spec fn spec_validate(m: LevelScriptModel) -> Result<(), LevelScriptValidationError> {
    let count = var_header_count(m.headers);
    if count > 1 {
        Err(LevelScriptValidationError::DuplicateOnVarCondition { count: count as usize })
    } else if m.conditions.len() > 0 && count == 0 {
        Err(
            LevelScriptValidationError::ConditionsWithoutHeader {
                condition_count: m.conditions.len() as usize,
            },
        )
    } else if first_zero_var_from(m.conditions, 0) >= 0 {
        Err(
            LevelScriptValidationError::ZeroVarInCondition {
                index: first_zero_var_from(m.conditions, 0) as usize,
            },
        )
    } else {
        Ok(())
    }
}

// ---------------------------------------------------------------------------
// Executable code
// ---------------------------------------------------------------------------

/// Appends the little-endian bytes of `x` to `out`.
pub(crate) fn push_le32(out: &mut Vec<u8>, x: u32)
    ensures
        final(out)@ == old(out)@ + le32(x),
{
    out.push((x % 256) as u8);
    out.push(((x / 256) % 256) as u8);
    out.push(((x / 65536) % 256) as u8);
    out.push((x / 16777216) as u8);
    assert(final(out)@ =~= old(out)@ + le32(x));
}

/// Appends the little-endian bytes of `x` to `out`.
pub(crate) fn push_le16(out: &mut Vec<u8>, x: u16)
    ensures
        final(out)@ == old(out)@ + le16(x),
{
    out.push((x % 256) as u8);
    out.push((x / 256) as u8);
    assert(final(out)@ =~= old(out)@ + le16(x));
}

/// Reads the little-endian `u32` at `b[i..i + 4]`.
pub(crate) fn get_le32(b: &[u8], i: usize) -> (r: u32)
    requires
        i + 4 <= b@.len(),
    ensures
        r == read_le32(b@, i as int),
{
    (b[i] as u32) + (b[i + 1] as u32) * 256 + (b[i + 2] as u32) * 65536 + (b[i + 3] as u32)
        * 16777216
}

/// Reads the little-endian `u16` at `b[i..i + 2]`.
pub(crate) fn get_le16(b: &[u8], i: usize) -> (r: u16)
    requires
        i + 2 <= b@.len(),
    ensures
        r == read_le16(b@, i as int),
{
    (b[i] as u16) + (b[i + 1] as u16) * 256
}

/// Reads the script id operand of a header entry at `*pc`, advancing `pc`.
fn parse_script_entry(bytes: &[u8], pc: &mut usize, entry_type: &str) -> (r: Result<u32, String>)
    requires
        *old(pc) <= bytes@.len(),
    ensures
        *old(pc) + 4 > bytes@.len() ==> (r matches Err(e) && e@ == truncated_message(entry_type@))
            && *final(pc) == *old(pc),
        *old(pc) + 4 <= bytes@.len() ==> r == Ok::<u32, String>(read_le32(bytes@, *old(pc) as int))
            && *final(pc) == *old(pc) + 4,
{
    if bytes.len() - *pc < 4 {
        let mut m = string_from("Levelscript: ");
        m.append(entry_type);
        m.append(" truncated");
        return Err(m);
    }
    let id = get_le32(bytes, *pc);
    *pc = *pc + 4;
    Ok(id)
}

/// Whether every byte of `b[from..]` is zero.
fn all_zero_from(b: &[u8], from: usize) -> (r: bool)
    requires
        from <= b@.len(),
    ensures
        r == (forall|i: int| from <= i < b@.len() ==> b@[i] == 0),
{
    let mut i = from;
    while i < b.len()
        invariant
            from <= i <= b@.len(),
            forall|j: int| from <= j < i ==> b@[j] == 0,
        decreases b.len() - i,
    {
        if b[i] != 0 {
            return false;
        }
        i = i + 1;
    }
    true
}

impl LevelScript {
    /// Creates an empty levelscript.
    pub fn new() -> (r: Self)
        ensures
            r@ == empty_model(),
    {
        LevelScript { header_entries: Vec::new(), var_conditions: Vec::new(), padding: 0 }
    }

    /// Whether the levelscript is empty: no header entries, no var
    /// conditions and no padding.
    pub fn is_empty(&self) -> (r: bool)
        ensures
            r == (self.header_entries@.len() == 0 && self.var_conditions@.len() == 0
                && self.padding == 0),
    {
        self.header_entries.len() == 0 && self.var_conditions.len() == 0 && self.padding == 0
    }

    /// Whether some header entry is the var-condition pointer.
    pub fn has_var_condition(&self) -> (r: bool)
        ensures
            r == (last_var_header(self.header_entries@) >= 0),
            r == (exists|i: int|
                0 <= i < self.header_entries@.len() && is_var_header(self.header_entries@[i])),
    {
        let mut i: usize = 0;
        let mut found = false;
        while i < self.header_entries.len()
            invariant
                i <= self.header_entries@.len(),
                found == (last_var_header(self.header_entries@.take(i as int)) >= 0),
                found == (exists|j: int| 0 <= j < i && is_var_header(self.header_entries@[j])),
            decreases self.header_entries.len() - i,
        {
            let ghost hs = self.header_entries@;
            proof {
                lemma_last_var_header_bounds(hs.take(i + 1));
                lemma_last_var_header_bounds(hs.take(i as int));
                assert(hs.take(i + 1).drop_last() =~= hs.take(i as int));
            }
            if matches!(self.header_entries[i], LevelScriptHeaderEntry::OnVarCondition) {
                found = true;
            }
            i = i + 1;
        }
        assert(self.header_entries@.take(i as int) =~= self.header_entries@);
        found
    }

    /// Whether there are var conditions.
    pub fn has_var_conditions(&self) -> (r: bool)
        ensures
            r == (self.var_conditions@.len() > 0),
    {
        self.var_conditions.len() != 0
    }

    /// Checks the invariants the engine relies on: at most one var-condition
    /// pointer, a pointer whenever there are conditions, and no zero var.
    pub fn validate(&self) -> (r: Result<(), LevelScriptValidationError>)
        ensures
            r == spec_validate(self@),
    {
        let mut count: usize = 0;
        let mut i: usize = 0;
        while i < self.header_entries.len()
            invariant
                i <= self.header_entries@.len(),
                count == var_header_count(self.header_entries@.take(i as int)),
                count <= i,
            decreases self.header_entries.len() - i,
        {
            assert(self.header_entries@.take(i + 1).drop_last() =~= self.header_entries@.take(
                i as int,
            ));
            if matches!(self.header_entries[i], LevelScriptHeaderEntry::OnVarCondition) {
                count = count + 1;
            }
            i = i + 1;
        }
        assert(self.header_entries@.take(i as int) =~= self.header_entries@);
        if count > 1 {
            return Err(LevelScriptValidationError::DuplicateOnVarCondition { count });
        }
        if self.var_conditions.len() != 0 && count == 0 {
            return Err(
                LevelScriptValidationError::ConditionsWithoutHeader {
                    condition_count: self.var_conditions.len(),
                },
            );
        }
        let mut index: usize = 0;
        while index < self.var_conditions.len()
            invariant
                index <= self.var_conditions@.len(),
                var_header_count(self.header_entries@) <= 1,
                !(self.var_conditions@.len() > 0 && var_header_count(self.header_entries@) == 0),
                first_zero_var_from(self.var_conditions@, 0) == first_zero_var_from(
                    self.var_conditions@,
                    index as int,
                ),
            decreases self.var_conditions.len() - index,
        {
            if self.var_conditions[index].var == 0 {
                assert(first_zero_var_from(self.var_conditions@, index as int) == index);
                return Err(LevelScriptValidationError::ZeroVarInCondition { index });
            }
            index = index + 1;
        }
        Ok(())
    }

    /// Parses a levelscript binary.
    pub fn from_bytes(bytes: &[u8]) -> (r: Result<Self, String>)
        ensures
            match spec_from_bytes(bytes@) {
                Ok(m) => r matches Ok(ls) && ls@ == m,
                Err(msg) => r matches Err(e) && e@ == msg,
            },
    {
        if bytes.len() == 4 && all_zero_from(bytes, 0) {
            return Ok(Self::new());
        }
        if bytes.len() == 0 {
            return Ok(Self::new());
        }
        let mut levelscript = LevelScript::new();
        let mut pc: usize = 0;
        let mut var_offset: Option<usize> = None;
        let ghost mut voff: Option<int> = None;
        let ghost b = bytes@;
        loop
            invariant_except_break
                pc <= b.len(),
                b == bytes@,
                b.len() > 0,
                scan_headers(b, 0) == combine_scan(
                    levelscript.header_entries@,
                    voff,
                    scan_headers(b, pc as int),
                ),
                offset_fits(voff, var_offset),
                levelscript.var_conditions@.len() == 0,
                levelscript.padding == 0,
            ensures
                pc <= b.len(),
                b == bytes@,
                scan_headers(b, 0) == Ok::<HeaderScan, Seq<char>>(
                    HeaderScan {
                        entries: levelscript.header_entries@,
                        var_offset: voff,
                        end: pc as int,
                    },
                ),
                offset_fits(voff, var_offset),
                levelscript.var_conditions@.len() == 0,
                levelscript.padding == 0,
            decreases b.len() - pc,
        {
            if pc >= bytes.len() {
                assert(levelscript.header_entries@ + Seq::<LevelScriptHeaderEntry>::empty()
                    =~= levelscript.header_entries@);
                break;
            }
            let cmd = bytes[pc];
            if cmd == ENTRY_END {
                pc = pc + 1;
                assert(levelscript.header_entries@ + Seq::<LevelScriptHeaderEntry>::empty()
                    =~= levelscript.header_entries@);
                break;
            } else if cmd == ON_FRAME_TABLE {
                if bytes.len() - pc < 5 {
                    return Err(concat3("Levelscript: ", "ON_FRAME_TABLE", " truncated"));
                }
                let rel = get_le32(bytes, pc + 1);
                let after = pc + 5;
                proof {
                    voff = Some(after + rel as int);
                }
                if (usize::MAX - after) < rel as usize {
                    var_offset = None;
                } else {
                    var_offset = Some(after + rel as usize);
                }
                let ghost old_entries = levelscript.header_entries@;
                levelscript.header_entries.push(LevelScriptHeaderEntry::OnVarCondition);
                pc = after;
                proof {
                    match scan_headers(b, pc as int) {
                        Ok(rest) => {
                            assert(old_entries + (seq![LevelScriptHeaderEntry::OnVarCondition]
                                + rest.entries) =~= levelscript.header_entries@ + rest.entries);
                        },
                        Err(_) => {},
                    }
                }
            } else if cmd == ON_TRANSITION || cmd == ON_RESUME || cmd == ON_LOAD {
                let name = if cmd == ON_TRANSITION {
                    "ON_TRANSITION"
                } else if cmd == ON_RESUME {
                    "ON_RESUME"
                } else {
                    "ON_LOAD"
                };
                pc = pc + 1;
                let script_id = match parse_script_entry(bytes, &mut pc, name) {
                    Ok(id) => id,
                    Err(e) => {
                        return Err(e);
                    },
                };
                let entry = if cmd == ON_TRANSITION {
                    LevelScriptHeaderEntry::OnTransition { script_id }
                } else if cmd == ON_RESUME {
                    LevelScriptHeaderEntry::OnResume { script_id }
                } else {
                    LevelScriptHeaderEntry::OnLoad { script_id }
                };
                let ghost old_entries = levelscript.header_entries@;
                levelscript.header_entries.push(entry);
                proof {
                    match scan_headers(b, pc as int) {
                        Ok(rest) => {
                            assert(old_entries + (seq![entry] + rest.entries)
                                =~= levelscript.header_entries@ + rest.entries);
                        },
                        Err(_) => {},
                    }
                }
            } else {
                let mut m = string_from("Levelscript: Unknown command byte 0x");
                let hex = u64_to_hex_padded(cmd as u64, 2);
                m.append(hex.as_str());
                m.append(" at offset ");
                let off = usize_to_string(pc);
                m.append(off.as_str());
                return Err(m);
            }
        }
        let mut logical_end = pc;
        let ghost h = scan_headers(b, 0)->Ok_0;
        if let Some(offset) = var_offset {
            if offset < bytes.len() {
                let mut vpc = offset;
                assert(h.var_offset == Some(offset as int));
                loop
                    invariant_except_break
                        b == bytes@,
                        h.var_offset == Some(offset as int),
                        offset < b.len(),
                        scan_headers(b, 0) == Ok::<HeaderScan, Seq<char>>(h),
                        !(b.len() == 4 && all_zero(b)),
                        b.len() > 0,
                        vpc <= b.len(),
                        scan_conditions(b, offset as int, h.end) == (match scan_conditions(
                            b,
                            vpc as int,
                            logical_end as int,
                        ) {
                            Ok((rest, e)) => Ok((levelscript.var_conditions@ + rest, e)),
                            Err(msg) => Err(msg),
                        }),
                        levelscript.header_entries@ == h.entries,
                        levelscript.padding == 0,
                    ensures
                        b == bytes@,
                        h.var_offset == Some(offset as int),
                        offset < b.len(),
                        scan_conditions(b, offset as int, h.end) == Ok::<
                            (Seq<LevelScriptVarConditionEntry>, int),
                            Seq<char>,
                        >((levelscript.var_conditions@, logical_end as int)),
                        levelscript.header_entries@ == h.entries,
                        levelscript.padding == 0,
                    decreases b.len() - vpc,
                {
                    if bytes.len() - vpc < 2 {
                        assert(levelscript.var_conditions@ + Seq::<
                            LevelScriptVarConditionEntry,
                        >::empty() =~= levelscript.var_conditions@);
                        break;
                    }
                    let var = get_le16(bytes, vpc);
                    if var == 0 {
                        logical_end = vpc + 2;
                        assert(levelscript.var_conditions@ + Seq::<
                            LevelScriptVarConditionEntry,
                        >::empty() =~= levelscript.var_conditions@);
                        break;
                    }
                    if bytes.len() - vpc < 6 {
                        assert(scan_conditions(b, vpc as int, logical_end as int) == Err::<
                            (Seq<LevelScriptVarConditionEntry>, int),
                            Seq<char>,
                        >(truncated_condition_message()));
                        assert(scan_conditions(b, offset as int, h.end) == Err::<
                            (Seq<LevelScriptVarConditionEntry>, int),
                            Seq<char>,
                        >(truncated_condition_message()));
                        assert(spec_from_bytes(b) == Err::<LevelScriptModel, Seq<char>>(
                            truncated_condition_message(),
                        ));
                        let msg = string_from("Levelscript: Var-condition entry truncated");
                        assert(msg@ == truncated_condition_message());
                        return Err(msg);
                    }
                    let value = get_le16(bytes, vpc + 2);
                    let script_id = get_le16(bytes, vpc + 4);
                    let c = LevelScriptVarConditionEntry { var, value, script_id };
                    let ghost old_conds = levelscript.var_conditions@;
                    levelscript.var_conditions.push(c);
                    vpc = vpc + 6;
                    logical_end = vpc;
                    proof {
                        match scan_conditions(b, vpc as int, vpc as int) {
                            Ok((rest, e)) => {
                                assert(old_conds + (seq![c] + rest) =~= levelscript.var_conditions@
                                    + rest);
                            },
                            Err(_) => {},
                        }
                    }
                }
            }
        }
        assert(levelscript.var_conditions@.len() == 0 ==> levelscript.var_conditions@ =~= Seq::<
            LevelScriptVarConditionEntry,
        >::empty());
        assert((if h.var_offset is Some && h.var_offset->0 < b.len() {
            scan_conditions(b, h.var_offset->0, h.end)
        } else {
            Ok((Seq::empty(), h.end))
        }) == Ok::<(Seq<LevelScriptVarConditionEntry>, int), Seq<char>>(
            (levelscript.var_conditions@, logical_end as int),
        ));
        // Zero padding beyond the aligned logical end.
        let rem = logical_end % 4;
        if rem != 0 && logical_end > usize::MAX - 4 {
            assert(logical_end + align_pad(logical_end as nat) > b.len());
            return Ok(levelscript);
        }
        let aligned = if rem == 0 {
            logical_end
        } else {
            logical_end + (4 - rem)
        };
        assert(aligned == logical_end + align_pad(logical_end as nat));
        if bytes.len() > aligned {
            if all_zero_from(bytes, aligned) {
                let extra = bytes.len() - aligned;
                levelscript.padding = (extra % 256) as u8;
            }
        }
        Ok(levelscript)
    }

    /// Serializes the levelscript to its binary image.
    pub fn to_bytes(&self) -> (r: Vec<u8>)
        requires
            5 * self.header_entries@.len() + 6 * self.var_conditions@.len() + 300 <= usize::MAX,
        ensures
            r@ == spec_to_bytes(self@),
    {
        // Without entries the image is the bare terminator word, padding
        // or not.
        if self.header_entries.len() == 0 && self.var_conditions.len() == 0 {
            let mut v: Vec<u8> = Vec::new();
            v.push(0);
            v.push(0);
            v.push(0);
            v.push(0);
            assert(v@ =~= seq![0u8, 0u8, 0u8, 0u8]);
            return v;
        }
        let ghost hs = self.header_entries@;
        let ghost n = hs.len() as int;
        let has_var = self.has_var_condition();
        // Index of the last var-condition pointer.
        let mut k: usize = 0;
        let mut i: usize = 0;
        while i < self.header_entries.len()
            invariant
                i <= hs.len(),
                hs == self.header_entries@,
                last_var_header(hs.take(i as int)) >= 0 ==> k == last_var_header(
                    hs.take(i as int),
                ),
            decreases self.header_entries.len() - i,
        {
            assert(hs.take(i + 1).drop_last() =~= hs.take(i as int));
            if matches!(self.header_entries[i], LevelScriptHeaderEntry::OnVarCondition) {
                k = i;
            }
            i = i + 1;
        }
        assert(hs.take(n) =~= hs);
        let ghost kk: int = last_var_header(hs);
        proof {
            lemma_last_var_header_bounds(hs);
        }
        let ghost m = self.var_conditions@.len() as int;
        let mut bytes: Vec<u8> = Vec::new();
        let mut j: usize = 0;
        while j < self.header_entries.len()
            invariant
                j <= n,
                hs == self.header_entries@,
                n == hs.len(),
                5 * n + 300 <= usize::MAX,
                has_var == (kk >= 0),
                kk >= 0 ==> k == kk,
                kk < n,
                bytes@ + headers_bytes_from(hs, j as int, kk) == headers_bytes_from(hs, 0, kk),
                bytes@.len() == 5 * j,
            decreases self.header_entries.len() - j,
        {
            proof {
                lemma_last_var_header_bounds(hs);
            }
            let ghost before = bytes@;
            match self.header_entries[j] {
                LevelScriptHeaderEntry::OnTransition { script_id } => {
                    bytes.push(ON_TRANSITION);
                    push_le32(&mut bytes, script_id);
                },
                LevelScriptHeaderEntry::OnResume { script_id } => {
                    bytes.push(ON_RESUME);
                    push_le32(&mut bytes, script_id);
                },
                LevelScriptHeaderEntry::OnLoad { script_id } => {
                    bytes.push(ON_LOAD);
                    push_le32(&mut bytes, script_id);
                },
                LevelScriptHeaderEntry::OnVarCondition => {
                    bytes.push(ON_FRAME_TABLE);
                    if has_var && j == k {
                        let rel = (5 * (self.header_entries.len() - 1 - j) + 1) as u32;
                        push_le32(&mut bytes, rel);
                    } else {
                        push_le32(&mut bytes, 0);
                    }
                },
            }
            assert(bytes@ =~= before + header_bytes(hs[j as int], j as int, n, kk));
            assert(headers_bytes_from(hs, j as int, kk) == header_bytes(hs[j as int], j as int, n, kk)
                + headers_bytes_from(hs, j + 1, kk));
            assert(bytes@ + headers_bytes_from(hs, j + 1, kk) =~= before + headers_bytes_from(
                hs,
                j as int,
                kk,
            ));
            j = j + 1;
        }
        assert(bytes@ =~= headers_bytes_from(hs, 0, kk));
        bytes.push(ENTRY_END);
        if has_var {
            let ghost cs = self.var_conditions@;
            let ghost before = bytes@;
            let mut c: usize = 0;
            while c < self.var_conditions.len()
                invariant
                    c <= cs.len(),
                    cs == self.var_conditions@,
                    bytes@ + conditions_bytes_from(cs, c as int) == before + conditions_bytes_from(
                        cs,
                        0,
                    ),
                    bytes@.len() == before.len() + 6 * c,
                    before.len() == 5 * n + 1,
                    5 * n + 6 * cs.len() + 300 <= usize::MAX,
                decreases self.var_conditions.len() - c,
            {
                let ghost prev = bytes@;
                let e = self.var_conditions[c];
                push_le16(&mut bytes, e.var);
                push_le16(&mut bytes, e.value);
                push_le16(&mut bytes, e.script_id);
                assert(bytes@ + conditions_bytes_from(cs, c + 1) =~= prev + conditions_bytes_from(
                    cs,
                    c as int,
                ));
                c = c + 1;
            }
            assert(conditions_bytes_from(cs, c as int) =~= Seq::<u8>::empty());
            bytes.push(0);
            bytes.push(0);
        }
        assert(bytes@.len() <= 5 * n + 6 * m + 3);
        let ghost body = bytes@;
        assert(body =~= body_bytes(self@));
        while bytes.len() % 4 != 0
            invariant
                body == body_bytes(self@),
                body.len() <= bytes@.len() <= body.len() + 3,
                bytes@ == body + zeros((bytes@.len() - body.len()) as nat),
                (bytes@.len() - body.len()) <= align_pad(body.len()),
                body.len() + 280 <= usize::MAX,
            decreases 4 - (bytes.len() - body.len()),
        {
            let ghost prev = bytes@;
            bytes.push(0);
            assert(bytes@ =~= body + zeros((bytes@.len() - body.len()) as nat));
        }
        assert(bytes@.len() - body.len() == align_pad(body.len()));
        let ghost aligned = bytes@;
        let mut p: u8 = 0;
        while p < self.padding
            invariant
                p <= self.padding,
                bytes@ == aligned + zeros(p as nat),
                aligned.len() + 270 <= usize::MAX,
                aligned == body + zeros(align_pad(body.len())),
            decreases self.padding - p,
        {
            bytes.push(0);
            p = p + 1;
            assert(bytes@ =~= aligned + zeros(p as nat));
        }
        bytes
    }
}

/// Facts about the index of the last var-condition pointer.
pub proof fn lemma_last_var_header_bounds(hs: Seq<LevelScriptHeaderEntry>)
    ensures
        -1 <= last_var_header(hs) < hs.len(),
        last_var_header(hs) >= 0 ==> is_var_header(hs[last_var_header(hs)]),
        last_var_header(hs) >= 0 <==> exists|i: int| 0 <= i < hs.len() && is_var_header(hs[i]),
        forall|i: int| last_var_header(hs) < i < hs.len() ==> !is_var_header(#[trigger] hs[i]),
    decreases hs.len(),
{
    if hs.len() > 0 {
        lemma_last_var_header_bounds(hs.drop_last());
        if !is_var_header(hs.last()) {
            if exists|i: int| 0 <= i < hs.len() && is_var_header(hs[i]) {
                let i = choose|i: int| 0 <= i < hs.len() && is_var_header(hs[i]);
                assert(hs.drop_last()[i] == hs[i]);
            }
            assert forall|i: int| last_var_header(hs) < i < hs.len() implies !is_var_header(
                #[trigger] hs[i],
            ) by {
                if i < hs.len() - 1 {
                    assert(hs.drop_last()[i] == hs[i]);
                }
            }
        }
    }
}

} // verus!

verus! {

// ---------------------------------------------------------------------------
// Round trip: parsing the image of a valid levelscript gives it back
// ---------------------------------------------------------------------------

pub proof fn lemma_le32_roundtrip(x: u32)
    ensures
        read_le32(le32(x), 0) == x,
{
    let s = le32(x);
    assert(s[0] as int == x % 256);
    assert(s[1] as int == (x / 256) % 256);
    assert(s[2] as int == (x / 65536) % 256);
    assert(s[3] as int == x / 16777216);
    assert(x % 256 + ((x / 256) % 256) * 256 + ((x / 65536) % 256) * 65536 + (x / 16777216)
        * 16777216 == x) by (nonlinear_arith)
        requires
            0 <= x < 0x1_0000_0000,
    ;
}

pub proof fn lemma_le16_roundtrip(x: u16)
    ensures
        read_le16(le16(x), 0) == x,
{
    let s = le16(x);
    assert(s[0] as int == x % 256);
    assert(s[1] as int == x / 256);
}

/// Reading at offset `i` of `b` reads the same bytes as reading `b[i..]`.
pub proof fn lemma_read_shift(b: Seq<u8>, s: Seq<u8>, i: int, w: int)
    requires
        0 <= i,
        i + w <= b.len(),
        w == s.len(),
        forall|j: int| 0 <= j < w ==> b[i + j] == s[j],
    ensures
        w >= 4 ==> read_le32(b, i) == read_le32(s, 0),
        w >= 2 ==> read_le16(b, i) == read_le16(s, 0),
{
    if w >= 4 {
        assert(b[i] == s[0] && b[i + 1] == s[1] && b[i + 2] == s[2] && b[i + 3] == s[3]);
    }
    if w >= 2 {
        assert(b[i] == s[0] && b[i + 1] == s[1]);
    }
}

proof fn lemma_headers_bytes_len(hs: Seq<LevelScriptHeaderEntry>, i: int, k: int)
    requires
        0 <= i <= hs.len(),
    ensures
        headers_bytes_from(hs, i, k).len() == 5 * (hs.len() - i),
    decreases hs.len() - i,
{
    if i < hs.len() {
        lemma_headers_bytes_len(hs, i + 1, k);
    }
}

proof fn lemma_headers_bytes_index(hs: Seq<LevelScriptHeaderEntry>, i0: int, i: int, j: int, k: int)
    requires
        0 <= i0 <= i < hs.len(),
        0 <= j < 5,
    ensures
        headers_bytes_from(hs, i0, k)[5 * (i - i0) + j] == header_bytes(
            hs[i],
            i,
            hs.len() as int,
            k,
        )[j],
    decreases i - i0,
{
    lemma_headers_bytes_len(hs, i0 + 1, k);
    if i > i0 {
        lemma_headers_bytes_index(hs, i0 + 1, i, j, k);
    }
}

proof fn lemma_conditions_bytes_len(cs: Seq<LevelScriptVarConditionEntry>, i: int)
    requires
        0 <= i <= cs.len(),
    ensures
        conditions_bytes_from(cs, i).len() == 6 * (cs.len() - i),
    decreases cs.len() - i,
{
    if i < cs.len() {
        lemma_conditions_bytes_len(cs, i + 1);
    }
}

/// Bytes of the var-condition entry `c`.
spec fn condition_bytes(c: LevelScriptVarConditionEntry) -> Seq<u8> {
    le16(c.var) + le16(c.value) + le16(c.script_id)
}

proof fn lemma_conditions_bytes_index(cs: Seq<LevelScriptVarConditionEntry>, i0: int, i: int, j: int)
    requires
        0 <= i0 <= i < cs.len(),
        0 <= j < 6,
    ensures
        conditions_bytes_from(cs, i0)[6 * (i - i0) + j] == condition_bytes(cs[i])[j],
    decreases i - i0,
{
    lemma_conditions_bytes_len(cs, i0 + 1);
    if i > i0 {
        lemma_conditions_bytes_index(cs, i0 + 1, i, j);
    }
}

proof fn lemma_var_header_count_zero(hs: Seq<LevelScriptHeaderEntry>)
    ensures
        (var_header_count(hs) == 0) == (last_var_header(hs) < 0),
    decreases hs.len(),
{
    if hs.len() > 0 {
        lemma_var_header_count_zero(hs.drop_last());
    }
}

/// Scanning the header list of an image, from entry `i` on.
proof fn lemma_scan_headers_image(b: Seq<u8>, hs: Seq<LevelScriptHeaderEntry>, i: int)
    requires
        0 <= i <= hs.len(),
        5 * hs.len() + 1 <= u32::MAX,
        b.len() > 5 * hs.len(),
        b.subrange(0, 5 * (hs.len() as int)) == headers_bytes_from(hs, 0, last_var_header(hs)),
        b[5 * (hs.len() as int)] == ENTRY_END,
    ensures
        scan_headers(b, 5 * i) == Ok::<HeaderScan, Seq<char>>(
            HeaderScan {
                entries: hs.subrange(i, hs.len() as int),
                var_offset: if last_var_header(hs) >= i {
                    Some(5 * (hs.len() as int) + 1)
                } else {
                    None
                },
                end: 5 * (hs.len() as int) + 1,
            },
        ),
    decreases hs.len() - i,
{
    let n = hs.len() as int;
    let k = last_var_header(hs);
    lemma_last_var_header_bounds(hs);
    lemma_headers_bytes_len(hs, 0, k);
    if i == n {
        assert(hs.subrange(i, n) =~= Seq::<LevelScriptHeaderEntry>::empty());
    } else {
        lemma_scan_headers_image(b, hs, i + 1);
        let hb = header_bytes(hs[i], i, n, k);
        assert forall|j: int| 0 <= j < 5 implies b[5 * i + j] == hb[j] by {
            lemma_headers_bytes_index(hs, 0, i, j, k);
            assert(b[5 * i + j] == b.subrange(0, 5 * n)[5 * i + j]);
        }
        let operand = hb.subrange(1, 5);
        assert forall|j: int| 0 <= j < 4 implies b[(5 * i + 1) + j] == operand[j] by {
            assert(b[5 * i + (j + 1)] == hb[j + 1]);
        }
        lemma_read_shift(b, operand, 5 * i + 1, 4);
        assert(b[5 * i] == hb[0]);
        assert(hs.subrange(i, n) =~= seq![hs[i]] + hs.subrange(i + 1, n));
        match hs[i] {
            LevelScriptHeaderEntry::OnTransition { script_id } => {
                assert(operand =~= le32(script_id));
                lemma_le32_roundtrip(script_id);
            },
            LevelScriptHeaderEntry::OnResume { script_id } => {
                assert(operand =~= le32(script_id));
                lemma_le32_roundtrip(script_id);
            },
            LevelScriptHeaderEntry::OnLoad { script_id } => {
                assert(operand =~= le32(script_id));
                lemma_le32_roundtrip(script_id);
            },
            LevelScriptHeaderEntry::OnVarCondition => {
                let x = if i == k {
                    (5 * (n - 1 - i) + 1) as u32
                } else {
                    0u32
                };
                assert(operand =~= le32(x));
                lemma_le32_roundtrip(x);
                assert(i <= k);
            },
        }
        assert(5 * i + 5 == 5 * (i + 1));
    }
}

/// Scanning the var-condition table of an image, from entry `t` on.
proof fn lemma_scan_conditions_image(
    b: Seq<u8>,
    cs: Seq<LevelScriptVarConditionEntry>,
    base: int,
    t: int,
    e: int,
)
    requires
        0 <= t <= cs.len(),
        0 <= base,
        b.len() >= base + 6 * cs.len() + 2,
        b.subrange(base, base + 6 * cs.len()) == conditions_bytes_from(cs, 0),
        b[base + 6 * cs.len()] == 0,
        b[base + 6 * cs.len() + 1] == 0,
        forall|i: int| 0 <= i < cs.len() ==> (#[trigger] cs[i]).var != 0,
    ensures
        scan_conditions(b, base + 6 * t, e) == Ok::<
            (Seq<LevelScriptVarConditionEntry>, int),
            Seq<char>,
        >((cs.subrange(t, cs.len() as int), base + 6 * cs.len() + 2)),
    decreases cs.len() - t,
{
    let q = cs.len() as int;
    lemma_conditions_bytes_len(cs, 0);
    if t == q {
        assert(b[base + 6 * t] == 0 && b[base + 6 * t + 1] == 0);
        assert(read_le16(b, base + 6 * t) == 0);
        assert(cs.subrange(t, q) =~= Seq::<LevelScriptVarConditionEntry>::empty());
    } else {
        lemma_scan_conditions_image(b, cs, base, t + 1, base + 6 * (t + 1));
        let cb = condition_bytes(cs[t]);
        assert forall|j: int| 0 <= j < 6 implies b[base + 6 * t + j] == cb[j] by {
            lemma_conditions_bytes_index(cs, 0, t, j);
            assert(b[base + 6 * t + j] == b.subrange(base, base + 6 * q)[6 * t + j]);
        }
        let p = base + 6 * t;
        assert forall|j: int| 0 <= j < 2 implies b[p + j] == le16(cs[t].var)[j] by {
            assert(b[p + j] == cb[j]);
        }
        assert forall|j: int| 0 <= j < 2 implies b[(p + 2) + j] == le16(cs[t].value)[j] by {
            assert(b[p + (j + 2)] == cb[j + 2]);
        }
        assert forall|j: int| 0 <= j < 2 implies b[(p + 4) + j] == le16(cs[t].script_id)[j] by {
            assert(b[p + (j + 4)] == cb[j + 4]);
        }
        lemma_read_shift(b, le16(cs[t].var), p, 2);
        lemma_read_shift(b, le16(cs[t].value), p + 2, 2);
        lemma_read_shift(b, le16(cs[t].script_id), p + 4, 2);
        lemma_le16_roundtrip(cs[t].var);
        lemma_le16_roundtrip(cs[t].value);
        lemma_le16_roundtrip(cs[t].script_id);
        assert(cs.subrange(t, q) =~= seq![cs[t]] + cs.subrange(t + 1, q));
        assert(p + 6 == base + 6 * (t + 1));
    }
}

/// Parsing the binary image of a valid levelscript gives back the same
/// levelscript: header order, var conditions and extra padding all survive.
/// (An empty levelscript carries no padding, and the header list must be
/// small enough for its table pointer to fit in 32 bits.)
#[verifier::spinoff_prover]
#[verifier::rlimit(40)]
pub proof fn lemma_to_bytes_from_bytes_roundtrip(m: LevelScriptModel)
    requires
        spec_validate(m) is Ok,
        m.headers.len() == 0 && m.conditions.len() == 0 ==> m.padding == 0,
        5 * m.headers.len() + 1 <= u32::MAX,
    ensures
        spec_from_bytes(spec_to_bytes(m)) == Ok::<LevelScriptModel, Seq<char>>(m),
{
    let hs = m.headers;
    let cs = m.conditions;
    let n = hs.len() as int;
    let q = cs.len() as int;
    let k = last_var_header(hs);
    let b = spec_to_bytes(m);
    lemma_var_header_count_zero(hs);
    lemma_last_var_header_bounds(hs);
    if n == 0 && q == 0 {
        assert(b =~= seq![0u8, 0u8, 0u8, 0u8]);
        assert(all_zero(b));
        assert(m.headers =~= Seq::<LevelScriptHeaderEntry>::empty());
        assert(m.conditions =~= Seq::<LevelScriptVarConditionEntry>::empty());
    } else {
        assert(n > 0);
        let hbytes = headers_bytes_from(hs, 0, k);
        lemma_headers_bytes_len(hs, 0, k);
        lemma_conditions_bytes_len(cs, 0);
        let body = body_bytes(m);
        let pad = align_pad(body.len());
        assert(b == body + zeros(pad) + zeros(m.padding as nat));
        assert(b.subrange(0, 5 * n) =~= hbytes);
        assert(b[5 * n] == ENTRY_END);
        // The first byte is a command byte, so the image is not all zeros.
        lemma_headers_bytes_index(hs, 0, 0, 0, k);
        assert(b[0] != 0);
        lemma_scan_headers_image(b, hs, 0);
        assert(hs.subrange(0, n) =~= hs);
        let base = 5 * n + 1;
        if k >= 0 {
            assert(b.subrange(base, base + 6 * q) =~= conditions_bytes_from(cs, 0));
            assert(b[base + 6 * q] == 0);
            assert(b[base + 6 * q + 1] == 0);
            assert forall|i: int| 0 <= i < q implies (#[trigger] cs[i]).var != 0 by {
                lemma_first_zero_var_none(cs, 0, i);
            }
            lemma_scan_conditions_image(b, cs, base, 0, base);
            assert(cs.subrange(0, q) =~= cs);
            assert(body.len() == base + 6 * q + 2);
        } else {
            assert(cs =~= Seq::<LevelScriptVarConditionEntry>::empty());
            assert(body.len() == base);
        }
        let aligned = body.len() + pad;
        assert(b.len() == aligned + m.padding);
        assert forall|i: int| aligned <= i < b.len() implies b[i] == 0 by {}
        assert(trailing_padding(b, body.len() as int) == m.padding);
    }
}

/// With no zero var found from `i` on, every entry from `i` on has a non-zero var.
proof fn lemma_first_zero_var_none(cs: Seq<LevelScriptVarConditionEntry>, i: int, j: int)
    requires
        first_zero_var_from(cs, i) < 0,
        0 <= i <= j < cs.len(),
    ensures
        cs[j].var != 0,
    decreases j - i,
{
    if i < j {
        lemma_first_zero_var_none(cs, i + 1, j);
    }
}

/// Serializing then parsing an executable levelscript gives back a value
/// equal to it (see [`lemma_to_bytes_from_bytes_roundtrip`]).
pub proof fn lemma_levelscript_roundtrip(ls: LevelScript)
    requires
        ls.validate_spec(),
        ls.header_entries@.len() == 0 && ls.var_conditions@.len() == 0 ==> ls.padding == 0,
        5 * ls.header_entries@.len() + 1 <= u32::MAX,
    ensures
        spec_from_bytes(spec_to_bytes(ls@)) == Ok::<LevelScriptModel, Seq<char>>(ls@),
{
    lemma_to_bytes_from_bytes_roundtrip(ls@);
}

impl LevelScript {
    /// Whether [`LevelScript::validate`] accepts this levelscript.
    pub open spec fn validate_spec(&self) -> bool {
        spec_validate(self@) is Ok
    }
}

} // verus!

verus! {

impl LevelScriptValidationError {
    /// The human-readable description of this error (its `Display` text).
    pub fn message(&self) -> (r: String)
        ensures
            r@ == match *self {
                LevelScriptValidationError::ZeroVarInCondition { index } => "var-condition entry at index "@
                    + nat_to_decimal(index as nat)
                    + " has var == 0, which is the binary frame-table terminator and would be ignored by the game"@,
                LevelScriptValidationError::DuplicateOnVarCondition { count } => "found "@
                    + nat_to_decimal(count as nat)
                    + " on_var_condition header entries; at most one is allowed"@,
                LevelScriptValidationError::ConditionsWithoutHeader { condition_count } =>
                    nat_to_decimal(condition_count as nat)
                    + " var-condition(s) present but no on_var_condition header entry to reference them"@,
            },
    {
        match *self {
            LevelScriptValidationError::ZeroVarInCondition { index } => {
                let n = usize_to_string(index);
                concat3(
                    "var-condition entry at index ",
                    n.as_str(),
                    " has var == 0, which is the binary frame-table terminator and would be ignored by the game",
                )
            },
            LevelScriptValidationError::DuplicateOnVarCondition { count } => {
                let n = usize_to_string(count);
                concat3(
                    "found ",
                    n.as_str(),
                    " on_var_condition header entries; at most one is allowed",
                )
            },
            LevelScriptValidationError::ConditionsWithoutHeader { condition_count } => {
                let mut n = usize_to_string(condition_count);
                n.append(
                    " var-condition(s) present but no on_var_condition header entry to reference them",
                );
                n
            },
        }
    }
}

impl Default for LevelScript {
    fn default() -> (r: Self)
        ensures
            r@ == empty_model(),
    {
        LevelScript::new()
    }
}

} // verus!

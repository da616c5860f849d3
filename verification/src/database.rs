//! The script command database (the normalized V2 schema): commands,
//! movements and their parameters, looked up by name, legacy name, id or
//! `ScrCmd_`/`Dummy` alias.
//!
//! Maps of the schema are held as vectors of `(key, value)` pairs in file
//! order; a lookup by key finds the first pair with that key.

use vstd::prelude::*;

pub use crate::constant_db::ConstantDb;
use crate::compiler::diagnostic::error::{database_error, CompileError, ParseResult};
use crate::text::{
    chars_to_lower, chars_to_string, chars_to_upper, concat3, contains_chars, contains_seq,
    is_ascii_digit, is_prefix, parse_unsigned, parse_unsigned_spec, seq_to_lower, seq_to_upper,
    starts_with, str_chars, str_eq, to_uppercase, unicode_uppercase, spec_is_digit,
};

verus! {

// ---------------------------------------------------------------------------
// Names
// ---------------------------------------------------------------------------

/// `s` without its underscores.
pub open spec fn without_underscores(s: Seq<char>) -> Seq<char>
    decreases s.len(),
{
    if s.len() == 0 {
        Seq::empty()
    } else if s.last() == '_' {
        without_underscores(s.drop_last())
    } else {
        without_underscores(s.drop_last()).push(s.last())
    }
}

/// The canonical spelling of a command name: underscores dropped, ASCII
/// letters lower-cased (`goto_if` and `GoToIf` both give `gotoif`).
pub fn normalize_command_name(name: &str) -> (r: String)
    ensures
        r@ == seq_to_lower(without_underscores(name@)),
{
    let chars = str_chars(name);
    let mut kept: Vec<char> = Vec::new();
    let mut i: usize = 0;
    while i < chars.len()
        invariant
            i <= chars@.len(),
            kept@ == without_underscores(chars@.take(i as int)),
        decreases chars.len() - i,
    {
        assert(chars@.take(i + 1).drop_last() =~= chars@.take(i as int));
        if chars[i] != '_' {
            kept.push(chars[i]);
        }
        i = i + 1;
    }
    assert(chars@.take(chars@.len() as int) =~= chars@);
    let lowered = chars_to_lower(&kept);
    chars_to_string(&lowered)
}

// ---------------------------------------------------------------------------
// Game families
// ---------------------------------------------------------------------------

/// The generation-4 game families the database can describe.
#[derive(Debug, Clone, Copy, PartialEq, Eq, Structural)]
pub enum GameFamily {
    DP,
    Platinum,
    HGSS,
}

/// The game family a free-form hint names (case-insensitive), if any.
pub open spec fn family_of_hint(hint: Seq<char>) -> Option<GameFamily> {
    let h = seq_to_upper(hint);
    if contains_seq(h, "PLATINUM"@) {
        Some(GameFamily::Platinum)
    } else if contains_seq(h, "HEARTGOLD"@) || contains_seq(h, "SOULSILVER"@) || contains_seq(
        h,
        "HGSS"@,
    ) {
        Some(GameFamily::HGSS)
    } else if contains_seq(h, "DIAMOND"@) || contains_seq(h, "PEARL"@) || contains_seq(h, "DP"@) {
        Some(GameFamily::DP)
    } else {
        None
    }
}

/// The game family a free-form hint (such as a database version) names.
pub fn game_family_from_hint(hint: &str) -> (r: Option<GameFamily>)
    ensures
        r == family_of_hint(hint@),
{
    let chars = str_chars(hint);
    let h = chars_to_upper(&chars);
    if contains_chars(&h, &str_chars("PLATINUM")) {
        Some(GameFamily::Platinum)
    } else if contains_chars(&h, &str_chars("HEARTGOLD")) || contains_chars(
        &h,
        &str_chars("SOULSILVER"),
    ) || contains_chars(&h, &str_chars("HGSS")) {
        Some(GameFamily::HGSS)
    } else if contains_chars(&h, &str_chars("DIAMOND")) || contains_chars(&h, &str_chars("PEARL"))
        || contains_chars(&h, &str_chars("DP")) {
        Some(GameFamily::DP)
    } else {
        None
    }
}

/// Names of a game family for people and for configuration files.
pub trait GameFamilyExt {
    fn display_name(self) -> &'static str;

    fn config_name(self) -> &'static str;
}

impl GameFamilyExt for GameFamily {
    fn display_name(self) -> (r: &'static str)
        ensures
            r@ == match self {
                GameFamily::DP => "Diamond/Pearl"@,
                GameFamily::Platinum => "Platinum"@,
                GameFamily::HGSS => "HeartGold/SoulSilver"@,
            },
    {
        match self {
            GameFamily::DP => "Diamond/Pearl",
            GameFamily::Platinum => "Platinum",
            GameFamily::HGSS => "HeartGold/SoulSilver",
        }
    }

    fn config_name(self) -> (r: &'static str)
        ensures
            r@ == match self {
                GameFamily::DP => "dp"@,
                GameFamily::Platinum => "platinum"@,
                GameFamily::HGSS => "hgss"@,
            },
    {
        match self {
            GameFamily::DP => "dp",
            GameFamily::Platinum => "platinum",
            GameFamily::HGSS => "hgss",
        }
    }
}

// ---------------------------------------------------------------------------
// Enumerations used by commands
// ---------------------------------------------------------------------------

/// The comparison a conditional command tests, by its byte value 0..=5.
#[derive(Debug, Clone, Copy, PartialEq, Eq, Structural)]
pub enum ComparisonOperator {
    Less,
    Equal,
    Greater,
    LessEqual,
    GreaterEqual,
    Different,
}

/// The operator with byte value `id`.
pub open spec fn comparison_of_id(id: u8) -> Option<ComparisonOperator> {
    if id == 0 {
        Some(ComparisonOperator::Less)
    } else if id == 1 {
        Some(ComparisonOperator::Equal)
    } else if id == 2 {
        Some(ComparisonOperator::Greater)
    } else if id == 3 {
        Some(ComparisonOperator::LessEqual)
    } else if id == 4 {
        Some(ComparisonOperator::GreaterEqual)
    } else if id == 5 {
        Some(ComparisonOperator::Different)
    } else {
        None
    }
}

/// The name of each operator.
pub open spec fn comparison_name(op: ComparisonOperator) -> Seq<char> {
    match op {
        ComparisonOperator::Less => "LESS"@,
        ComparisonOperator::Equal => "EQUAL"@,
        ComparisonOperator::Greater => "GREATER"@,
        ComparisonOperator::LessEqual => "LESS/EQUAL"@,
        ComparisonOperator::GreaterEqual => "GREATER/EQUAL"@,
        ComparisonOperator::Different => "DIFFERENT"@,
    }
}

/// The operator an upper-cased name stands for.
pub open spec fn comparison_of_upper(u: Seq<char>) -> Option<ComparisonOperator> {
    if u == "LESS"@ {
        Some(ComparisonOperator::Less)
    } else if u == "EQUAL"@ {
        Some(ComparisonOperator::Equal)
    } else if u == "GREATER"@ {
        Some(ComparisonOperator::Greater)
    } else if u == "LESS/EQUAL"@ || u == "LESSEQUAL"@ || u == "LESS_EQUAL"@ {
        Some(ComparisonOperator::LessEqual)
    } else if u == "GREATER/EQUAL"@ || u == "GREATEREQUAL"@ || u == "GREATER_EQUAL"@ {
        Some(ComparisonOperator::GreaterEqual)
    } else if u == "DIFFERENT"@ {
        Some(ComparisonOperator::Different)
    } else {
        None
    }
}

impl ComparisonOperator {
    /// The operator's byte value.
    pub open spec fn spec_id(self) -> u8 {
        match self {
            ComparisonOperator::Less => 0,
            ComparisonOperator::Equal => 1,
            ComparisonOperator::Greater => 2,
            ComparisonOperator::LessEqual => 3,
            ComparisonOperator::GreaterEqual => 4,
            ComparisonOperator::Different => 5,
        }
    }

    /// The operator's byte value.
    pub fn id(self) -> (r: u8)
        ensures
            r == self.spec_id(),
    {
        match self {
            ComparisonOperator::Less => 0,
            ComparisonOperator::Equal => 1,
            ComparisonOperator::Greater => 2,
            ComparisonOperator::LessEqual => 3,
            ComparisonOperator::GreaterEqual => 4,
            ComparisonOperator::Different => 5,
        }
    }

    /// The operator with byte value `id`.
    pub fn from_id(id: u8) -> (r: Option<ComparisonOperator>)
        ensures
            r == comparison_of_id(id),
    {
        if id == 0 {
            Some(ComparisonOperator::Less)
        } else if id == 1 {
            Some(ComparisonOperator::Equal)
        } else if id == 2 {
            Some(ComparisonOperator::Greater)
        } else if id == 3 {
            Some(ComparisonOperator::LessEqual)
        } else if id == 4 {
            Some(ComparisonOperator::GreaterEqual)
        } else if id == 5 {
            Some(ComparisonOperator::Different)
        } else {
            None
        }
    }

    /// The operator's name.
    pub fn as_str(&self) -> (r: &'static str)
        ensures
            r@ == comparison_name(*self),
    {
        match self {
            ComparisonOperator::Less => "LESS",
            ComparisonOperator::Equal => "EQUAL",
            ComparisonOperator::Greater => "GREATER",
            ComparisonOperator::LessEqual => "LESS/EQUAL",
            ComparisonOperator::GreaterEqual => "GREATER/EQUAL",
            ComparisonOperator::Different => "DIFFERENT",
        }
    }

    /// The operator a name stands for, ignoring case; `LESSEQUAL` and
    /// `LESS_EQUAL` (and the like for greater) are accepted too.
    pub fn from_str(s: &str) -> (r: Option<ComparisonOperator>)
        ensures
            r == comparison_of_upper(unicode_uppercase(s@)),
    {
        let u = to_uppercase(s);
        let u = u.as_str();
        if str_eq(u, "LESS") {
            Some(ComparisonOperator::Less)
        } else if str_eq(u, "EQUAL") {
            Some(ComparisonOperator::Equal)
        } else if str_eq(u, "GREATER") {
            Some(ComparisonOperator::Greater)
        } else if str_eq(u, "LESS/EQUAL") || str_eq(u, "LESSEQUAL") || str_eq(u, "LESS_EQUAL") {
            Some(ComparisonOperator::LessEqual)
        } else if str_eq(u, "GREATER/EQUAL") || str_eq(u, "GREATEREQUAL") || str_eq(
            u,
            "GREATER_EQUAL",
        ) {
            Some(ComparisonOperator::GreaterEqual)
        } else if str_eq(u, "DIFFERENT") {
            Some(ComparisonOperator::Different)
        } else {
            None
        }
    }
}

/// A facing direction, by its byte value 0..=3.
#[derive(Debug, Clone, Copy, PartialEq, Eq, Structural)]
pub enum Direction {
    Up,
    Down,
    Left,
    Right,
}

/// The direction with byte value `id`.
pub open spec fn direction_of_id(id: u8) -> Option<Direction> {
    if id == 0 {
        Some(Direction::Up)
    } else if id == 1 {
        Some(Direction::Down)
    } else if id == 2 {
        Some(Direction::Left)
    } else if id == 3 {
        Some(Direction::Right)
    } else {
        None
    }
}

impl Direction {
    /// The direction's byte value.
    pub open spec fn spec_id(self) -> u8 {
        match self {
            Direction::Up => 0,
            Direction::Down => 1,
            Direction::Left => 2,
            Direction::Right => 3,
        }
    }

    /// The direction's byte value.
    pub fn id(self) -> (r: u8)
        ensures
            r == self.spec_id(),
    {
        match self {
            Direction::Up => 0,
            Direction::Down => 1,
            Direction::Left => 2,
            Direction::Right => 3,
        }
    }

    /// The direction with byte value `id`.
    pub fn from_id(id: u8) -> (r: Option<Direction>)
        ensures
            r == direction_of_id(id),
    {
        if id == 0 {
            Some(Direction::Up)
        } else if id == 1 {
            Some(Direction::Down)
        } else if id == 2 {
            Some(Direction::Left)
        } else if id == 3 {
            Some(Direction::Right)
        } else {
            None
        }
    }

    /// The direction's name.
    pub fn as_str(&self) -> (r: &'static str)
        ensures
            r@ == match *self {
                Direction::Up => "Up"@,
                Direction::Down => "Down"@,
                Direction::Left => "Left"@,
                Direction::Right => "Right"@,
            },
    {
        match self {
            Direction::Up => "Up",
            Direction::Down => "Down",
            Direction::Left => "Left",
            Direction::Right => "Right",
        }
    }
}

// ---------------------------------------------------------------------------
// The schema
// ---------------------------------------------------------------------------

/// A command database.
#[derive(Debug)]
pub struct DatabaseV2 {
    pub meta: DatabaseMeta,
    pub commands: Vec<(String, Command)>,
    pub sounds: Vec<(String, Sound)>,
    pub comparison_operators: Vec<(String, String)>,
    pub overworld_directions: Vec<(String, String)>,
    pub special_overworlds: Vec<(String, String)>,
}

/// Where the database came from.
#[derive(Debug)]
pub struct DatabaseMeta {
    pub version: String,
    pub generated_at: Option<String>,
    pub generated_from: Option<String>,
}

/// One command (or movement, level-script command, macro).
#[derive(Debug)]
pub struct Command {
    pub cmd_type: CommandType,
    pub id: Option<u16>,
    pub legacy_name: Option<String>,
    pub description: Option<String>,
    pub params: Vec<ParamDef>,
    pub variants: Option<Vec<Variant>>,
    pub expansion: Option<Vec<String>>,
}

/// The parameter list the compiler picked for one call, and the optional
/// argument rewrite of that shape.
#[derive(Debug, Clone, Copy)]
pub struct ResolvedCommandShape<'a> {
    pub params: &'a [ParamDef],
    pub emit_args: Option<&'a [String]>,
}

/// What a database entry describes.
#[derive(Debug, Clone, Copy, PartialEq, Eq, Structural)]
pub enum CommandType {
    ScriptCmd,
    Movement,
    LevelscriptCmd,
    Macro,
}

/// One parameter of a command.
#[derive(Debug, Clone)]
pub struct ParamDef {
    pub name: String,
    pub param_type: ParamType,
    pub const_value: Option<String>,
    pub default: Option<String>,
    /// Whether the parameter may be left out (macros with argument-count
    /// variants).
    pub optional: bool,
}

/// The encoding of a parameter.
#[derive(Debug, Clone, Copy, PartialEq, Eq, Structural)]
pub enum ParamType {
    U8,
    U16,
    U32,
    Var,
    Flag,
    Label,
    MsgId,
    ScriptId,
    MovementId,
    Unknown,
}

/// The encoded size in bytes of each parameter type.
pub open spec fn param_size(t: ParamType) -> nat {
    match t {
        ParamType::U8 => 1,
        ParamType::U16 | ParamType::Var | ParamType::Flag | ParamType::MsgId
        | ParamType::Unknown => 2,
        ParamType::U32 | ParamType::Label | ParamType::ScriptId | ParamType::MovementId => 4,
    }
}

impl ParamType {
    /// The encoded size in bytes.
    pub fn size(&self) -> (r: usize)
        ensures
            r == param_size(*self),
    {
        match self {
            ParamType::U8 => 1,
            ParamType::U16 | ParamType::Var | ParamType::Flag | ParamType::MsgId
            | ParamType::Unknown => 2,
            ParamType::U32 | ParamType::Label | ParamType::ScriptId | ParamType::MovementId => 4,
        }
    }
}

/// An alternative parameter list of a command.
#[derive(Debug)]
pub struct Variant {
    pub params: Vec<ParamDef>,
    pub desc: Option<String>,
    pub condition: Option<String>,
    pub expansion: Option<Vec<String>>,
    /// Optional argument rewrite for this shape, applied after the shape is
    /// chosen and its defaults filled in.
    pub emit_args: Option<Vec<String>>,
}

/// A sound effect entry.
#[derive(Debug)]
pub struct Sound {
    pub name: String,
    pub used_in: Option<String>,
}

// ---------------------------------------------------------------------------
// Lookups
// ---------------------------------------------------------------------------

/// The index of the first entry whose key is `name`.
pub open spec fn index_of_key(cmds: Seq<(String, Command)>, name: Seq<char>) -> Option<int>
    decreases cmds.len(),
{
    if cmds.len() == 0 {
        None
    } else {
        match index_of_key(cmds.drop_last(), name) {
            Some(i) => Some(i),
            None => if cmds.last().0@ == name {
                Some(cmds.len() - 1)
            } else {
                None
            },
        }
    }
}

/// The index of the first entry whose legacy name is `name`.
pub open spec fn index_of_legacy(cmds: Seq<(String, Command)>, name: Seq<char>) -> Option<int>
    decreases cmds.len(),
{
    if cmds.len() == 0 {
        None
    } else {
        match index_of_legacy(cmds.drop_last(), name) {
            Some(i) => Some(i),
            None => if cmds.last().1.legacy_name matches Some(l) && l@ == name {
                Some(cmds.len() - 1)
            } else {
                None
            },
        }
    }
}

/// The index of the first entry of type `t` with id `id`.
pub open spec fn index_of_id(cmds: Seq<(String, Command)>, t: CommandType, id: u16) -> Option<int>
    decreases cmds.len(),
{
    if cmds.len() == 0 {
        None
    } else {
        match index_of_id(cmds.drop_last(), t, id) {
            Some(i) => Some(i),
            None => if cmds.last().1.cmd_type == t && cmds.last().1.id == Some(id) {
                Some(cmds.len() - 1)
            } else {
                None
            },
        }
    }
}

proof fn lemma_index_of_key_bounds(cmds: Seq<(String, Command)>, name: Seq<char>)
    ensures
        index_of_key(cmds, name) matches Some(i) ==> 0 <= i < cmds.len() && cmds[i].0@ == name,
    decreases cmds.len(),
{
    if cmds.len() > 0 {
        lemma_index_of_key_bounds(cmds.drop_last(), name);
    }
}

proof fn lemma_index_of_legacy_bounds(cmds: Seq<(String, Command)>, name: Seq<char>)
    ensures
        index_of_legacy(cmds, name) matches Some(i) ==> 0 <= i < cmds.len() && (cmds[i].1.legacy_name matches Some(l) && l@ == name),
    decreases cmds.len(),
{
    if cmds.len() > 0 {
        lemma_index_of_legacy_bounds(cmds.drop_last(), name);
    }
}

pub proof fn lemma_index_of_id_bounds(cmds: Seq<(String, Command)>, t: CommandType, id: u16)
    ensures
        index_of_id(cmds, t, id) matches Some(i) ==> 0 <= i < cmds.len() && cmds[i].1.cmd_type
            == t && cmds[i].1.id == Some(id),
    decreases cmds.len(),
{
    if cmds.len() > 0 {
        lemma_index_of_id_bounds(cmds.drop_last(), t, id);
    }
}

/// The id a `ScrCmd_<suffix>` alias names in a database of family `fam`:
/// decimal digits only for HeartGold/SoulSilver, else hexadecimal after the
/// last underscore.
pub open spec fn scrcmd_alias_id(fam: Option<GameFamily>, suffix: Seq<char>) -> Option<int> {
    if fam == Some(GameFamily::HGSS) {
        if forall|i: int| 0 <= i < suffix.len() ==> spec_is_digit(#[trigger] suffix[i]) {
            parse_unsigned_spec(suffix, 10, 0xffff)
        } else {
            None
        }
    } else {
        let h = after_last_underscore(suffix);
        if h.len() == 0 {
            None
        } else {
            parse_unsigned_spec(h, 16, 0xffff)
        }
    }
}

/// The id a `Dummy<suffix>` alias names in a database of family `fam`.
pub open spec fn dummy_alias_id(fam: Option<GameFamily>, suffix: Seq<char>) -> Option<int> {
    if fam == Some(GameFamily::HGSS) {
        if forall|i: int| 0 <= i < suffix.len() ==> spec_is_digit(#[trigger] suffix[i]) {
            parse_unsigned_spec(suffix, 10, 0xffff)
        } else {
            None
        }
    } else if suffix.len() > 0 {
        parse_unsigned_spec(suffix, 16, 0xffff)
    } else {
        None
    }
}

/// The part of `s` after its last underscore (all of `s` when it has none).
pub open spec fn after_last_underscore(s: Seq<char>) -> Seq<char>
    decreases s.len(),
{
    if s.len() == 0 {
        s
    } else if s.last() == '_' {
        Seq::empty()
    } else {
        after_last_underscore(s.drop_last()).push(s.last())
    }
}

/// The message for a command missing from the database.
pub open spec fn command_missing_message(name: Seq<char>) -> Seq<char> {
    "Command '"@ + name + "' not found in database"@
}

impl DatabaseV2 {
    /// The game family the database's version names.
    pub open spec fn family(&self) -> Option<GameFamily> {
        family_of_hint(self.meta.version@)
    }

    /// The command a `ScrCmd_`/`Dummy` alias stands for: the index of the
    /// script command with the id the alias names, unless `name` is itself
    /// the key of a script command.
    pub open spec fn alias_index(&self, name: Seq<char>) -> Option<int> {
        let cmds = self.commands@;
        let exact = index_of_key(cmds, name);
        if exact is Some && cmds[exact->0].1.cmd_type == CommandType::ScriptCmd {
            None
        } else if is_prefix("ScrCmd_"@, name) && name.len() > 7 && scrcmd_alias_id(
            self.family(),
            name.subrange(7, name.len() as int),
        ) is Some {
            index_of_id(
                cmds,
                CommandType::ScriptCmd,
                scrcmd_alias_id(self.family(), name.subrange(7, name.len() as int))->0 as u16,
            )
        } else if is_prefix("Dummy"@, name) && dummy_alias_id(
            self.family(),
            name.subrange(5, name.len() as int),
        ) is Some {
            index_of_id(
                cmds,
                CommandType::ScriptCmd,
                dummy_alias_id(self.family(), name.subrange(5, name.len() as int))->0 as u16,
            )
        } else {
            None
        }
    }

    /// The entry `get_command` resolves `name` to: by key, then legacy name,
    /// then alias.
    pub open spec fn command_lookup(&self, name: Seq<char>) -> Option<int> {
        match index_of_key(self.commands@, name) {
            Some(i) => Some(i),
            None => match index_of_legacy(self.commands@, name) {
                Some(i) => Some(i),
                None => self.alias_index(name),
            },
        }
    }

    /// The entry `get_movement` resolves `name` to.
    pub open spec fn movement_lookup(&self, name: Seq<char>) -> Option<int> {
        let cmds = self.commands@;
        let k = index_of_key(cmds, name);
        let l = index_of_legacy(cmds, name);
        if k is Some && cmds[k->0].1.cmd_type == CommandType::Movement {
            k
        } else if l is Some && cmds[l->0].1.cmd_type == CommandType::Movement {
            l
        } else {
            None
        }
    }

    /// Adds `cmd` under `name`, replacing an entry with that key.
    pub fn insert_command(&mut self, name: String, cmd: Command)
        ensures
            final(self).meta == old(self).meta,
            match index_of_key(old(self).commands@, name@) {
                Some(i) => final(self).commands@ == old(self).commands@.update(i, (name, cmd)),
                None => final(self).commands@ == old(self).commands@.push((name, cmd)),
            },
    {
        match self.find_key(name.as_str()) {
            Some(i) => {
                self.commands.set(i, (name, cmd));
            },
            None => {
                self.commands.push((name, cmd));
            },
        }
    }

    fn find_key(&self, name: &str) -> (r: Option<usize>)
        ensures
            r matches Some(i) ==> index_of_key(self.commands@, name@) == Some(i as int) && i < self.commands@.len(),
            r is None ==> index_of_key(self.commands@, name@) is None,
    {
        let mut i: usize = 0;
        while i < self.commands.len()
            invariant
                i <= self.commands@.len(),
                index_of_key(self.commands@.take(i as int), name@) is None,
            decreases self.commands.len() - i,
        {
            assert(self.commands@.take(i + 1).drop_last() =~= self.commands@.take(i as int));
            if str_eq(self.commands[i].0.as_str(), name) {
                proof {
                    lemma_index_of_key_prefix(self.commands@, name@, i as int);
                }
                return Some(i);
            }
            i = i + 1;
        }
        assert(self.commands@.take(self.commands@.len() as int) =~= self.commands@);
        None
    }

    fn find_legacy(&self, name: &str) -> (r: Option<usize>)
        ensures
            r matches Some(i) ==> index_of_legacy(self.commands@, name@) == Some(i as int) && i < self.commands@.len(),
            r is None ==> index_of_legacy(self.commands@, name@) is None,
    {
        let mut i: usize = 0;
        while i < self.commands.len()
            invariant
                i <= self.commands@.len(),
                index_of_legacy(self.commands@.take(i as int), name@) is None,
            decreases self.commands.len() - i,
        {
            assert(self.commands@.take(i + 1).drop_last() =~= self.commands@.take(i as int));
            let hit = match &self.commands[i].1.legacy_name {
                Some(l) => str_eq(l.as_str(), name),
                None => false,
            };
            if hit {
                proof {
                    lemma_index_of_legacy_prefix(self.commands@, name@, i as int);
                }
                return Some(i);
            }
            i = i + 1;
        }
        assert(self.commands@.take(self.commands@.len() as int) =~= self.commands@);
        None
    }

    fn find_id(&self, t: CommandType, id: u16) -> (r: Option<usize>)
        ensures
            r matches Some(i) ==> index_of_id(self.commands@, t, id) == Some(i as int) && i < self.commands@.len(),
            r is None ==> index_of_id(self.commands@, t, id) is None,
    {
        let mut i: usize = 0;
        while i < self.commands.len()
            invariant
                i <= self.commands@.len(),
                index_of_id(self.commands@.take(i as int), t, id) is None,
            decreases self.commands.len() - i,
        {
            assert(self.commands@.take(i + 1).drop_last() =~= self.commands@.take(i as int));
            if self.commands[i].1.cmd_type == t && self.commands[i].1.id == Some(id) {
                proof {
                    lemma_index_of_id_prefix(self.commands@, t, id, i as int);
                }
                return Some(i);
            }
            i = i + 1;
        }
        assert(self.commands@.take(self.commands@.len() as int) =~= self.commands@);
        None
    }

    /// The game family the database's version names.
    pub fn game_family(&self) -> (r: Option<GameFamily>)
        ensures
            r == self.family(),
    {
        game_family_from_hint(self.meta.version.as_str())
    }

    /// Resolves a command by key, then by legacy name, then as a
    /// `ScrCmd_`/`Dummy` alias of a script command.
    pub fn get_command(&self, name: &str) -> (r: ParseResult<&Command>)
        ensures
            match self.command_lookup(name@) {
                Some(i) => r == Ok::<&Command, CompileError>(&self.commands@[i].1),
                None => r matches Err(CompileError::Database { message }) && message@
                    == command_missing_message(name@),
            },
    {
        match self.find_key(name) {
            Some(i) => {
                return Ok(&self.commands[i].1);
            },
            None => {},
        }
        match self.find_legacy(name) {
            Some(i) => {
                return Ok(&self.commands[i].1);
            },
            None => {},
        }
        match self.get_script_cmd_by_alias(name) {
            Some((_, cmd)) => {
                return Ok(cmd);
            },
            None => {},
        }
        Err(database_error(concat3("Command '", name, "' not found in database")))
    }

    /// Resolves a script command: by key, then by legacy name (the first
    /// entry with that legacy name, which must be a script command), then as
    /// an alias.
    pub fn get_script_cmd(&self, name: &str) -> (r: ParseResult<&Command>)
        ensures
            ({
                let cmds = self.commands@;
                let k = index_of_key(cmds, name@);
                let l = index_of_legacy(cmds, name@);
                if k is Some && cmds[k->0].1.cmd_type == CommandType::ScriptCmd {
                    r == Ok::<&Command, CompileError>(&cmds[k->0].1)
                } else if l is Some && cmds[l->0].1.cmd_type == CommandType::ScriptCmd {
                    r == Ok::<&Command, CompileError>(&cmds[l->0].1)
                } else if self.alias_index(name@) is Some {
                    r == Ok::<&Command, CompileError>(&cmds[self.alias_index(name@)->0].1)
                } else {
                    r matches Err(CompileError::Database { message }) && message@
                        == command_missing_message(name@)
                }
            }),
    {
        proof {
            lemma_index_of_key_bounds(self.commands@, name@);
            lemma_index_of_legacy_bounds(self.commands@, name@);
        }
        match self.find_key(name) {
            Some(i) => {
                if self.commands[i].1.cmd_type == CommandType::ScriptCmd {
                    return Ok(&self.commands[i].1);
                }
            },
            None => {},
        }
        match self.find_legacy(name) {
            Some(i) => {
                if self.commands[i].1.cmd_type == CommandType::ScriptCmd {
                    return Ok(&self.commands[i].1);
                }
            },
            None => {},
        }
        match self.get_script_cmd_by_alias(name) {
            Some((_, cmd)) => Ok(cmd),
            None => Err(database_error(concat3("Command '", name, "' not found in database"))),
        }
    }

    /// Resolves a movement by key, then by legacy name.
    pub fn get_movement(&self, name: &str) -> (r: Result<&Command, CompileError>)
        ensures
            match self.movement_lookup(name@) {
                Some(i) => r == Ok::<&Command, CompileError>(&self.commands@[i].1),
                None => r matches Err(CompileError::Database { message }) && message@ == "Movement '"@
                    + name@ + "' not found in database"@,
            },
    {
        proof {
            lemma_index_of_key_bounds(self.commands@, name@);
            lemma_index_of_legacy_bounds(self.commands@, name@);
        }
        match self.find_key(name) {
            Some(i) => {
                if self.commands[i].1.cmd_type == CommandType::Movement {
                    return Ok(&self.commands[i].1);
                }
            },
            None => {},
        }
        match self.find_legacy(name) {
            Some(i) => {
                if self.commands[i].1.cmd_type == CommandType::Movement {
                    return Ok(&self.commands[i].1);
                }
            },
            None => {},
        }
        Err(database_error(concat3("Movement '", name, "' not found in database")))
    }

    fn entries_of_type(&self, t: CommandType) -> (r: Vec<(&String, &Command)>)
        ensures
            r@.len() <= self.commands@.len(),
            forall|k: int|
                0 <= k < r@.len() ==> (#[trigger] r@[k]).1.cmd_type == t && exists|i: int|
                    0 <= i < self.commands@.len() && *r@[k].0 == self.commands@[i].0 && *r@[k].1
                        == self.commands@[i].1,
            forall|i: int|
                0 <= i < self.commands@.len() && (#[trigger] self.commands@[i]).1.cmd_type == t
                    ==> exists|k: int|
                    0 <= k < r@.len() && *r@[k].0 == self.commands@[i].0 && *r@[k].1
                        == self.commands@[i].1,
    {
        let mut out: Vec<(&String, &Command)> = Vec::new();
        let mut i: usize = 0;
        while i < self.commands.len()
            invariant
                i <= self.commands@.len(),
                out@.len() <= i,
                forall|k: int|
                    0 <= k < out@.len() ==> (#[trigger] out@[k]).1.cmd_type == t && exists|j: int|
                        0 <= j < i && *out@[k].0 == self.commands@[j].0 && *out@[k].1
                            == self.commands@[j].1,
                forall|j: int|
                    0 <= j < i && (#[trigger] self.commands@[j]).1.cmd_type == t ==> exists|k: int|
                        0 <= k < out@.len() && *out@[k].0 == self.commands@[j].0 && *out@[k].1
                            == self.commands@[j].1,
            decreases self.commands.len() - i,
        {
            let ghost prev = out@;
            if self.commands[i].1.cmd_type == t {
                out.push((&self.commands[i].0, &self.commands[i].1));
                assert(*out@[out@.len() - 1].0 == self.commands@[i as int].0);
            }
            assert forall|j: int|
                0 <= j < i + 1 && (#[trigger] self.commands@[j]).1.cmd_type == t implies exists|
                k: int,
            |
                0 <= k < out@.len() && *out@[k].0 == self.commands@[j].0 && *out@[k].1
                    == self.commands@[j].1 by {
                if j < i {
                    let k = choose|k: int|
                        0 <= k < prev.len() && *prev[k].0 == self.commands@[j].0 && *prev[k].1
                            == self.commands@[j].1;
                    assert(out@[k] == prev[k]);
                } else {
                    assert(*out@[out@.len() - 1].1 == self.commands@[j].1);
                }
            }
            i = i + 1;
        }
        out
    }

    /// All script commands, as `(key, command)` pairs.
    pub fn script_commands(&self) -> (r: Vec<(&String, &Command)>)
        ensures
            forall|k: int|
                0 <= k < r@.len() ==> (#[trigger] r@[k]).1.cmd_type == CommandType::ScriptCmd
                    && exists|i: int|
                    0 <= i < self.commands@.len() && *r@[k].0 == self.commands@[i].0 && *r@[k].1
                        == self.commands@[i].1,
            forall|i: int|
                0 <= i < self.commands@.len() && (#[trigger] self.commands@[i]).1.cmd_type
                    == CommandType::ScriptCmd ==> exists|k: int|
                    0 <= k < r@.len() && *r@[k].0 == self.commands@[i].0 && *r@[k].1
                        == self.commands@[i].1,
    {
        self.entries_of_type(CommandType::ScriptCmd)
    }

    /// All movements, as `(key, command)` pairs.
    pub fn movements(&self) -> (r: Vec<(&String, &Command)>)
        ensures
            forall|k: int|
                0 <= k < r@.len() ==> (#[trigger] r@[k]).1.cmd_type == CommandType::Movement
                    && exists|i: int|
                    0 <= i < self.commands@.len() && *r@[k].0 == self.commands@[i].0 && *r@[k].1
                        == self.commands@[i].1,
            forall|i: int|
                0 <= i < self.commands@.len() && (#[trigger] self.commands@[i]).1.cmd_type
                    == CommandType::Movement ==> exists|k: int|
                    0 <= k < r@.len() && *r@[k].0 == self.commands@[i].0 && *r@[k].1
                        == self.commands@[i].1,
    {
        self.entries_of_type(CommandType::Movement)
    }

    /// The first script command with id `id`.
    pub fn get_script_cmd_by_id(&self, id: u16) -> (r: Option<(&String, &Command)>)
        ensures
            match index_of_id(self.commands@, CommandType::ScriptCmd, id) {
                Some(i) => r matches Some(p) && *p.0 == self.commands@[i].0 && *p.1
                    == self.commands@[i].1,
                None => r is None,
            },
    {
        proof {
            lemma_index_of_id_bounds(self.commands@, CommandType::ScriptCmd, id);
        }
        match self.find_id(CommandType::ScriptCmd, id) {
            Some(i) => Some((&self.commands[i].0, &self.commands[i].1)),
            None => None,
        }
    }

    /// The first movement with id `id`.
    pub fn get_movement_by_id(&self, id: u16) -> (r: Option<(&String, &Command)>)
        ensures
            match index_of_id(self.commands@, CommandType::Movement, id) {
                Some(i) => r matches Some(p) && *p.0 == self.commands@[i].0 && *p.1
                    == self.commands@[i].1,
                None => r is None,
            },
    {
        proof {
            lemma_index_of_id_bounds(self.commands@, CommandType::Movement, id);
        }
        match self.find_id(CommandType::Movement, id) {
            Some(i) => Some((&self.commands[i].0, &self.commands[i].1)),
            None => None,
        }
    }

    /// The script command a `ScrCmd_<id>` or `Dummy<id>` alias stands for.
    /// A name that is itself the key of a script command is no alias.
    pub fn get_script_cmd_by_alias(&self, name: &str) -> (r: Option<(&String, &Command)>)
        ensures
            match self.alias_index(name@) {
                Some(i) => r matches Some(p) && *p.0 == self.commands@[i].0 && *p.1
                    == self.commands@[i].1,
                None => r is None,
            },
    {
        proof {
            lemma_index_of_key_bounds(self.commands@, name@);
            reveal_strlit("ScrCmd_");
            reveal_strlit("Dummy");
        }
        match self.find_key(name) {
            Some(i) => {
                if self.commands[i].1.cmd_type == CommandType::ScriptCmd {
                    return None;
                }
            },
            None => {},
        }
        let chars = str_chars(name);
        let family = self.game_family();
        if starts_with(&chars, &str_chars("ScrCmd_")) && chars.len() > 7 {
            let suffix = tail_from(&chars, 7);
            match scrcmd_id(family, &suffix) {
                Some(id) => {
                    return self.get_script_cmd_by_id(id);
                },
                None => {},
            }
        }
        if starts_with(&chars, &str_chars("Dummy")) {
            let suffix = tail_from(&chars, 5);
            match dummy_id(family, &suffix) {
                Some(id) => {
                    return self.get_script_cmd_by_id(id);
                },
                None => {},
            }
        }
        None
    }
}

proof fn lemma_index_of_key_prefix(cmds: Seq<(String, Command)>, name: Seq<char>, i: int)
    requires
        0 <= i < cmds.len(),
        index_of_key(cmds.take(i), name) is None,
        cmds[i].0@ == name,
    ensures
        index_of_key(cmds, name) == Some(i),
    decreases cmds.len(),
{
    if i < cmds.len() - 1 {
        assert(cmds.drop_last().take(i) =~= cmds.take(i));
        lemma_index_of_key_prefix(cmds.drop_last(), name, i);
    } else {
        assert(cmds.drop_last() =~= cmds.take(i));
    }
}

/// A script command found by its opcode is found again by its name: where
/// no earlier entry has the same name, the entry `get_script_cmd_by_id`
/// gives for `id` is the entry `get_script_cmd` gives for that entry's name,
/// a script command with opcode `id`.
pub proof fn lemma_script_cmd_id_then_name(cmds: Seq<(String, Command)>, id: u16)
    requires
        index_of_id(cmds, CommandType::ScriptCmd, id) matches Some(i) && forall|j: int|
            0 <= j < i ==> (#[trigger] cmds[j]).0@ != cmds[i].0@,
    ensures
        ({
            let i = index_of_id(cmds, CommandType::ScriptCmd, id)->0;
            &&& index_of_key(cmds, cmds[i].0@) == Some(i)
            &&& cmds[i].1.cmd_type == CommandType::ScriptCmd
            &&& cmds[i].1.id == Some(id)
        }),
{
    lemma_index_of_id_bounds(cmds, CommandType::ScriptCmd, id);
    let i = index_of_id(cmds, CommandType::ScriptCmd, id)->0;
    let name = cmds[i].0@;
    lemma_index_of_key_bounds(cmds.take(i), name);
    if index_of_key(cmds.take(i), name) is Some {
        let j = index_of_key(cmds.take(i), name)->0;
        assert(cmds.take(i)[j] == cmds[j]);
    }
    lemma_index_of_key_prefix(cmds, name, i);
}

proof fn lemma_index_of_legacy_prefix(cmds: Seq<(String, Command)>, name: Seq<char>, i: int)
    requires
        0 <= i < cmds.len(),
        index_of_legacy(cmds.take(i), name) is None,
        cmds[i].1.legacy_name matches Some(l) && l@ == name,
    ensures
        index_of_legacy(cmds, name) == Some(i),
    decreases cmds.len(),
{
    if i < cmds.len() - 1 {
        assert(cmds.drop_last().take(i) =~= cmds.take(i));
        lemma_index_of_legacy_prefix(cmds.drop_last(), name, i);
    } else {
        assert(cmds.drop_last() =~= cmds.take(i));
    }
}

proof fn lemma_index_of_id_prefix(cmds: Seq<(String, Command)>, t: CommandType, id: u16, i: int)
    requires
        0 <= i < cmds.len(),
        index_of_id(cmds.take(i), t, id) is None,
        cmds[i].1.cmd_type == t && cmds[i].1.id == Some(id),
    ensures
        index_of_id(cmds, t, id) == Some(i),
    decreases cmds.len(),
{
    if i < cmds.len() - 1 {
        assert(cmds.drop_last().take(i) =~= cmds.take(i));
        lemma_index_of_id_prefix(cmds.drop_last(), t, id, i);
    } else {
        assert(cmds.drop_last() =~= cmds.take(i));
    }
}

/// `s` from index `k` on.
fn tail_from(s: &Vec<char>, k: usize) -> (r: Vec<char>)
    requires
        k <= s@.len(),
    ensures
        r@ == s@.subrange(k as int, s@.len() as int),
{
    let mut out: Vec<char> = Vec::new();
    let mut i: usize = k;
    while i < s.len()
        invariant
            k <= i <= s@.len(),
            out@ == s@.subrange(k as int, i as int),
        decreases s.len() - i,
    {
        out.push(s[i]);
        i = i + 1;
        assert(out@ =~= s@.subrange(k as int, i as int));
    }
    out
}

fn all_ascii_digits(s: &Vec<char>) -> (r: bool)
    ensures
        r == forall|i: int| 0 <= i < s@.len() ==> spec_is_digit(#[trigger] s@[i]),
{
    let mut i: usize = 0;
    while i < s.len()
        invariant
            i <= s@.len(),
            forall|j: int| 0 <= j < i ==> spec_is_digit(#[trigger] s@[j]),
        decreases s.len() - i,
    {
        if !is_ascii_digit(s[i]) {
            return false;
        }
        i = i + 1;
    }
    true
}

fn last_underscore_part(s: &Vec<char>) -> (r: Vec<char>)
    ensures
        r@ == after_last_underscore(s@),
{
    let mut out: Vec<char> = Vec::new();
    let mut i: usize = 0;
    while i < s.len()
        invariant
            i <= s@.len(),
            out@ == after_last_underscore(s@.take(i as int)),
        decreases s.len() - i,
    {
        assert(s@.take(i + 1).drop_last() =~= s@.take(i as int));
        if s[i] == '_' {
            out = Vec::new();
        } else {
            out.push(s[i]);
        }
        i = i + 1;
    }
    assert(s@.take(s@.len() as int) =~= s@);
    out
}

fn scrcmd_id(family: Option<GameFamily>, suffix: &Vec<char>) -> (r: Option<u16>)
    ensures
        match scrcmd_alias_id(family, suffix@) {
            Some(v) => r == Some(v as u16),
            None => r is None,
        },
{
    let parsed = if family == Some(GameFamily::HGSS) {
        if all_ascii_digits(suffix) {
            parse_unsigned(suffix, 10, 0xffff)
        } else {
            None
        }
    } else {
        let h = last_underscore_part(suffix);
        if h.len() == 0 {
            None
        } else {
            parse_unsigned(&h, 16, 0xffff)
        }
    };
    match parsed {
        Some(v) => Some(v as u16),
        None => None,
    }
}

fn dummy_id(family: Option<GameFamily>, suffix: &Vec<char>) -> (r: Option<u16>)
    ensures
        match dummy_alias_id(family, suffix@) {
            Some(v) => r == Some(v as u16),
            None => r is None,
        },
{
    let parsed = if family == Some(GameFamily::HGSS) {
        if all_ascii_digits(suffix) {
            parse_unsigned(suffix, 10, 0xffff)
        } else {
            None
        }
    } else if suffix.len() > 0 {
        parse_unsigned(suffix, 16, 0xffff)
    } else {
        None
    };
    match parsed {
        Some(v) => Some(v as u16),
        None => None,
    }
}


// ---------------------------------------------------------------------------
// Command shapes
// ---------------------------------------------------------------------------

/// Whether `v`'s first parameter is the constant `mode` (written in decimal).
pub open spec fn variant_matches_mode(v: Variant, mode: u8) -> bool {
    v.params@.len() > 0 && (v.params@[0].const_value matches Some(c) && parse_unsigned_spec(
        c@,
        10,
        255,
    ) == Some(mode as int))
}

/// The index of the first variant whose first parameter is the constant `mode`.
pub open spec fn index_of_mode(vs: Seq<Variant>, mode: u8) -> Option<int>
    decreases vs.len(),
{
    if vs.len() == 0 {
        None
    } else {
        match index_of_mode(vs.drop_last(), mode) {
            Some(i) => Some(i),
            None => if variant_matches_mode(vs.last(), mode) {
                Some(vs.len() - 1)
            } else {
                None
            },
        }
    }
}

/// The parameters a variant checks a call against: its own, or the base
/// parameters when it lists none.
pub open spec fn shape_params(v: Variant, base: Seq<ParamDef>) -> Seq<ParamDef> {
    if v.params@.len() == 0 {
        base
    } else {
        v.params@
    }
}

/// Whether the condition callback `f` answered `b` for a condition text and
/// a parameter list.
pub open spec fn condition_answered<F: Fn(&str, &[ParamDef]) -> bool>(
    f: F,
    cond: Seq<char>,
    params: Seq<ParamDef>,
    b: bool,
) -> bool {
    exists|c: &str, p: &[ParamDef]| c@ == cond && p@ == params && #[trigger] call_ensures(f, (c, p), b)
}

/// Whether a variant is passed over when a shape is chosen by condition: it
/// has no condition, or one other than `else` that the callback rejected.
pub open spec fn passed_over<F: Fn(&str, &[ParamDef]) -> bool>(f: F, v: Variant, base: Seq<ParamDef>) -> bool {
    match v.condition {
        None => true,
        Some(c) => c@ != "else"@ && condition_answered(f, c@, shape_params(v, base), false),
    }
}

/// Whether a variant is chosen by its condition: `else`, or one the
/// callback accepted.
pub open spec fn chosen_by_condition<F: Fn(&str, &[ParamDef]) -> bool>(
    f: F,
    v: Variant,
    base: Seq<ParamDef>,
) -> bool {
    match v.condition {
        None => false,
        Some(c) => c@ == "else"@ || condition_answered(f, c@, shape_params(v, base), true),
    }
}

/// The total encoded size of a parameter list.
pub open spec fn params_total(ps: Seq<ParamDef>) -> nat
    decreases ps.len(),
{
    if ps.len() == 0 {
        0
    } else {
        params_total(ps.drop_last()) + param_size(ps.last().param_type)
    }
}

/// The index `index_of_mode` finds is an index of the sequence.
pub proof fn lemma_index_of_mode_bounds(vs: Seq<Variant>, mode: u8)
    ensures
        index_of_mode(vs, mode) matches Some(k) ==> 0 <= k < vs.len(),
    decreases vs.len(),
{
    if vs.len() > 0 {
        lemma_index_of_mode_bounds(vs.drop_last(), mode);
    }
}

proof fn lemma_index_of_mode_prefix(vs: Seq<Variant>, mode: u8, i: int)
    requires
        0 <= i < vs.len(),
        index_of_mode(vs.take(i), mode) is None,
        variant_matches_mode(vs[i], mode),
    ensures
        index_of_mode(vs, mode) == Some(i),
    decreases vs.len(),
{
    if i < vs.len() - 1 {
        assert(vs.drop_last().take(i) =~= vs.take(i));
        lemma_index_of_mode_prefix(vs.drop_last(), mode, i);
    } else {
        assert(vs.drop_last() =~= vs.take(i));
    }
}

impl Variant {
    fn source_params_or<'a>(&'a self, default: &'a [ParamDef]) -> (r: &'a [ParamDef])
        ensures
            r@ == shape_params(*self, default@),
    {
        if self.params.len() == 0 {
            default
        } else {
            self.params.as_slice()
        }
    }

    fn matches_first_param_const(&self, mode: u8) -> (r: bool)
        ensures
            r == variant_matches_mode(*self, mode),
    {
        if self.params.len() == 0 {
            return false;
        }
        match &self.params[0].const_value {
            Some(value) => {
                let chars = str_chars(value.as_str());
                match parse_unsigned(&chars, 10, 255) {
                    Some(v) => v == mode as u32,
                    None => false,
                }
            },
            None => false,
        }
    }

    fn emit_args_slice(&self) -> (r: Option<&[String]>)
        ensures
            match self.emit_args {
                Some(e) => r matches Some(x) && x@ == e@,
                None => r is None,
            },
    {
        match &self.emit_args {
            Some(e) => Some(e.as_slice()),
            None => None,
        }
    }
}

impl Command {
    /// Whether the entry is a macro.
    pub fn is_macro(&self) -> (r: bool)
        ensures
            r == (self.cmd_type == CommandType::Macro),
    {
        self.cmd_type == CommandType::Macro
    }

    /// Whether the command has alternative parameter lists.
    pub fn has_variants(&self) -> (r: bool)
        ensures
            r == self.variants is Some,
    {
        self.variants.is_some()
    }

    /// The encoded size of the base parameters.
    pub fn params_size(&self) -> (r: usize)
        requires
            4 * self.params@.len() <= usize::MAX,
        ensures
            r == params_total(self.params@),
    {
        let mut total: usize = 0;
        let mut i: usize = 0;
        while i < self.params.len()
            invariant
                i <= self.params@.len(),
                4 * self.params@.len() <= usize::MAX,
                total == params_total(self.params@.take(i as int)),
                total <= 4 * i,
            decreases self.params.len() - i,
        {
            assert(self.params@.take(i + 1).drop_last() =~= self.params@.take(i as int));
            total = total + self.params[i].param_type.size();
            i = i + 1;
        }
        assert(self.params@.take(self.params@.len() as int) =~= self.params@);
        total
    }

    /// The parameters of the first variant whose first parameter is the
    /// constant `mode`, else the base parameters.
    pub fn get_variant_params(&self, mode: u8) -> (r: &[ParamDef])
        ensures
            match self.variants {
                Some(vs) => match index_of_mode(vs@, mode) {
                    Some(k) => r@ == vs@[k].params@,
                    None => r@ == self.params@,
                },
                None => r@ == self.params@,
            },
    {
        match &self.variants {
            Some(variants) => {
                let mut i: usize = 0;
                while i < variants.len()
                    invariant
                        i <= variants@.len(),
                        self.variants == Some(*variants),
                        index_of_mode(variants@.take(i as int), mode) is None,
                    decreases variants.len() - i,
                {
                    assert(variants@.take(i + 1).drop_last() =~= variants@.take(i as int));
                    if variants[i].matches_first_param_const(mode) {
                        proof {
                            lemma_index_of_mode_prefix(variants@, mode, i as int);
                        }
                        return variants[i].params.as_slice();
                    }
                    i = i + 1;
                }
                assert(variants@.take(variants@.len() as int) =~= variants@);
                self.params.as_slice()
            },
            None => self.params.as_slice(),
        }
    }

    /// Picks the parameter list a call is checked against: first the variant
    /// whose first parameter is the constant `first_arg_u8`, then the first
    /// conditional variant whose condition is `else` or holds by
    /// `eval_condition`, else the base parameters.
    pub fn resolve_source_call_shape(
        &self,
        first_arg_u8: Option<u8>,
        eval_condition: impl Fn(&str, &[ParamDef]) -> bool,
    ) -> (r: ResolvedCommandShape<'_>)
        requires
            forall|c: &str, p: &[ParamDef]| call_requires(eval_condition, (c, p)),
        ensures
            self.variants is None ==> r.params@ == self.params@ && r.emit_args is None,
            (self.variants matches Some(vs) && first_arg_u8 matches Some(mode) && index_of_mode(
                vs@,
                mode,
            ) is Some) ==> ({
                let vs = self.variants->0;
                let k = index_of_mode(vs@, first_arg_u8->0)->0;
                &&& r.params@ == shape_params(vs@[k], self.params@)
                &&& match vs@[k].emit_args {
                    Some(e) => r.emit_args matches Some(x) && x@ == e@,
                    None => r.emit_args is None,
                }
            }),
            (r.params@ == self.params@ && r.emit_args is None) || (self.variants matches Some(vs)
                && exists|k: int|
                0 <= k < vs@.len() && r.params@ == shape_params(#[trigger] vs@[k], self.params@)),
            (self.variants matches Some(vs) && (first_arg_u8 is None || index_of_mode(
                vs@,
                first_arg_u8->0,
            ) is None)) ==> ({
                let vs = self.variants->0;
                ||| (r.params@ == self.params@ && r.emit_args is None && forall|j: int|
                    0 <= j < vs@.len() ==> passed_over(eval_condition, #[trigger] vs@[j], self.params@))
                ||| exists|k: int|
                    0 <= k < vs@.len() && chosen_by_condition(eval_condition, #[trigger] vs@[k], self.params@)
                        && r.params@ == shape_params(vs@[k], self.params@) && (match vs@[k].emit_args {
                        Some(e) => r.emit_args matches Some(x) && x@ == e@,
                        None => r.emit_args is None,
                    }) && forall|j: int| 0 <= j < k ==> passed_over(eval_condition, #[trigger] vs@[j], self.params@)
            }),
    {
        match &self.variants {
            Some(variants) => {
                match first_arg_u8 {
                    Some(mode) => {
                        let mut i: usize = 0;
                        while i < variants.len()
                            invariant
                                i <= variants@.len(),
                                self.variants == Some(*variants),
                                first_arg_u8 == Some(mode),
                                index_of_mode(variants@.take(i as int), mode) is None,
                            decreases variants.len() - i,
                        {
                            assert(variants@.take(i + 1).drop_last() =~= variants@.take(i as int));
                            if variants[i].matches_first_param_const(mode) {
                                proof {
                                    lemma_index_of_mode_prefix(variants@, mode, i as int);
                                }
                                let params = variants[i].source_params_or(self.params.as_slice());
                                assert(params@ == shape_params(variants@[i as int], self.params@));
                                return ResolvedCommandShape {
                                    params,
                                    emit_args: variants[i].emit_args_slice(),
                                };
                            }
                            i = i + 1;
                        }
                        assert(variants@.take(variants@.len() as int) =~= variants@);
                    },
                    None => {},
                }
                let mut i: usize = 0;
                while i < variants.len()
                    invariant
                        i <= variants@.len(),
                        forall|c: &str, p: &[ParamDef]| call_requires(eval_condition, (c, p)),
                        self.variants == Some(*variants),
                        first_arg_u8 matches Some(mode) ==> index_of_mode(variants@, mode) is None,
                        forall|j: int| 0 <= j < i ==> passed_over(eval_condition, #[trigger] variants@[j], self.params@),
                    decreases variants.len() - i,
                {
                    match &variants[i].condition {
                        Some(condition) => {
                            let params = variants[i].source_params_or(self.params.as_slice());
                            assert(params@ == shape_params(variants@[i as int], self.params@));
                            let cond = condition.as_str();
                            let chosen = if str_eq(cond, "else") {
                                true
                            } else {
                                let answer = eval_condition(cond, params);
                                assert(call_ensures(eval_condition, (cond, params), answer));
                                answer
                            };
                            if chosen {
                                assert(chosen_by_condition(eval_condition, variants@[i as int], self.params@));
                                return ResolvedCommandShape {
                                    params,
                                    emit_args: variants[i].emit_args_slice(),
                                };
                            }
                            assert(passed_over(eval_condition, variants@[i as int], self.params@));
                        },
                        None => {},
                    }
                    i = i + 1;
                }
                ResolvedCommandShape { params: self.params.as_slice(), emit_args: None }
            },
            None => ResolvedCommandShape { params: self.params.as_slice(), emit_args: None },
        }
    }
}
} // verus!

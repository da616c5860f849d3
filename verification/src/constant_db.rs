//! Named constants for scripts: the fixed ones of the command database,
//! those loaded from JSON files, and a decomp project's `#define`s, which a
//! symbol table (uxie's, in the application) holds.

use vstd::prelude::*;

use crate::compiler::preprocessor::{trim, trim_chars};
use crate::database::{DatabaseV2, Sound};
use crate::text::{chars_to_string, parse_i32, parse_i32_spec, str_chars, str_eq};

verus! {

#[verifier::external_type_specification]
#[verifier::external_body]
pub struct ExPathBuf(std::path::PathBuf);

/// Constants by name. Names from the database and from JSON files are held
/// here, each once; the symbols of a decomp project are held by a symbol
/// table of type `S`.
#[derive(Debug, Clone)]
pub struct ConstantDb<S = NoSymbols> {
    constants: Vec<(String, i32)>,
    uxie_project_root: Option<std::path::PathBuf>,
    uxie_base_symbols: Option<S>,
    uxie_symbols: Option<S>,
}

/// What a constant database asks of a table of `#define`d symbols (a decomp
/// project's, as the uxie crate reads it). Nothing is assumed of the
/// answers: they depend on the files the table was loaded from.
pub trait SymbolSource: Sized {
    /// The value of a defined name.
    fn resolve_constant(&self, name: &str) -> Option<i64>;

    /// The value of a C constant expression over the defined names.
    fn evaluate_expression(&self, expr: &str) -> Option<i64>;

    /// How many names the table defines.
    fn define_count(&self) -> usize;

    /// A copy of the table.
    fn duplicate(&self) -> Self;

    /// The value of a C constant expression whose free names `db` resolves
    /// (by `ConstantDb::get_i64`).
    fn evaluate_with_parent(expr: &str, db: &ConstantDb<Self>) -> Option<i64>;
}

/// An evaluated value as an `i32`, when it is one.
pub open spec fn spec_value_in_i32(v: Option<i64>) -> Option<i32> {
    match v {
        Some(x) => if i32::MIN <= x <= i32::MAX {
            Some(x as i32)
        } else {
            None
        },
        None => None,
    }
}

/// What an evaluation of a constant expression gives as an `i32`: the value
/// when it is within `i32`, else nothing.
pub fn value_in_i32(v: Option<i64>) -> (r: Option<i32>)
    ensures
        r == spec_value_in_i32(v),
{
    match v {
        Some(x) => if x >= i32::MIN as i64 && x <= i32::MAX as i64 {
            Some(x as i32)
        } else {
            None
        },
        None => None,
    }
}

/// The symbol table of a constant database with no decomp project: it
/// defines nothing and evaluates nothing.
#[derive(Debug, Clone, Copy)]
pub struct NoSymbols;

impl SymbolSource for NoSymbols {
    fn resolve_constant(&self, _name: &str) -> (r: Option<i64>)
        ensures
            r is None,
    {
        None
    }

    fn evaluate_expression(&self, _expr: &str) -> (r: Option<i64>)
        ensures
            r is None,
    {
        None
    }

    fn define_count(&self) -> (r: usize)
        ensures
            r == 0,
    {
        0
    }

    fn duplicate(&self) -> (r: Self)
        ensures
            r == *self,
    {
        NoSymbols
    }

    fn evaluate_with_parent(_expr: &str, _db: &ConstantDb<Self>) -> (r: Option<i64>)
        ensures
            r is None,
    {
        None
    }
}

// ---------------------------------------------------------------------------
// The model: an association list with distinct names
// ---------------------------------------------------------------------------

/// The index of the entry named `k`.
pub open spec fn assoc_index(l: Seq<(Seq<char>, i32)>, k: Seq<char>) -> Option<int>
    decreases l.len(),
{
    if l.len() == 0 {
        None
    } else {
        match assoc_index(l.drop_last(), k) {
            Some(i) => Some(i),
            None => if l.last().0 == k {
                Some(l.len() - 1)
            } else {
                None
            },
        }
    }
}

/// The value of the entry named `k`.
pub open spec fn assoc_get(l: Seq<(Seq<char>, i32)>, k: Seq<char>) -> Option<i32> {
    match assoc_index(l, k) {
        Some(i) => Some(l[i].1),
        None => None,
    }
}

/// `l` with `k` set to `v`: the entry named `k` replaced, or a new entry at
/// the end (as `HashMap::insert` does).
pub open spec fn assoc_insert(l: Seq<(Seq<char>, i32)>, k: Seq<char>, v: i32) -> Seq<(Seq<char>, i32)> {
    match assoc_index(l, k) {
        Some(i) => l.update(i, (k, v)),
        None => l.push((k, v)),
    }
}

/// `l` after setting each entry of `entries` in turn.
pub open spec fn assoc_insert_all(l: Seq<(Seq<char>, i32)>, entries: Seq<(Seq<char>, i32)>) -> Seq<(Seq<char>, i32)>
    decreases entries.len(),
{
    if entries.len() == 0 {
        l
    } else {
        let m = assoc_insert_all(l, entries.drop_last());
        assoc_insert(m, entries.last().0, entries.last().1)
    }
}

/// The names of `l` are pairwise distinct.
pub open spec fn names_distinct(l: Seq<(Seq<char>, i32)>) -> bool {
    forall|i: int, j: int| 0 <= i < j < l.len() ==> (#[trigger] l[i]).0 != (#[trigger] l[j]).0
}

/// `s` with each `/` replaced by `_`.
pub open spec fn slash_to_underscore(s: Seq<char>) -> Seq<char> {
    s.map_values(|c: char| if c == '/' { '_' } else { c })
}

/// The constants a table of `(id text, name)` pairs gives: one for each pair
/// whose id text reads as an `i32`, named by the name (with `/` made `_` when
/// `slash` is set).
pub open spec fn table_constants(table: Seq<(String, String)>, slash: bool) -> Seq<(Seq<char>, i32)>
    decreases table.len(),
{
    if table.len() == 0 {
        Seq::empty()
    } else {
        let rest = table_constants(table.drop_last(), slash);
        let name = if slash {
            slash_to_underscore(table.last().1@)
        } else {
            table.last().1@
        };
        match parse_i32_spec(table.last().0@, 10) {
            Some(v) => rest.push((name, v as i32)),
            None => rest,
        }
    }
}

/// The constants the sound table gives, named by the sounds' names.
pub open spec fn sound_constants(table: Seq<(String, Sound)>) -> Seq<(Seq<char>, i32)>
    decreases table.len(),
{
    if table.len() == 0 {
        Seq::empty()
    } else {
        let rest = sound_constants(table.drop_last());
        match parse_i32_spec(table.last().0@, 10) {
            Some(v) => rest.push((table.last().1.name@, v as i32)),
            None => rest,
        }
    }
}

/// The constants a command database defines, in the order they are set:
/// `TRUE`, `FALSE`, `VARS_START`, then the comparison operators, overworld
/// directions, special overworlds and sounds.
pub open spec fn db_constants(db: DatabaseV2) -> Seq<(Seq<char>, i32)> {
    seq![("TRUE"@, 1i32), ("FALSE"@, 0i32), ("VARS_START"@, 0x4000i32)] + table_constants(
        db.comparison_operators@,
        true,
    ) + table_constants(db.overworld_directions@, false) + table_constants(
        db.special_overworlds@,
        false,
    ) + sound_constants(db.sounds@)
}

proof fn lemma_assoc_index_bounds(l: Seq<(Seq<char>, i32)>, k: Seq<char>)
    ensures
        assoc_index(l, k) matches Some(i) ==> 0 <= i < l.len() && l[i].0 == k,
        assoc_index(l, k) is None ==> forall|i: int| 0 <= i < l.len() ==> (#[trigger] l[i]).0 != k,
    decreases l.len(),
{
    if l.len() > 0 {
        lemma_assoc_index_bounds(l.drop_last(), k);
        assert forall|i: int| 0 <= i < l.len() - 1 implies l.drop_last()[i] == #[trigger] l[i] by {}
    }
}

proof fn lemma_assoc_index_of(l: Seq<(Seq<char>, i32)>, i: int)
    requires
        names_distinct(l),
        0 <= i < l.len(),
    ensures
        assoc_index(l, l[i].0) == Some(i),
    decreases l.len(),
{
    if i < l.len() - 1 {
        let p = l.drop_last();
        assert(p[i] == l[i]);
        lemma_assoc_index_of(p, i);
    } else {
        lemma_assoc_index_bounds(l.drop_last(), l[i].0);
        if assoc_index(l.drop_last(), l[i].0) is Some {
            let j = assoc_index(l.drop_last(), l[i].0)->0;
            assert(l.drop_last()[j] == l[j]);
        }
    }
}

/// Setting a name keeps the names distinct, and the name then reads back
/// the value set.
pub proof fn lemma_assoc_insert(l: Seq<(Seq<char>, i32)>, k: Seq<char>, v: i32)
    requires
        names_distinct(l),
    ensures
        names_distinct(assoc_insert(l, k, v)),
        assoc_get(assoc_insert(l, k, v), k) == Some(v),
        forall|x: Seq<char>| x != k ==> assoc_get(assoc_insert(l, k, v), x) == assoc_get(l, x),
{
    let n = assoc_insert(l, k, v);
    lemma_assoc_index_bounds(l, k);
    assert(names_distinct(n)) by {
        assert forall|i: int, j: int| 0 <= i < j < n.len() implies (#[trigger] n[i]).0 != (
        #[trigger] n[j]).0 by {
            if assoc_index(l, k) is None && j == l.len() {
                assert(n[i] == l[i]);
            } else if assoc_index(l, k) is None {
                assert(n[i] == l[i] && n[j] == l[j]);
            } else {
                let m = assoc_index(l, k)->0;
                if i != m && j != m {
                    assert(n[i] == l[i] && n[j] == l[j]);
                } else if i == m {
                    assert(n[j] == l[j]);
                } else {
                    assert(n[i] == l[i]);
                }
            }
        }
    }
    let idx = if assoc_index(l, k) is Some {
        assoc_index(l, k)->0
    } else {
        l.len() as int
    };
    assert(n[idx] == (k, v));
    lemma_assoc_index_of(n, idx);
    assert forall|x: Seq<char>| x != k implies assoc_get(n, x) == assoc_get(l, x) by {
        lemma_assoc_index_bounds(l, x);
        lemma_assoc_index_bounds(n, x);
        if assoc_index(l, x) is Some {
            let i = assoc_index(l, x)->0;
            assert(n[i] == l[i]);
            lemma_assoc_index_of(n, i);
            lemma_assoc_index_of(l, i);
        } else if assoc_index(n, x) is Some {
            let i = assoc_index(n, x)->0;
            if i < l.len() {
                assert(n[i] == l[i]);
            }
        }
    }
}

impl<S: SymbolSource> ConstantDb<S> {
    /// The constants held by name (those of uxie aside), in insertion order.
    pub closed spec fn constants(&self) -> Seq<(Seq<char>, i32)> {
        self.constants@.map_values(|p: (String, i32)| (p.0@, p.1))
    }

    /// Whether a decomp project's symbols are loaded.
    pub closed spec fn has_symbols(&self) -> bool {
        self.uxie_symbols is Some
    }

    /// Each name is held once, and a decomp project's root and base symbols
    /// are loaded together.
    pub closed spec fn wf(&self) -> bool {
        &&& names_distinct(self.constants())
        &&& (self.uxie_project_root is Some <==> self.uxie_base_symbols is Some)
    }

    /// An empty constant database whose decomp symbols, once loaded, are
    /// held in tables of type `S`.
    pub fn empty() -> (r: Self)
        ensures
            r.wf(),
            r.constants() == Seq::<(Seq<char>, i32)>::empty(),
            !r.has_symbols(),
    {
        let r = ConstantDb {
            constants: Vec::new(),
            uxie_project_root: None,
            uxie_base_symbols: None,
            uxie_symbols: None,
        };
        assert(r.constants() =~= Seq::<(Seq<char>, i32)>::empty());
        r
    }

    fn index_of(&self, name: &str) -> (r: Option<usize>)
        ensures
            match assoc_index(self.constants(), name@) {
                Some(i) => r == Some(i as usize),
                None => r is None,
            },
    {
        let ghost l = self.constants();
        let mut i: usize = 0;
        while i < self.constants.len()
            invariant
                i <= self.constants@.len(),
                l == self.constants(),
                assoc_index(l.take(i as int), name@) is None,
            decreases self.constants.len() - i,
        {
            assert(l.take(i + 1).drop_last() =~= l.take(i as int));
            assert(l[i as int].0 == self.constants@[i as int].0@);
            if str_eq(self.constants[i].0.as_str(), name) {
                proof {
                    lemma_assoc_index_prefix(l, i as int);
                }
                return Some(i);
            }
            i = i + 1;
        }
        assert(l.take(l.len() as int) =~= l);
        None
    }

    /// Sets constant `name` to `value`, replacing an earlier value.
    pub fn insert_constant(&mut self, name: String, value: i32)
        requires
            old(self).wf(),
        ensures
            final(self).wf(),
            final(self).constants() == assoc_insert(old(self).constants(), name@, value),
            final(self).has_symbols() == old(self).has_symbols(),
    {
        let ghost l = self.constants();
        let ghost v0 = self.constants@;
        proof {
            lemma_assoc_insert(l, name@, value);
            lemma_assoc_index_bounds(l, name@);
        }
        let key: &str = name.as_str();
        let held: usize = self.constants.len();
        let found = self.index_of(key);
        proof {
            assert(key@ == name@);
            assert(self.constants() == l);
            assert(assoc_index(l, name@) is Some ==> found == Some((assoc_index(l, name@)->0) as usize));
        }
        match found {
            Some(i) => {
                let ghost nv = name@;
                assert(assoc_index(l, nv) is Some);
                assert(l.len() == v0.len() && v0.len() == held);
                assert(0 <= assoc_index(l, nv)->0 < l.len());
                assert(assoc_index(l, nv) == Some(i as int));
                self.constants.set(i, (name, value));
                assert(self.constants@ == v0.update(i as int, self.constants@[i as int]));
                assert(assoc_insert(l, nv, value) == l.update(i as int, (nv, value)));
                assert(self.constants() =~= assoc_insert(l, nv, value));
            },
            None => {
                self.constants.push((name, value));
                assert(self.constants() =~= assoc_insert(l, name@, value));
            },
        }
    }

    /// Sets a constant for each `(id text, name)` pair whose id text reads as
    /// an `i32` (as a constants JSON file holds them); gives how many.
    pub fn load_id_name_pairs(&mut self, pairs: &Vec<(String, String)>) -> (count: usize)
        requires
            old(self).wf(),
        ensures
            final(self).wf(),
            final(self).constants() == assoc_insert_all(old(self).constants(), table_constants(pairs@, false)),
            count == table_constants(pairs@, false).len(),
            final(self).has_symbols() == old(self).has_symbols(),
    {
        self.insert_table(pairs, false)
    }

    fn insert_table(&mut self, table: &Vec<(String, String)>, slash: bool) -> (count: usize)
        requires
            old(self).wf(),
        ensures
            final(self).wf(),
            final(self).constants() == assoc_insert_all(old(self).constants(), table_constants(table@, slash)),
            count == table_constants(table@, slash).len(),
            final(self).has_symbols() == old(self).has_symbols(),
    {
        let ghost start = self.constants();
        let mut count: usize = 0;
        let mut i: usize = 0;
        while i < table.len()
            invariant
                i <= table@.len(),
                self.wf(),
                self.constants() == assoc_insert_all(start, table_constants(table@.take(i as int), slash)),
                count == table_constants(table@.take(i as int), slash).len(),
                count <= i,
                self.has_symbols() == old(self).has_symbols(),
            decreases table.len() - i,
        {
            assert(table@.take(i + 1).drop_last() =~= table@.take(i as int));
            let id_chars = str_chars(table[i].0.as_str());
            match parse_i32(&id_chars, 10) {
                Some(id) => {
                    let name = if slash {
                        slash_underscored(table[i].1.as_str())
                    } else {
                        table[i].1.clone()
                    };
                    let ghost before = table_constants(table@.take(i as int), slash);
                    self.insert_constant(name, id);
                    count = count + 1;
                    proof {
                        assert(table_constants(table@.take(i + 1), slash) == before.push((name@, id)));
                        assert(table_constants(table@.take(i + 1), slash).drop_last() =~= before);
                    }
                },
                None => {},
            }
            i = i + 1;
        }
        assert(table@.take(table@.len() as int) =~= table@);
        count
    }

    fn insert_sounds(&mut self, table: &Vec<(String, Sound)>) -> (count: usize)
        requires
            old(self).wf(),
        ensures
            final(self).wf(),
            final(self).constants() == assoc_insert_all(old(self).constants(), sound_constants(table@)),
            count == sound_constants(table@).len(),
            final(self).has_symbols() == old(self).has_symbols(),
    {
        let ghost start = self.constants();
        let mut count: usize = 0;
        let mut i: usize = 0;
        while i < table.len()
            invariant
                i <= table@.len(),
                self.wf(),
                self.constants() == assoc_insert_all(start, sound_constants(table@.take(i as int))),
                count == sound_constants(table@.take(i as int)).len(),
                count <= i,
                self.has_symbols() == old(self).has_symbols(),
            decreases table.len() - i,
        {
            assert(table@.take(i + 1).drop_last() =~= table@.take(i as int));
            let id_chars = str_chars(table[i].0.as_str());
            match parse_i32(&id_chars, 10) {
                Some(id) => {
                    let ghost before = sound_constants(table@.take(i as int));
                    let name = table[i].1.name.clone();
                    self.insert_constant(name, id);
                    count = count + 1;
                    proof {
                        assert(sound_constants(table@.take(i + 1)).drop_last() =~= before);
                    }
                },
                None => {},
            }
            i = i + 1;
        }
        assert(table@.take(table@.len() as int) =~= table@);
        count
    }

    /// Sets the constants of the command database (see `db_constants`) and
    /// gives how many were set.
    pub fn load_from_db(&mut self, db: &DatabaseV2) -> (count: usize)
        requires
            old(self).wf(),
            db.comparison_operators@.len() + db.overworld_directions@.len()
                + db.special_overworlds@.len() + db.sounds@.len() + 3 <= usize::MAX,
        ensures
            final(self).wf(),
            final(self).constants() == assoc_insert_all(old(self).constants(), db_constants(*db)),
            count == db_constants(*db).len(),
            final(self).has_symbols() == old(self).has_symbols(),
    {
        let ghost start = self.constants();
        let ghost fixed = seq![("TRUE"@, 1i32), ("FALSE"@, 0i32), ("VARS_START"@, 0x4000i32)];
        proof {
            assert(fixed.drop_last().drop_last().drop_last() =~= Seq::<(Seq<char>, i32)>::empty());
            assert(fixed.drop_last().drop_last() =~= seq![("TRUE"@, 1i32)]);
            assert(fixed.drop_last() =~= seq![("TRUE"@, 1i32), ("FALSE"@, 0i32)]);
            assert(assoc_insert_all(start, fixed.drop_last().drop_last().drop_last()) == start);
        }
        self.insert_constant(string_of("TRUE"), 1);
        assert(self.constants() == assoc_insert_all(start, fixed.drop_last().drop_last()));
        self.insert_constant(string_of("FALSE"), 0);
        assert(self.constants() == assoc_insert_all(start, fixed.drop_last()));
        self.insert_constant(string_of("VARS_START"), 0x4000);
        assert(self.constants() == assoc_insert_all(start, fixed));
        let a = self.insert_table(&db.comparison_operators, true);
        let ghost s1 = fixed + table_constants(db.comparison_operators@, true);
        proof {
            lemma_insert_all_append(start, fixed, table_constants(db.comparison_operators@, true));
        }
        let b = self.insert_table(&db.overworld_directions, false);
        let ghost s2 = s1 + table_constants(db.overworld_directions@, false);
        proof {
            lemma_insert_all_append(start, s1, table_constants(db.overworld_directions@, false));
        }
        let c = self.insert_table(&db.special_overworlds, false);
        let ghost s3 = s2 + table_constants(db.special_overworlds@, false);
        proof {
            lemma_insert_all_append(start, s2, table_constants(db.special_overworlds@, false));
        }
        let d = self.insert_sounds(&db.sounds);
        proof {
            lemma_insert_all_append(start, s3, sound_constants(db.sounds@));
            lemma_table_constants_len(db.comparison_operators@, true);
            lemma_table_constants_len(db.overworld_directions@, false);
            lemma_table_constants_len(db.special_overworlds@, false);
            lemma_sound_constants_len(db.sounds@);
        }
        3 + a + b + c + d
    }

    /// The value of constant `name`: the one set here, else the one a loaded
    /// decomp project defines (truncated to 32 bits).
    pub fn get(&self, name: &str) -> (r: Option<i32>)
        requires
            self.wf(),
        ensures
            assoc_get(self.constants(), name@) matches Some(v) ==> r == Some(v),
            assoc_get(self.constants(), name@) is None && !self.has_symbols() ==> r is None,
    {
        match self.index_of(name) {
            Some(i) => {
                proof {
                    lemma_assoc_index_bounds(self.constants(), name@);
                    let j = assoc_index(self.constants(), name@)->0;
                    assert(self.constants().len() == self.constants.len());
                    assert(j == i);
                    assert(self.constants()[i as int] == (
                        self.constants@[i as int].0@,
                        self.constants@[i as int].1,
                    ));
                    assert(assoc_get(self.constants(), name@) == Some(self.constants@[i as int].1));
                }
                Some(self.constants[i].1)
            },
            None => match &self.uxie_symbols {
                Some(symbols) => match symbols.resolve_constant(name) {
                    Some(val) => Some(#[verifier::truncate] (val as i32)),
                    None => None,
                },
                None => None,
            },
        }
    }

    /// `get` as a 64-bit value.
    pub fn get_i64(&self, name: &str) -> (r: Option<i64>)
        requires
            self.wf(),
        ensures
            match self.get_spec_known(name@) {
                Some(v) => r == Some(v as i64),
                None => true,
            },
    {
        match self.get(name) {
            Some(v) => Some(v as i64),
            None => None,
        }
    }

    /// The value `get` gives when this database alone decides it.
    pub open spec fn get_spec_known(&self, name: Seq<char>) -> Option<i32> {
        assoc_get(self.constants(), name)
    }

    /// Evaluates a C constant expression over these constants: by the loaded
    /// decomp project's symbols first, else by uxie's evaluator resolving
    /// names with `get`. A blank expression, or a value outside `i32`, gives
    /// nothing.
    pub fn evaluate_expression(&self, expr: &str) -> (r: Option<i32>)
        requires
            self.wf(),
        ensures
            trim(expr@).len() == 0 ==> r is None,
    {
        let chars = str_chars(expr);
        let trimmed = trim_chars(&chars);
        if trimmed.len() == 0 {
            return None;
        }
        let text = chars_to_string(&trimmed);
        let from_symbols = match &self.uxie_symbols {
            Some(symbols) => symbols.evaluate_expression(text.as_str()),
            None => None,
        };
        match value_in_i32(from_symbols) {
            Some(v) => {
                return Some(v);
            },
            None => {},
        }
        value_in_i32(S::evaluate_with_parent(text.as_str(), self))
    }

    /// The number of constants: those set here and those of a loaded decomp
    /// project.
    pub fn len(&self) -> (r: usize)
        ensures
            !self.has_symbols() ==> r == self.constants().len(),
    {
        let uxie_count = match &self.uxie_symbols {
            Some(symbols) => symbols.define_count(),
            None => 0,
        };
        self.constants.len().wrapping_add(uxie_count)
    }

    /// Whether there are no constants at all.
    pub fn is_empty(&self) -> (r: bool)
        ensures
            !self.has_symbols() ==> (r <==> self.constants().len() == 0),
    {
        self.len() == 0
    }

    /// Takes the symbols of the decomp project at `root` as the base and the
    /// current project symbols; gives how many defines they hold.
    pub fn load_decomp_symbols(&mut self, root: std::path::PathBuf, symbols: S) -> (count: usize)
        requires
            old(self).wf(),
        ensures
            final(self).wf(),
            final(self).constants() == old(self).constants(),
            final(self).has_symbols(),
            final(self).project_root() == Some(root),
    {
        let count = symbols.define_count();
        self.uxie_project_root = Some(root);
        self.uxie_base_symbols = Some(symbols.duplicate());
        self.uxie_symbols = Some(symbols);
        count
    }

    /// The root of the loaded decomp project, if any.
    pub closed spec fn project_root(&self) -> Option<std::path::PathBuf> {
        self.uxie_project_root
    }

    /// The root of the loaded decomp project.
    pub fn uxie_project_root(&self) -> (r: &Option<std::path::PathBuf>)
        ensures
            *r == self.project_root(),
    {
        &self.uxie_project_root
    }

    /// The symbols of the loaded decomp project as first loaded.
    pub fn uxie_base_symbols(&self) -> (r: &Option<S>)
        requires
            self.wf(),
        ensures
            r is Some <==> self.project_root() is Some,
    {
        &self.uxie_base_symbols
    }

    /// The current decomp project symbols (the base ones plus those of the
    /// script being compiled).
    pub fn uxie_symbols(&self) -> (r: &Option<S>)
        ensures
            r is Some <==> self.has_symbols(),
    {
        &self.uxie_symbols
    }

    /// Replaces the current decomp project symbols.
    pub fn set_uxie_symbols(&mut self, symbols: Option<S>)
        requires
            old(self).wf(),
        ensures
            final(self).wf(),
            final(self).constants() == old(self).constants(),
            final(self).has_symbols() == symbols is Some,
    {
        self.uxie_symbols = symbols;
    }
}

impl ConstantDb<NoSymbols> {
    /// An empty constant database, with no decomp project.
    pub fn new() -> (r: Self)
        ensures
            r.wf(),
            r.constants() == Seq::<(Seq<char>, i32)>::empty(),
            !r.has_symbols(),
    {
        Self::empty()
    }
}

proof fn lemma_assoc_index_prefix(l: Seq<(Seq<char>, i32)>, i: int)
    requires
        0 <= i < l.len(),
        assoc_index(l.take(i), l[i].0) is None,
    ensures
        assoc_index(l, l[i].0) == Some(i),
    decreases l.len(),
{
    if i < l.len() - 1 {
        assert(l.drop_last().take(i) =~= l.take(i));
        assert(l.drop_last()[i] == l[i]);
        lemma_assoc_index_prefix(l.drop_last(), i);
    } else {
        assert(l.drop_last() =~= l.take(i));
    }
}

proof fn lemma_insert_all_append(
    l: Seq<(Seq<char>, i32)>,
    a: Seq<(Seq<char>, i32)>,
    b: Seq<(Seq<char>, i32)>,
)
    ensures
        assoc_insert_all(l, a + b) == assoc_insert_all(assoc_insert_all(l, a), b),
    decreases b.len(),
{
    if b.len() == 0 {
        assert(a + b =~= a);
    } else {
        assert((a + b).drop_last() =~= a + b.drop_last());
        assert((a + b).last() == b.last());
        lemma_insert_all_append(l, a, b.drop_last());
    }
}

proof fn lemma_table_constants_len(table: Seq<(String, String)>, slash: bool)
    ensures
        table_constants(table, slash).len() <= table.len(),
    decreases table.len(),
{
    if table.len() > 0 {
        lemma_table_constants_len(table.drop_last(), slash);
    }
}

proof fn lemma_sound_constants_len(table: Seq<(String, Sound)>)
    ensures
        sound_constants(table).len() <= table.len(),
    decreases table.len(),
{
    if table.len() > 0 {
        lemma_sound_constants_len(table.drop_last());
    }
}

/// A fresh string holding `s`.
fn string_of(s: &str) -> (r: String)
    ensures
        r@ == s@,
{
    crate::text::string_from(s)
}

/// `s` with each `/` replaced by `_` (`str::replace('/', "_")`).
fn slash_underscored(s: &str) -> (r: String)
    ensures
        r@ == slash_to_underscore(s@),
{
    let chars = str_chars(s);
    let mut out: Vec<char> = Vec::new();
    let mut i: usize = 0;
    while i < chars.len()
        invariant
            i <= chars@.len(),
            out@ == slash_to_underscore(chars@.take(i as int)),
        decreases chars.len() - i,
    {
        let c = chars[i];
        out.push(if c == '/' {
            '_'
        } else {
            c
        });
        i = i + 1;
        assert(out@ =~= slash_to_underscore(chars@.take(i as int)));
    }
    assert(chars@.take(chars@.len() as int) =~= chars@);
    chars_to_string(&out)
}

} // verus!

verus! {

// ---------------------------------------------------------------------------
// Names of constants files
// ---------------------------------------------------------------------------

/// Whether a JSON file of a constants directory holds constants: command
/// databases (`commands.json`, names with `_v2`) do not.
pub open spec fn is_constants_file(name: Seq<char>) -> bool {
    !crate::text::contains_seq(name, "_v2"@) && name != "commands.json"@
}

/// Tells a constants file from a command database by its file name.
pub fn is_constants_file_name(filename: &str) -> (r: bool)
    ensures
        r == is_constants_file(filename@),
{
    let name = str_chars(filename);
    let marker = str_chars("_v2");
    !crate::text::contains_chars(&name, &marker) && !str_eq(filename, "commands.json")
}

/// The strings of `list` separated by `"; "`.
pub open spec fn join_semicolons(list: Seq<Seq<char>>) -> Seq<char>
    decreases list.len(),
{
    if list.len() == 0 {
        Seq::empty()
    } else if list.len() == 1 {
        list[0]
    } else {
        join_semicolons(list.drop_last()) + "; "@ + list.last()
    }
}

/// How many failures a directory error lists by name.
pub open spec fn shown_failures() -> nat {
    5
}

/// The error of a constants directory some of whose files failed to load:
/// the directory, the number of constants loaded, the first five failures
/// and how many more there were.
pub open spec fn directory_failure_message(dir: Seq<char>, total: nat, errors: Seq<Seq<char>>) -> Seq<char> {
    let shown = if errors.len() > shown_failures() {
        errors.take(shown_failures() as int)
    } else {
        errors
    };
    let head = "Failed to load one or more constants JSON files from '"@ + dir + "'. Loaded "@
        + crate::text::nat_to_decimal(total) + " constants before failure(s): "@ + join_semicolons(
        shown,
    );
    if errors.len() > shown_failures() {
        head + "; and "@ + crate::text::nat_to_decimal((errors.len() - shown_failures()) as nat)
            + " additional error(s)"@
    } else {
        head
    }
}

/// The views of a sequence of strings.
pub open spec fn string_views(v: Seq<String>) -> Seq<Seq<char>> {
    v.map_values(|s: String| s@)
}

/// Builds the error of a constants directory whose files partly failed.
pub fn directory_failure(dir: &str, total: usize, errors: &Vec<String>) -> (r: String)
    ensures
        r@ == directory_failure_message(dir@, total as nat, string_views(errors@)),
{
    let ghost all = string_views(errors@);
    let count = if errors.len() > 5 {
        5
    } else {
        errors.len()
    };
    let mut joined = String::new();
    let mut i: usize = 0;
    while i < count
        invariant
            i <= count <= errors@.len(),
            all == string_views(errors@),
            joined@ == join_semicolons(all.take(i as int)),
        decreases count - i,
    {
        let ghost prev = all.take(i as int);
        assert(all.take(i + 1) =~= prev.push(errors@[i as int]@));
        assert(all.take(i + 1).drop_last() =~= prev);
        if i > 0 {
            joined.append("; ");
        }
        joined.append(errors[i].as_str());
        proof {
            if i == 0 {
                assert(joined@ =~= errors@[0]@);
            } else {
                assert(joined@ =~= join_semicolons(prev) + "; "@ + errors@[i as int]@);
            }
        }
        i = i + 1;
    }
    proof {
        if errors@.len() <= 5 {
            assert(all.take(count as int) =~= all);
        }
    }
    let total_text = crate::text::usize_to_string(total);
    let a = crate::text::concat3("Failed to load one or more constants JSON files from '", dir, "'. Loaded ");
    let b = crate::text::concat3(a.as_str(), total_text.as_str(), " constants before failure(s): ");
    let mut message = crate::text::concat(b.as_str(), joined.as_str());
    if errors.len() > 5 {
        let extra = crate::text::usize_to_string(errors.len() - 5);
        let tail = crate::text::concat3("; and ", extra.as_str(), " additional error(s)");
        message.append(tail.as_str());
    }
    message
}

/// The events file of a map script: `scripts_<map>` gives `events_<map>.json`.
pub open spec fn events_file_of(stem: Seq<char>) -> Option<Seq<char>> {
    if crate::text::is_prefix("scripts_"@, stem) {
        Some("events_"@ + stem.subrange(8, stem.len() as int) + ".json"@)
    } else {
        None
    }
}

/// Names the events JSON file of the map a script file belongs to.
pub fn events_file_name(stem: &str) -> (r: Option<String>)
    ensures
        match events_file_of(stem@) {
            Some(n) => r matches Some(s) && s@ == n,
            None => r is None,
        },
{
    proof {
        reveal_strlit("scripts_");
    }
    let chars = str_chars(stem);
    let prefix = str_chars("scripts_");
    if !crate::text::starts_with(&chars, &prefix) {
        return None;
    }
    let mut rest: Vec<char> = Vec::new();
    let mut i: usize = 8;
    while i < chars.len()
        invariant
            8 <= i <= chars@.len(),
            rest@ == chars@.subrange(8, i as int),
        decreases chars.len() - i,
    {
        rest.push(chars[i]);
        i = i + 1;
        assert(rest@ =~= chars@.subrange(8, i as int));
    }
    let map = chars_to_string(&rest);
    Some(crate::text::concat3("events_", map.as_str(), ".json"))
}

/// `s` with every occurrence of `p` (scanning left to right) replaced by
/// `r` (`str::replace`); `p` is not empty.
pub open spec fn replace_all(s: Seq<char>, p: Seq<char>, r: Seq<char>) -> Seq<char>
    decreases s.len(),
{
    if p.len() == 0 || s.len() < p.len() {
        s
    } else if s.take(p.len() as int) == p {
        r + replace_all(s.skip(p.len() as int), p, r)
    } else {
        seq![s[0]] + replace_all(s.skip(1), p, r)
    }
}

/// The JSON file an included header of a map's events stands for: a header
/// path under `res/field/events/` ending in `.h` gives the path with `.h`
/// made `.json`.
pub open spec fn events_json_of_header(path: Seq<char>) -> Option<Seq<char>> {
    if crate::text::contains_seq(path, "res/field/events/"@) && path.len() >= 2 && path.skip(
        path.len() - 2,
    ) == ".h"@ {
        Some(replace_all(path, ".h"@, ".json"@))
    } else {
        None
    }
}

/// Gives the JSON path an included events header stands for.
pub fn events_json_for_header(header_path: &str) -> (r: Option<String>)
    ensures
        match events_json_of_header(header_path@) {
            Some(n) => r matches Some(s) && s@ == n,
            None => r is None,
        },
{
    proof {
        reveal_strlit(".h");
        reveal_strlit(".json");
    }
    let s = str_chars(header_path);
    let dir = str_chars("res/field/events/");
    if !crate::text::contains_chars(&s, &dir) {
        return None;
    }
    let n = s.len();
    if n < 2 || s[n - 2] != '.' || s[n - 1] != 'h' {
        proof {
            if n >= 2 && s@.skip(n - 2) == ".h"@ {
                assert(s@.skip(n - 2)[0] == s@[n - 2]);
                assert(s@.skip(n - 2)[1] == s@[n - 1]);
            }
        }
        return None;
    }
    assert(s@.skip(n - 2) =~= ".h"@);
    let mut out: Vec<char> = Vec::new();
    let mut i: usize = 0;
    assert(s@.skip(0) =~= s@);
    while i < n
        invariant
            n == s@.len(),
            i <= n,
            out@ + replace_all(s@.skip(i as int), ".h"@, ".json"@) == replace_all(s@, ".h"@, ".json"@),
        decreases n - i,
    {
        let ghost t = s@.skip(i as int);
        proof {
            reveal_strlit(".h");
            reveal_strlit(".json");
        }
        if n - i >= 2 && s[i] == '.' && s[i + 1] == 'h' {
            assert(t.take(2) =~= ".h"@);
            assert(t.skip(2) =~= s@.skip(i + 2));
            let ghost before = out@;
            out.push('.');
            out.push('j');
            out.push('s');
            out.push('o');
            out.push('n');
            assert(out@ =~= before + ".json"@);
            assert(before + (".json"@ + replace_all(s@.skip(i + 2), ".h"@, ".json"@)) =~= out@ + replace_all(s@.skip(i + 2), ".h"@, ".json"@));
            i = i + 2;
        } else {
            if n - i >= 2 {
                assert(t.take(2) != ".h"@) by {
                    assert(t.take(2)[0] == s@[i as int]);
                    assert(t.take(2)[1] == s@[i + 1]);
                }
            }
            assert(t.skip(1) =~= s@.skip(i + 1));
            assert(t[0] == s@[i as int]);
            let ghost before = out@;
            out.push(s[i]);
            assert(before + (seq![s@[i as int]] + replace_all(s@.skip(i + 1), ".h"@, ".json"@)) =~= out@ + replace_all(s@.skip(i + 1), ".h"@, ".json"@));
            i = i + 1;
        }
    }
    assert(s@.skip(n as int) =~= Seq::<char>::empty());
    assert(out@ + Seq::<char>::empty() =~= out@);
    Some(chars_to_string(&out))
}

} // verus!

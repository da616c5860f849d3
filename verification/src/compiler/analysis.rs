//! Symbols of a script file: scripts, actions, labels, aliases and
//! constants, in nested scopes.

use vstd::prelude::*;

use super::ast::{Expression, ExpressionKind};
use super::diagnostic::error::{analysis_error, CompileError, ParseResult};
use super::token::TokenType;
use crate::constant_db::{assoc_get, ConstantDb, NoSymbols, SymbolSource};
use crate::database::{comparison_of_upper, ComparisonOperator, DatabaseV2, ParamType};
use crate::text::{
    concat, concat3, i32_to_string, int_to_decimal, nat_to_decimal, str_eq, string_from, unicode_uppercase,
    usize_to_string,
};

verus! {

/// What a name stands for.
#[derive(Debug, Clone, Copy, PartialEq, Eq, Structural)]
pub enum SymbolType {
    Function(Option<u32>),
    Action,
    Label,
    Variable(i32),
    Constant(i32),
}

/// One definition: the name, what it is, and where it was defined.
pub type Definition = (String, SymbolType, core::ops::Range<usize>);

/// The first definition of `name` in a scope.
pub open spec fn scope_lookup(scope: Seq<Definition>, name: Seq<char>) -> Option<int>
    decreases scope.len(),
{
    if scope.len() == 0 {
        None
    } else {
        match scope_lookup(scope.drop_last(), name) {
            Some(i) => Some(i),
            None => if scope.last().0@ == name {
                Some(scope.len() - 1)
            } else {
                None
            },
        }
    }
}

/// What `name` stands for in the innermost of the first `depth` scopes that
/// defines it.
pub open spec fn resolve_in(scopes: Seq<Seq<Definition>>, depth: int, name: Seq<char>) -> Option<
    SymbolType,
>
    decreases depth,
{
    if depth <= 0 || depth > scopes.len() {
        None
    } else {
        match scope_lookup(scopes[depth - 1], name) {
            Some(i) => Some(scopes[depth - 1][i].1),
            None => resolve_in(scopes, depth - 1, name),
        }
    }
}

/// Resolving in the global scope alone is a lookup there.
proof fn lemma_global(scopes: Seq<Seq<Definition>>, k: Seq<char>)
    requires
        scopes.len() >= 1,
    ensures
        resolve_in(scopes, 1, k) == match scope_lookup(scopes[0], k) {
            Some(i) => Some(scopes[0][i].1),
            None => None::<SymbolType>,
        },
{
    assert(resolve_in(scopes, 0, k) is None);
}

/// Nested scopes of definitions; the first is the global scope.
#[derive(Debug, Clone)]
pub struct SymbolTable {
    scopes: Vec<Vec<Definition>>,
}

/// The message for a name defined twice globally.
pub open spec fn global_redefinition_message(name: Seq<char>, previous: core::ops::Range<usize>) -> Seq<
    char,
> {
    "Symbol '"@ + name + "' is already defined globally. (Previous definition at "@
        + nat_to_decimal(previous.start as nat) + ".."@ + nat_to_decimal(previous.end as nat)
        + ")"@
}

/// The message for a name defined twice in one scope.
pub open spec fn scoped_redefinition_message(name: Seq<char>, previous: core::ops::Range<usize>) -> Seq<
    char,
> {
    "Symbol '"@ + name + "' is already defined in this scope. (Previous definition at "@
        + nat_to_decimal(previous.start as nat) + ".."@ + nat_to_decimal(previous.end as nat)
        + ")"@
}

/// `new` is `old` with the definition `d` of a name put in: replacing the
/// first definition of that name, or appended.
pub open spec fn put_definition(old: Seq<Definition>, new: Seq<Definition>, d: Definition) -> bool {
    match scope_lookup(old, d.0@) {
        Some(i) => new == old.update(i, d),
        None => new == old.push(d),
    }
}

/// Lookups after putting in a definition.
proof fn lemma_put_lookup(old: Seq<Definition>, new: Seq<Definition>, d: Definition, k: Seq<char>)
    requires
        put_definition(old, new, d),
    ensures
        k == d.0@ ==> (scope_lookup(new, k) matches Some(i) && new[i] == d),
        k != d.0@ ==> scope_lookup(new, k) == scope_lookup(old, k),
        k != d.0@ && scope_lookup(old, k) is Some ==> new[scope_lookup(old, k)->0] == old[scope_lookup(
            old,
            k,
        )->0],
{
    lemma_scope_lookup_bounds(old, k);
    lemma_scope_lookup_bounds(old, d.0@);
    match scope_lookup(old, d.0@) {
        Some(i) => {
            lemma_scope_update(old, i, d, k);
        },
        None => {
            lemma_scope_push(old, d, k);
        },
    }
}

proof fn lemma_scope_lookup_bounds(scope: Seq<Definition>, name: Seq<char>)
    ensures
        scope_lookup(scope, name) matches Some(i) ==> 0 <= i < scope.len() && scope[i].0@ == name,
        scope_lookup(scope, name) is None ==> forall|j: int|
            0 <= j < scope.len() ==> (#[trigger] scope[j]).0@ != name,
    decreases scope.len(),
{
    if scope.len() > 0 {
        lemma_scope_lookup_bounds(scope.drop_last(), name);
        if scope_lookup(scope.drop_last(), name) is None {
            assert forall|j: int| 0 <= j < scope.len() - 1 implies (#[trigger] scope[j]).0@ != name by {
                assert(scope[j] == scope.drop_last()[j]);
            }
        }
    }
}

proof fn lemma_scope_lookup_prefix(scope: Seq<Definition>, name: Seq<char>, i: int)
    requires
        0 <= i < scope.len(),
        scope_lookup(scope.take(i), name) is None,
        scope[i].0@ == name,
    ensures
        scope_lookup(scope, name) == Some(i),
    decreases scope.len(),
{
    if i < scope.len() - 1 {
        assert(scope.drop_last().take(i) =~= scope.take(i));
        lemma_scope_lookup_prefix(scope.drop_last(), name, i);
    } else {
        assert(scope.drop_last() =~= scope.take(i));
    }
}

/// Replacing the first definition of a name keeps every other lookup.
proof fn lemma_scope_update(scope: Seq<Definition>, i: int, d: Definition, k: Seq<char>)
    requires
        scope_lookup(scope, d.0@) == Some(i),
    ensures
        scope_lookup(scope.update(i, d), k) == if k == d.0@ {
            Some(i)
        } else {
            scope_lookup(scope, k)
        },
    decreases scope.len(),
{
    lemma_scope_lookup_bounds(scope, d.0@);
    if i == scope.len() - 1 {
        assert(scope.update(i, d).drop_last() =~= scope.drop_last());
    } else {
        assert(scope.update(i, d).drop_last() =~= scope.drop_last().update(i, d));
        lemma_scope_update(scope.drop_last(), i, d, k);
    }
}

/// Appending a definition of a new name keeps every other lookup.
proof fn lemma_scope_push(scope: Seq<Definition>, d: Definition, k: Seq<char>)
    requires
        scope_lookup(scope, d.0@) is None,
    ensures
        scope_lookup(scope.push(d), k) == if k == d.0@ {
            Some(scope.len() as int)
        } else {
            scope_lookup(scope, k)
        },
{
    assert(scope.push(d).drop_last() =~= scope);
}

/// Position of the definition of `name` in `scope`.
fn find_in_scope(scope: &Vec<Definition>, name: &str) -> (r: Option<usize>)
    ensures
        r matches Some(i) ==> scope_lookup(scope@, name@) == Some(i as int) && i < scope@.len(),
        r is None ==> scope_lookup(scope@, name@) is None,
{
    proof {
        lemma_scope_lookup_bounds(scope@, name@);
    }
    let mut i: usize = 0;
    while i < scope.len()
        invariant
            i <= scope@.len(),
            scope_lookup(scope@.take(i as int), name@) is None,
        decreases scope.len() - i,
    {
        assert(scope@.take(i + 1).drop_last() =~= scope@.take(i as int));
        if str_eq(scope[i].0.as_str(), name) {
            proof {
                lemma_scope_lookup_prefix(scope@, name@, i as int);
            }
            return Some(i);
        }
        i = i + 1;
    }
    assert(scope@.take(scope@.len() as int) =~= scope@);
    None
}

impl SymbolTable {
    /// The scopes, outermost first.
    pub closed spec fn scopes(&self) -> Seq<Seq<Definition>> {
        self.scopes@.map_values(|s: Vec<Definition>| s@)
    }

    /// What `name` stands for in the innermost scope that defines it.
    pub open spec fn resolved(&self, name: Seq<char>) -> Option<SymbolType> {
        resolve_in(self.scopes(), self.scopes().len() as int, name)
    }

    /// What `name` stands for in the global scope.
    pub open spec fn global(&self, name: Seq<char>) -> Option<SymbolType> {
        resolve_in(self.scopes(), 1, name)
    }

    /// There is always a global scope.
    pub open spec fn wf(&self) -> bool {
        self.scopes().len() >= 1
    }

    /// A table with only an empty global scope.
    pub fn new() -> (r: SymbolTable)
        ensures
            r.wf(),
            r.scopes() == seq![Seq::<Definition>::empty()],
    {
        let mut scopes: Vec<Vec<Definition>> = Vec::new();
        scopes.push(Vec::new());
        let r = SymbolTable { scopes };
        assert(r.scopes() =~= seq![Seq::<Definition>::empty()]);
        r
    }

    /// Opens a new innermost scope.
    pub fn enter_scope(&mut self)
        requires
            old(self).wf(),
        ensures
            final(self).wf(),
            final(self).scopes() == old(self).scopes().push(Seq::empty()),
    {
        self.scopes.push(Vec::new());
        assert(self.scopes() =~= old(self).scopes().push(Seq::empty()));
    }

    /// Closes the innermost scope; the global scope is never closed.
    pub fn exit_scope(&mut self)
        requires
            old(self).wf(),
        ensures
            final(self).wf(),
            old(self).scopes().len() > 1 ==> final(self).scopes() == old(self).scopes().drop_last(),
            old(self).scopes().len() == 1 ==> final(self).scopes() == old(self).scopes(),
    {
        if self.scopes.len() > 1 {
            self.scopes.pop();
            assert(self.scopes() =~= old(self).scopes().drop_last());
        }
    }

    /// Replaces or adds the definition of `name` in scope `level`.
    fn put(&mut self, level: usize, name: String, kind: SymbolType, span: core::ops::Range<usize>)
        requires
            old(self).wf(),
            level < old(self).scopes().len(),
        ensures
            final(self).wf(),
            final(self).scopes().len() == old(self).scopes().len(),
            forall|l: int|
                0 <= l < old(self).scopes().len() && l != level ==> #[trigger] final(self).scopes()[l]
                    == old(self).scopes()[l],
            exists|d: Definition|
                d.0@ == name@ && d.1 == kind && d.2 == span && put_definition(
                    old(self).scopes()[level as int],
                    final(self).scopes()[level as int],
                    d,
                ),
    {
        let ghost old_scope = self.scopes@[level as int]@;
        let ghost n = name@;
        let found = find_in_scope(&self.scopes[level], name.as_str());
        let mut scope = self.scopes.remove(level);
        assert(scope@ == old_scope);
        match found {
            Some(i) => {
                scope.set(i, (name, kind, span));
            },
            None => {
                scope.push((name, kind, span));
            },
        }
        let ghost d = scope@[match found {
            Some(i) => i as int,
            None => old_scope.len() as int,
        }];
        assert(put_definition(old_scope, scope@, d));
        assert(d.0@ == n && d.1 == kind && d.2 == span);
        self.scopes.insert(level, scope);
        assert(self.scopes@ =~= old(self).scopes@.update(level as int, self.scopes@[level as int]));
        assert(self.scopes().len() == old(self).scopes().len());
        assert forall|l: int|
            0 <= l < old(self).scopes().len() && l != level implies #[trigger] self.scopes()[l]
            == old(self).scopes()[l] by {}
        assert(self.scopes()[level as int] == self.scopes@[level as int]@);
        assert(d.0@ == name@ && d.1 == kind && d.2 == span && put_definition(
            old(self).scopes()[level as int],
            self.scopes()[level as int],
            d,
        ));
    }

    /// Defines `name` globally. A name may be defined globally once, except
    /// that a definition replaces a constant of the same name.
    pub fn define_global(&mut self, name: String, kind: SymbolType, span: core::ops::Range<usize>) -> (r:
        ParseResult<()>)
        requires
            old(self).wf(),
        ensures
            final(self).wf(),
            final(self).scopes().len() == old(self).scopes().len(),
            match old(self).global(name@) {
                None => r is Ok,
                Some(SymbolType::Constant(_)) => r is Ok,
                Some(_) => r is Err && *final(self) == *old(self),
            },
            r is Ok ==> final(self).global(name@) == Some(kind),
            r is Ok ==> forall|k: Seq<char>|
                k != name@ ==> #[trigger] final(self).global(k) == old(self).global(k),
            r matches Err(e) ==> (e matches CompileError::Analysis { span: s, message } && s == span
                && message@ == global_redefinition_message(
                name@,
                old(self).scopes()[0][scope_lookup(old(self).scopes()[0], name@)->0].2,
            )),
    {
        assert(self.scopes()[0] == self.scopes@[0]@);
        proof {
            lemma_global(self.scopes(), name@);
        }
        match find_in_scope(&self.scopes[0], name.as_str()) {
            Some(i) => {
                let existing = self.scopes[0][i].1;
                match existing {
                    SymbolType::Constant(_) => {},
                    _ => {
                        let original = &self.scopes[0][i].2;
                        let a = usize_to_string(original.start);
                        let b = usize_to_string(original.end);
                        let m1 = concat3("Symbol '", name.as_str(), "' is already defined globally. (Previous definition at ");
                        let m2 = concat3(m1.as_str(), a.as_str(), "..");
                        return Err(analysis_error(span, concat3(m2.as_str(), b.as_str(), ")")));
                    },
                }
            },
            None => {},
        }
        let ghost n = name@;
        proof {
            assert(self.scopes()[0] == self.scopes@[0]@);
        }
        self.put(0, name, kind, span);
        proof {
            let d = choose|d: Definition|
                d.0@ == n && d.1 == kind && d.2 == span && put_definition(
                    old(self).scopes()[0],
                    self.scopes()[0],
                    d,
                );
            assert forall|k: Seq<char>| k != n implies #[trigger] self.global(k) == old(self).global(k) by {
                lemma_put_lookup(old(self).scopes()[0], self.scopes()[0], d, k);
                lemma_global(self.scopes(), k);
                lemma_global(old(self).scopes(), k);
            }
            lemma_put_lookup(old(self).scopes()[0], self.scopes()[0], d, n);
            lemma_global(self.scopes(), n);
            lemma_global(old(self).scopes(), n);
        }
        Ok(())
    }

    /// Defines an alias (a variable) globally; it may not take the name of a
    /// script, action or label visible from the innermost scope.
    pub fn define_alias(&mut self, name: String, value: i32, span: core::ops::Range<usize>) -> (r:
        ParseResult<()>)
        requires
            old(self).wf(),
        ensures
            final(self).wf(),
            final(self).scopes().len() == old(self).scopes().len(),
            match old(self).resolved(name@) {
                Some(SymbolType::Function(_)) | Some(SymbolType::Action) | Some(SymbolType::Label) =>
                    *final(self) == *old(self) && (r matches Err(CompileError::Analysis { span: s, message })
                    && s == span && message@ == "Alias '"@ + name@
                    + "' conflicts with an existing non-alias symbol"@),
                _ => r is Ok && final(self).global(name@) == Some(SymbolType::Variable(value)),
            },
            r is Ok ==> forall|k: Seq<char>|
                k != name@ ==> #[trigger] final(self).global(k) == old(self).global(k),
    {
        match self.resolve(name.as_str()) {
            Some(SymbolType::Function(_)) | Some(SymbolType::Action) | Some(SymbolType::Label) => {
                return Err(
                    analysis_error(
                        span,
                        concat3("Alias '", name.as_str(), "' conflicts with an existing non-alias symbol"),
                    ),
                );
            },
            _ => {},
        }
        let ghost n = name@;
        self.put(0, name, SymbolType::Variable(value), span);
        proof {
            let d = choose|d: Definition|
                d.0@ == n && d.1 == SymbolType::Variable(value) && d.2 == span && put_definition(
                    old(self).scopes()[0],
                    self.scopes()[0],
                    d,
                );
            assert forall|k: Seq<char>| k != n implies #[trigger] self.global(k) == old(self).global(k) by {
                lemma_put_lookup(old(self).scopes()[0], self.scopes()[0], d, k);
                lemma_global(self.scopes(), k);
                lemma_global(old(self).scopes(), k);
            }
            lemma_put_lookup(old(self).scopes()[0], self.scopes()[0], d, n);
            lemma_global(self.scopes(), n);
            lemma_global(old(self).scopes(), n);
        }
        Ok(())
    }

    /// Defines `name` in the innermost scope, where it must be new.
    pub fn define_scoped(&mut self, name: String, kind: SymbolType, span: core::ops::Range<usize>) -> (r:
        Result<(), CompileError>)
        requires
            old(self).wf(),
        ensures
            final(self).wf(),
            ({
                let top = old(self).scopes().len() - 1;
                let s = old(self).scopes()[top];
                match scope_lookup(s, name@) {
                    Some(i) => *final(self) == *old(self) && (r matches Err(
                        CompileError::Analysis { span: sp, message },
                    ) && sp == span && message@ == scoped_redefinition_message(name@, s[i].2)),
                    None => {
                        let t = final(self).scopes()[top];
                        &&& r is Ok
                        &&& final(self).resolved(name@) == Some(kind)
                        &&& final(self).scopes().len() == old(self).scopes().len()
                        &&& forall|l: int|
                            0 <= l < top ==> #[trigger] final(self).scopes()[l] == old(self).scopes()[l]
                        &&& t.len() == s.len() + 1
                        &&& t.drop_last() == s
                        &&& t.last().0@ == name@ && t.last().1 == kind && t.last().2 == span
                    },
                }
            }),
    {
        let top = self.scopes.len() - 1;
        assert(self.scopes()[top as int] == self.scopes@[top as int]@);
        match find_in_scope(&self.scopes[top], name.as_str()) {
            Some(i) => {
                let original = &self.scopes[top][i].2;
                let a = usize_to_string(original.start);
                let b = usize_to_string(original.end);
                let m1 = concat3("Symbol '", name.as_str(), "' is already defined in this scope. (Previous definition at ");
                let m2 = concat3(m1.as_str(), a.as_str(), "..");
                return Err(analysis_error(span, concat3(m2.as_str(), b.as_str(), ")")));
            },
            None => {},
        }
        let ghost n = name@;
        self.put(top, name, kind, span);
        proof {
            let d = choose|d: Definition|
                d.0@ == n && d.1 == kind && d.2 == span && put_definition(
                    old(self).scopes()[top as int],
                    self.scopes()[top as int],
                    d,
                );
            lemma_put_lookup(old(self).scopes()[top as int], self.scopes()[top as int], d, n);
            assert(self.scopes()[top as int].drop_last() =~= old(self).scopes()[top as int]);
        }
        Ok(())
    }

    /// What `name` stands for in the innermost scope that defines it.
    pub fn resolve(&self, name: &str) -> (r: Option<&SymbolType>)
        requires
            self.wf(),
        ensures
            match self.resolved(name@) {
                Some(t) => r matches Some(x) && *x == t,
                None => r is None,
            },
    {
        let mut level = self.scopes.len();
        while level > 0
            invariant
                level <= self.scopes@.len(),
                self.scopes() == self.scopes@.map_values(|s: Vec<Definition>| s@),
                self.resolved(name@) == resolve_in(self.scopes(), level as int, name@),
            decreases level,
        {
            assert(self.scopes()[level - 1] == self.scopes@[level - 1]@);
            match find_in_scope(&self.scopes[level - 1], name) {
                Some(i) => {
                    return Some(&self.scopes[level - 1][i].1);
                },
                None => {},
            }
            level = level - 1;
        }
        None
    }
}


// ---------------------------------------------------------------------------
// Resolving constant expressions
// ---------------------------------------------------------------------------

/// Scopes close cleanly: entering a scope pushes an empty innermost scope,
/// definitions made inside it (by `define_scoped`) change only that scope,
/// and leaving it (by `exit_scope`, with more than the global scope open)
/// gives back exactly the scopes from before, whatever was defined inside.
pub proof fn lemma_scope_exit(before: Seq<Seq<Definition>>, inside: Seq<Seq<Definition>>)
    requires
        before.len() >= 1,
        inside.len() == before.push(Seq::empty()).len(),
        forall|l: int| 0 <= l < before.len() ==> #[trigger] inside[l] == before.push(Seq::empty())[l],
    ensures
        inside.len() > 1,
        inside.drop_last() == before,
{
    assert(inside.drop_last() =~= before);
}

/// What resolving an expression to an integer gives, as far as this library
/// decides it: a value, a failure, or whatever the constant database's
/// evaluator of a loaded decomp project answers.
pub enum IntOutcome {
    Value(i32),
    Fails,
    Outside,
}

/// What the semantic analyser resolves names and commands against.
pub struct Analyzer<'a, S: SymbolSource = NoSymbols> {
    pub symbols: SymbolTable,
    constants: Option<&'a ConstantDb<S>>,
    database: Option<&'a DatabaseV2>,
    loop_depth: u32,
}

/// The names of variable ranges every script may use.
pub open spec fn builtin_name_value(name: Seq<char>) -> Option<i32> {
    if name == "VARS_START"@ {
        Some(0x4000i32)
    } else if name == "VARS_END"@ || name == "SCRIPT_LOCAL_VARS_END"@ {
        Some(0x800Di32)
    } else if name == "SCRIPT_LOCAL_VARS_START"@ {
        Some(0x8000i32)
    } else {
        None
    }
}

/// The value a constant database gives a name: `Some(Some(v))` for a value,
/// `Some(None)` for none, and `None` where a loaded decomp project decides.
pub open spec fn constants_value<S: SymbolSource>(db: Option<&ConstantDb<S>>, name: Seq<char>) -> Option<Option<i32>> {
    match db {
        None => Some(None),
        Some(c) => match assoc_get(c.constants(), name) {
            Some(v) => Some(Some(v)),
            None => if c.has_symbols() {
                None
            } else {
                Some(None)
            },
        },
    }
}

/// `-v`, wrapping at `i32::MIN`.
pub open spec fn neg_i32(v: i32) -> i32 {
    if v == i32::MIN {
        i32::MIN
    } else {
        (-v) as i32
    }
}

/// The result of an arithmetic operator on two values, where it fits in `i32`.
pub open spec fn infix_value(op: TokenType, a: i32, b: i32) -> Option<i32> {
    let v: int = match op {
        TokenType::Plus => a + b,
        TokenType::Minus => a - b,
        TokenType::Mul => a * b,
        _ => i32::MIN - 1,
    };
    if i32::MIN <= v <= i32::MAX {
        Some(v as i32)
    } else {
        None
    }
}

impl<'a, S: SymbolSource> Analyzer<'a, S> {
    /// The symbol table.
    pub closed spec fn table(&self) -> SymbolTable {
        self.symbols
    }

    /// The constant database names are looked up in, if any.
    pub closed spec fn constants_db(&self) -> Option<&'a ConstantDb<S>> {
        self.constants
    }

    /// The command database, if any.
    pub closed spec fn command_db(&self) -> Option<&'a DatabaseV2> {
        self.database
    }

    /// The symbol table is well formed and so is the constant database.
    pub open spec fn wf(&self) -> bool {
        &&& self.table().wf()
        &&& self.constants_db() matches Some(c) ==> c.wf()
    }

    /// Whether `name` names a command of the database.
    pub open spec fn names_command(&self, name: Seq<char>) -> bool {
        self.command_db() matches Some(db) && db.command_lookup(name) is Some
    }

    /// What a name resolves to as an integer: the built-in variable ranges,
    /// then a constant or alias of the symbol table, then the constant
    /// database, then a comparison operator name.
    pub open spec fn symbol_int(&self, name: Seq<char>) -> IntOutcome {
        match builtin_name_value(name) {
            Some(v) => IntOutcome::Value(v),
            None => match self.table().resolved(name) {
                Some(SymbolType::Constant(v)) => IntOutcome::Value(v),
                Some(SymbolType::Variable(v)) => IntOutcome::Value(v),
                Some(_) => IntOutcome::Fails,
                None => match constants_value(self.constants_db(), name) {
                    None => IntOutcome::Outside,
                    Some(Some(v)) => IntOutcome::Value(v),
                    Some(None) => match comparison_of_upper(unicode_uppercase(name)) {
                        Some(c) => IntOutcome::Value(c.spec_id() as i32),
                        None => IntOutcome::Fails,
                    },
                },
            },
        }
    }

    /// What an expression resolves to as an integer.
    pub open spec fn int_outcome(&self, e: Expression) -> IntOutcome
        decreases e,
    {
        match e.node {
            ExpressionKind::Number(n) => IntOutcome::Value(n),
            ExpressionKind::Identifier(name) => self.symbol_int(name@),
            ExpressionKind::Prefix { operator, id } => match self.int_outcome(*id) {
                IntOutcome::Value(v) => match operator {
                    TokenType::Minus => IntOutcome::Value(neg_i32(v)),
                    TokenType::Plus => IntOutcome::Value(v),
                    _ => IntOutcome::Fails,
                },
                IntOutcome::Fails => IntOutcome::Fails,
                IntOutcome::Outside => IntOutcome::Outside,
            },
            ExpressionKind::Infix { left, operator, right } => match self.int_outcome(*left) {
                IntOutcome::Value(a) => match self.int_outcome(*right) {
                    IntOutcome::Value(b) => match infix_value(operator, a, b) {
                        Some(v) => IntOutcome::Value(v),
                        None => IntOutcome::Fails,
                    },
                    IntOutcome::Fails => IntOutcome::Fails,
                    IntOutcome::Outside => IntOutcome::Outside,
                },
                IntOutcome::Fails => IntOutcome::Fails,
                IntOutcome::Outside => IntOutcome::Outside,
            },
            ExpressionKind::Call { function, args: _ } => match function.node {
                ExpressionKind::Identifier(name) => if self.names_command(name@) || self.constants_db() is None
                    || constant_eval_text(e) is None {
                    IntOutcome::Fails
                } else {
                    IntOutcome::Outside
                },
                _ => IntOutcome::Fails,
            },
            _ => IntOutcome::Fails,
        }
    }
}

impl<'a> Analyzer<'a, NoSymbols> {
    /// An analyser with no constant or command database.
    pub fn new() -> (r: Analyzer<'a, NoSymbols>)
        ensures
            r.wf(),
            r.table().scopes() == seq![Seq::<Definition>::empty()],
            r.constants_db() is None,
            r.command_db() is None,
    {
        Analyzer { symbols: SymbolTable::new(), constants: None, database: None, loop_depth: 0 }
    }

    /// Checks that a number argument fits its parameter's type.
    pub fn validate_number_for_type(
        n: i32,
        param_type: &ParamType,
        span: &core::ops::Range<usize>,
        command: &str,
        param_name: &str,
        arg_index: usize,
    ) -> (r: ParseResult<()>)
        requires
            arg_index < usize::MAX,
        ensures
            number_fits_type(n, *param_type).0 ==> r is Ok,
            !number_fits_type(n, *param_type).0 ==> (r matches Err(CompileError::Analysis { span: sp, message })
                && sp == *span && message@ == out_of_range_message(
                n,
                *param_type,
                command@,
                param_name@,
                arg_index as nat,
            )),
    {
        let (valid, type_desc) = match param_type {
            ParamType::U8 => (-128 <= n && n <= 255, "u8 (0-255)"),
            ParamType::U16 | ParamType::Var | ParamType::Flag | ParamType::MsgId => (-32768 <= n && n <= 65535,
                "u16 (0-65535)"),
            ParamType::U32 | ParamType::Label | ParamType::ScriptId | ParamType::MovementId => (n >= 0,
                "u32 (non-negative)"),
            ParamType::Unknown => (true, "unknown"),
        };
        if valid {
            return Ok(());
        }
        proof {
            reveal_strlit("u8 (0-255)");
            reveal_strlit("u16 (0-65535)");
            reveal_strlit("u32 (non-negative)");
            reveal_strlit("unknown");
        }
        assert(type_desc@ == number_fits_type(n, *param_type).1);
        let index = crate::text::u64_to_string(arg_index as u64 + 1);
        let num = i32_to_string(n);
        let m1 = concat3("Argument ", index.as_str(), " ('");
        let m2 = concat3(m1.as_str(), param_name, "') for '");
        let m3 = concat3(m2.as_str(), command, "' is out of range: ");
        let m4 = concat3(m3.as_str(), num.as_str(), " does not fit in ");
        let message = concat(m4.as_str(), type_desc);
        Err(analysis_error(span.start..span.end, message))
    }
}

impl<'a, S: SymbolSource> Analyzer<'a, S> {
    /// An analyser that resolves names with a constant database.
    pub fn with_constants(constants: &'a ConstantDb<S>) -> (r: Analyzer<'a, S>)
        requires
            constants.wf(),
        ensures
            r.wf(),
            r.table().scopes() == seq![Seq::<Definition>::empty()],
            r.constants_db() == Some(constants),
            r.command_db() is None,
    {
        Analyzer { symbols: SymbolTable::new(), constants: Some(constants), database: None, loop_depth: 0 }
    }

    /// An analyser with a constant database and a command database.
    pub fn with_database(constants: &'a ConstantDb<S>, database: &'a DatabaseV2) -> (r: Analyzer<'a, S>)
        requires
            constants.wf(),
        ensures
            r.wf(),
            r.table().scopes() == seq![Seq::<Definition>::empty()],
            r.constants_db() == Some(constants),
            r.command_db() == Some(database),
    {
        Analyzer { symbols: SymbolTable::new(), constants: Some(constants), database: Some(database), loop_depth: 0 }
    }

    /// Whether `name` names a command of the database.
    fn is_command(&self, name: &str) -> (r: bool)
        ensures
            r == self.names_command(name@),
    {
        match self.database {
            Some(db) => db.get_command(name).is_ok(),
            None => false,
        }
    }

    /// Resolves a name to an integer: the built-in variable ranges, then a
    /// constant or alias in scope, then the constant database, then a
    /// comparison operator name.
    fn resolve_name_to_int(&self, name: &String, span: &core::ops::Range<usize>) -> (r: ParseResult<i32>)
        requires
            self.wf(),
        ensures
            match self.symbol_int(name@) {
                IntOutcome::Value(v) => r == Ok::<i32, CompileError>(v),
                IntOutcome::Fails => r matches Err(CompileError::Analysis { span: sp, message }) && sp == *span
                    && message@ == "Could not resolve '"@ + name@ + "' to an integer expression"@,
                IntOutcome::Outside => r is Err ==> (r matches Err(CompileError::Analysis { span: sp, message })
                    && sp == *span && message@ == "Could not resolve '"@ + name@ + "' to an integer expression"@),
            },
    {
        let n = name.as_str();
        if str_eq(n, "VARS_START") {
            return Ok(0x4000);
        }
        if str_eq(n, "VARS_END") || str_eq(n, "SCRIPT_LOCAL_VARS_END") {
            return Ok(0x800D);
        }
        if str_eq(n, "SCRIPT_LOCAL_VARS_START") {
            return Ok(0x8000);
        }
        let fail = analysis_error(
            span.start..span.end,
            concat3("Could not resolve '", n, "' to an integer expression"),
        );
        match self.symbols.resolve(n) {
            Some(SymbolType::Constant(v)) => {
                return Ok(*v);
            },
            Some(SymbolType::Variable(v)) => {
                return Ok(*v);
            },
            Some(_) => {
                return Err(fail);
            },
            None => {},
        }
        match self.constants {
            Some(db) => match db.get(n) {
                Some(v) => {
                    return Ok(v);
                },
                None => {},
            },
            None => {},
        }
        match ComparisonOperator::from_str(n) {
            Some(c) => Ok(c.id() as i32),
            None => Err(fail),
        }
    }

    /// Resolves an expression to a 32-bit integer: numbers, names (see
    /// `resolve_name_to_int`), `-` and `+` prefixes, and `+`, `-`, `*`
    /// without overflow; a call of a name that is not a command is handed
    /// to the constant database's evaluator as C text.
    pub fn resolve_expression_to_int(&self, expr: &Expression) -> (r: ParseResult<i32>)
        requires
            self.wf(),
        ensures
            match self.int_outcome(*expr) {
                IntOutcome::Value(v) => r == Ok::<i32, CompileError>(v),
                IntOutcome::Fails => r matches Err(CompileError::Analysis { .. }),
                IntOutcome::Outside => r is Err ==> (r matches Err(CompileError::Analysis { .. })),
            },
        decreases expr,
    {
        let span = expr.span.start..expr.span.end;
        match &expr.node {
            ExpressionKind::Number(n) => Ok(*n),
            ExpressionKind::Identifier(name) => self.resolve_name_to_int(name, &expr.span),
            ExpressionKind::Prefix { operator, id } => {
                let value = match self.resolve_expression_to_int(id) {
                    Ok(v) => v,
                    Err(e) => {
                        return Err(e);
                    },
                };
                match operator {
                    TokenType::Minus => Ok(if value == i32::MIN {
                        i32::MIN
                    } else {
                        -value
                    }),
                    TokenType::Plus => Ok(value),
                    _ => {
                        let d = operator.debug_text();
                        Err(analysis_error(
                            span,
                            concat3("Unsupported prefix operator ", d.as_str(), " in integer expression"),
                        ))
                    },
                }
            },
            ExpressionKind::Infix { left, operator, right } => {
                let a = match self.resolve_expression_to_int(left) {
                    Ok(v) => v,
                    Err(e) => {
                        return Err(e);
                    },
                };
                let b = match self.resolve_expression_to_int(right) {
                    Ok(v) => v,
                    Err(e) => {
                        return Err(e);
                    },
                };
                assert(-0x8000_0000_0000_0000 <= a * b <= 0x7fff_ffff_ffff_ffff) by (nonlinear_arith)
                    requires
                        i32::MIN <= a <= i32::MAX,
                        i32::MIN <= b <= i32::MAX,
                {
                    assert(-0x8000_0000 * 0x8000_0000 <= a * b <= 0x8000_0000 * 0x8000_0000);
                }
                let wide: Option<i64> = match operator {
                    TokenType::Plus => Some(a as i64 + b as i64),
                    TokenType::Minus => Some(a as i64 - b as i64),
                    TokenType::Mul => Some(a as i64 * b as i64),
                    _ => None,
                };
                match wide {
                    Some(v) => {
                        if i32::MIN as i64 <= v && v <= i32::MAX as i64 {
                            return Ok(v as i32);
                        }
                    },
                    None => {},
                }
                let d = operator.debug_text();
                Err(analysis_error(
                    span,
                    concat3("Unsupported or overflowing operator ", d.as_str(), " in integer expression"),
                ))
            },
            ExpressionKind::Call { function, .. } => {
                let name = match &function.node {
                    ExpressionKind::Identifier(name) => name,
                    _ => {
                        return Err(analysis_error(
                            span,
                            string_from("Function-like constant expressions must use a simple name"),
                        ));
                    },
                };
                if self.is_command(name.as_str()) {
                    return Err(analysis_error(
                        span,
                        concat3("Command '", name.as_str(), "' cannot be used as a constant expression"),
                    ));
                }
                let text = match format_expression_for_constant_eval(expr) {
                    Ok(t) => t,
                    Err(e) => {
                        return Err(e);
                    },
                };
                match self.constants {
                    Some(db) => match db.evaluate_expression(text.as_str()) {
                        Some(v) => {
                            return Ok(v);
                        },
                        None => {},
                    },
                    None => {},
                }
                Err(analysis_error(
                    span,
                    concat3("Could not resolve '", text.as_str(), "' as a constant expression"),
                ))
            },
            _ => Err(analysis_error(span, string_from("Unsupported expression in integer expression"))),
        }
    }
}

/// The C operator text of a prefix operator the constant evaluator accepts.
pub open spec fn prefix_op_text(op: TokenType) -> Option<Seq<char>> {
    match op {
        TokenType::Minus => Some("-"@),
        TokenType::Plus => Some("+"@),
        TokenType::Not => Some("!"@),
        _ => None,
    }
}

/// The C operator text of an infix operator the constant evaluator accepts.
pub open spec fn infix_op_text(op: TokenType) -> Option<Seq<char>> {
    match op {
        TokenType::Plus => Some("+"@),
        TokenType::Minus => Some("-"@),
        TokenType::Mul => Some("*"@),
        TokenType::LesserThan => Some("<"@),
        TokenType::GreaterThan => Some(">"@),
        TokenType::LesserEqual => Some("<="@),
        TokenType::GreaterEqual => Some(">="@),
        TokenType::Equal => Some("=="@),
        TokenType::NotEqual => Some("!="@),
        TokenType::And => Some("&&"@),
        TokenType::Or => Some("||"@),
        _ => None,
    }
}

/// The C text of an expression without calls: numbers in decimal, names as
/// written, prefix operators glued to their operand, infix operations in
/// parentheses. `None` where some operator has no C form or where the
/// expression is not one of these.
pub open spec fn constant_eval_text(e: Expression) -> Option<Seq<char>>
    decreases e,
{
    match e.node {
        ExpressionKind::Number(n) => Some(int_to_decimal(n as int)),
        ExpressionKind::Identifier(name) => Some(name@),
        ExpressionKind::Label(name) => Some(name@),
        ExpressionKind::Prefix { operator, id } => match constant_eval_text(*id) {
            Some(t) => match prefix_op_text(operator) {
                Some(o) => Some(o + t),
                None => None,
            },
            None => None,
        },
        ExpressionKind::Infix { left, operator, right } => match constant_eval_text(*left) {
            Some(a) => match constant_eval_text(*right) {
                Some(b) => match infix_op_text(operator) {
                    Some(o) => Some("("@ + a + " "@ + o + " "@ + b + ")"@),
                    None => None,
                },
                None => None,
            },
            None => None,
        },
        ExpressionKind::Call { function, args } => match function.node {
            ExpressionKind::Identifier(name) => match args_eval_text(args@) {
                Some(t) => Some(name@ + "("@ + t + ")"@),
                None => None,
            },
            _ => None,
        },
        _ => None,
    }
}

/// The C text of a call's arguments, separated by `", "`.
pub open spec fn args_eval_text(args: Seq<Expression>) -> Option<Seq<char>>
    decreases args,
{
    if args.len() == 0 {
        Some(Seq::empty())
    } else {
        match args_eval_text(args.drop_last()) {
            Some(a) => match constant_eval_text(args.last()) {
                Some(b) => Some(
                    if args.len() == 1 {
                        b
                    } else {
                        a + ", "@ + b
                    },
                ),
                None => None,
            },
            None => None,
        }
    }
}

/// Arguments whose first `k` have no C text have none.
proof fn lemma_args_text_none(args: Seq<Expression>, k: int)
    requires
        0 <= k <= args.len(),
        args_eval_text(args.take(k)) is None,
    ensures
        args_eval_text(args) is None,
    decreases args.len() - k,
{
    if k < args.len() {
        assert(args.take(k + 1).drop_last() =~= args.take(k));
        lemma_args_text_none(args, k + 1);
    } else {
        assert(args.take(k) =~= args);
    }
}

/// Whether an expression contains a call.
pub open spec fn has_call(e: Expression) -> bool
    decreases e,
{
    match e.node {
        ExpressionKind::Call { .. } => true,
        ExpressionKind::Prefix { operator: _, id } => has_call(*id),
        ExpressionKind::Infix { left, operator: _, right } => has_call(*left) || has_call(*right),
        _ => false,
    }
}

/// The C text a constant expression is handed to the evaluator as: see
/// `constant_eval_text`; a call is written `name(arg, arg)`.
pub fn format_expression_for_constant_eval(expr: &Expression) -> (r: ParseResult<String>)
    ensures
        r is Err ==> (r matches Err(CompileError::Analysis { .. })),
        match constant_eval_text(*expr) {
            Some(t) => r matches Ok(s) && s@ == t,
            None => r is Err,
        },
    decreases expr,
{
    let span = expr.span.start..expr.span.end;
    match &expr.node {
        ExpressionKind::Number(n) => Ok(i32_to_string(*n)),
        ExpressionKind::Identifier(name) => Ok(name.clone()),
        ExpressionKind::Label(name) => Ok(name.clone()),
        ExpressionKind::Prefix { operator, id } => {
            let inner = match format_expression_for_constant_eval(id) {
                Ok(t) => t,
                Err(e) => {
                    return Err(e);
                },
            };
            let op = match operator {
                TokenType::Minus => "-",
                TokenType::Plus => "+",
                TokenType::Not => "!",
                _ => {
                    let d = operator.debug_text();
                    return Err(analysis_error(
                        span,
                        concat3("Unsupported prefix operator ", d.as_str(), " in constant expression"),
                    ));
                },
            };
            proof {
                reveal_strlit("-");
                reveal_strlit("+");
                reveal_strlit("!");
            }
            Ok(concat(op, inner.as_str()))
        },
        ExpressionKind::Infix { left, operator, right } => {
            let a = match format_expression_for_constant_eval(left) {
                Ok(t) => t,
                Err(e) => {
                    return Err(e);
                },
            };
            let b = match format_expression_for_constant_eval(right) {
                Ok(t) => t,
                Err(e) => {
                    return Err(e);
                },
            };
            let op = match operator {
                TokenType::Plus => "+",
                TokenType::Minus => "-",
                TokenType::Mul => "*",
                TokenType::LesserThan => "<",
                TokenType::GreaterThan => ">",
                TokenType::LesserEqual => "<=",
                TokenType::GreaterEqual => ">=",
                TokenType::Equal => "==",
                TokenType::NotEqual => "!=",
                TokenType::And => "&&",
                TokenType::Or => "||",
                _ => {
                    let d = operator.debug_text();
                    return Err(analysis_error(
                        span,
                        concat3("Unsupported operator ", d.as_str(), " in constant expression"),
                    ));
                },
            };
            let m1 = concat3("(", a.as_str(), " ");
            let m2 = concat3(m1.as_str(), op, " ");
            Ok(concat3(m2.as_str(), b.as_str(), ")"))
        },
        ExpressionKind::Call { function, args } => {
            let name = match &function.node {
                ExpressionKind::Identifier(name) => name,
                _ => {
                    return Err(analysis_error(
                        span,
                        string_from("Function-like constant expressions must use a simple name"),
                    ));
                },
            };
            let mut text = concat(name.as_str(), "(");
            proof {
                reveal_strlit("(");
                reveal_strlit(", ");
                reveal_strlit(")");
                assert(args@.take(0) =~= Seq::<Expression>::empty());
            }
            let mut i: usize = 0;
            while i < args.len()
                invariant
                    i <= args@.len(),
                    has_call(*expr),
                    expr.node == (ExpressionKind::Call { function: *function, args: *args }),
                    function.node == ExpressionKind::Identifier(*name),
                    args_eval_text(args@.take(i as int)) is Some,
                    text@ == name@ + "("@ + args_eval_text(args@.take(i as int))->0,
                decreases args.len() - i,
            {
                proof {
                    assert(decreases_to!(*expr => expr.node));
                    assert(decreases_to!(expr.node => expr.node->Call_args));
                    assert(expr.node->Call_args == *args);
                    assert(decreases_to!(*args => args@));
                    assert(decreases_to!(args@ => args@[i as int]));
                }
                let t = match format_expression_for_constant_eval(&args[i]) {
                    Ok(t) => t,
                    Err(e) => {
                        proof {
                            assert(args@.take(i + 1).drop_last() =~= args@.take(i as int));
                            assert(args@.take(i + 1).last() == args@[i as int]);
                            lemma_args_text_none(args@, i + 1);
                        }
                        return Err(e);
                    },
                };
                proof {
                    assert(args@.take(i + 1).drop_last() =~= args@.take(i as int));
                    assert(args@.take(i + 1).last() == args@[i as int]);
                }
                if i > 0 {
                    text = concat(text.as_str(), ", ");
                }
                text = concat(text.as_str(), t.as_str());
                proof {
                    if i == 0 {
                        assert(args@.take(0) =~= Seq::<Expression>::empty());
                    }
                    assert(text@ =~= name@ + "("@ + args_eval_text(args@.take(i + 1))->0);
                }
                i = i + 1;
            }
            assert(args@.take(args@.len() as int) =~= args@);
            Ok(concat(text.as_str(), ")"))
        },
        _ => {
            let d = string_from("expression");
            Err(analysis_error(span, concat3("Unsupported ", d.as_str(), " in constant expression")))
        },
    }
}


/// Whether a number fits a parameter type, and the type's description:
/// bytes and halfwords take a signed or an unsigned value, words a
/// non-negative one.
pub open spec fn number_fits_type(n: i32, t: ParamType) -> (bool, Seq<char>) {
    match t {
        ParamType::U8 => (-128 <= n <= 255, "u8 (0-255)"@),
        ParamType::U16 | ParamType::Var | ParamType::Flag | ParamType::MsgId => (-32768 <= n <= 65535,
            "u16 (0-65535)"@),
        ParamType::U32 | ParamType::Label | ParamType::ScriptId | ParamType::MovementId => (n >= 0,
            "u32 (non-negative)"@),
        ParamType::Unknown => (true, "unknown"@),
    }
}

/// The message for a number argument that does not fit its parameter.
pub open spec fn out_of_range_message(
    n: i32,
    t: ParamType,
    command: Seq<char>,
    param_name: Seq<char>,
    arg_index: nat,
) -> Seq<char> {
    "Argument "@ + nat_to_decimal(arg_index + 1) + " ('"@ + param_name + "') for '"@ + command
        + "' is out of range: "@ + int_to_decimal(n as int) + " does not fit in "@ + number_fits_type(n, t).1
}

impl<'a, S: SymbolSource> Analyzer<'a, S> {
    /// What a name stands for: a definition in scope, else a constant of
    /// the constant database, else a comparison operator name (as a
    /// constant).
    pub fn resolve_symbol(&self, name: &str) -> (r: Option<SymbolType>)
        requires
            self.wf(),
        ensures
            self.table().resolved(name@) matches Some(t) ==> r == Some(t),
            self.table().resolved(name@) is None ==> match constants_value(self.constants_db(), name@) {
                Some(Some(v)) => r == Some(SymbolType::Constant(v)),
                Some(None) => r == match comparison_of_upper(unicode_uppercase(name@)) {
                    Some(c) => Some(SymbolType::Constant(c.spec_id() as i32)),
                    None => None,
                },
                None => r matches Some(SymbolType::Constant(_)) || r == match comparison_of_upper(
                    unicode_uppercase(name@),
                ) {
                    Some(c) => Some(SymbolType::Constant(c.spec_id() as i32)),
                    None => None,
                },
            },
    {
        match self.symbols.resolve(name) {
            Some(t) => {
                return Some(*t);
            },
            None => {},
        }
        match self.constants {
            Some(db) => match db.get(name) {
                Some(v) => {
                    return Some(SymbolType::Constant(v));
                },
                None => {},
            },
            None => {},
        }
        match ComparisonOperator::from_str(name) {
            Some(c) => Some(SymbolType::Constant(c.id() as i32)),
            None => None,
        }
    }

    /// Checks that the target of a jump names something: a label or a name
    /// that resolves (see `resolve_symbol`).
    pub fn validate_jump_target(&self, expr: &Expression) -> (r: ParseResult<()>)
        requires
            self.wf(),
        ensures
            !(expr.node is Label || expr.node is Identifier) ==> r is Ok,
            (expr.node is Label || expr.node is Identifier) && self.table().resolved(
                jump_target_name(*expr),
            ) is Some ==> r is Ok,
            r matches Err(e) ==> (e matches CompileError::Analysis { span, message } && span == expr.span
                && message@ == "Jump target '"@ + jump_target_name(*expr)
                + "' not found. (Did you forget to define the label?)"@),
    {
        let name = match &expr.node {
            ExpressionKind::Label(name) => name,
            ExpressionKind::Identifier(name) => name,
            _ => {
                return Ok(());
            },
        };
        match self.resolve_symbol(name.as_str()) {
            Some(_) => Ok(()),
            None => Err(analysis_error(
                expr.span.start..expr.span.end,
                concat3(
                    "Jump target '",
                    name.as_str(),
                    "' not found. (Did you forget to define the label?)",
                ),
            )),
        }
    }
}

/// The name a jump target expression is written with.
pub open spec fn jump_target_name(e: Expression) -> Seq<char> {
    match e.node {
        ExpressionKind::Label(n) => n@,
        ExpressionKind::Identifier(n) => n@,
        _ => Seq::empty(),
    }
}

} // verus!

//! The symbol table: nested scopes of named variables, each with a dense id.
//!
//! Scopes form a tree through parent links. A name is resolved from the
//! current scope towards the root. A scope that was left stays in the table,
//! and its symbols keep their ids: the ids handed out are the numbers below
//! the next one, each to one symbol.

use vstd::prelude::*;
use vstd::string::StringExecFns;
use crate::search::{first_index, lemma_first_index, lemma_first_index_found, lemma_first_index_none};

verus! {

/// A declared variable.
pub struct Symbol {
    pub name: String,
    pub position: usize,
    pub source_id: usize,
    pub id: u32,
}

/// The symbols declared in one block, in the order of their declaration.
/// No two of them have the same name.
pub struct Scope {
    pub symbols: Vec<Symbol>,
    pub parent: Option<usize>,
}

/// All scopes of a program, the one that declarations currently go to, and
/// the id that the next symbol gets.
pub struct SymbolTable {
    pub scopes: Vec<Scope>,
    pub current: usize,
    pub next_id: u32,
}

/// A symbol as plain data.
pub struct SymbolView {
    pub name: Seq<char>,
    pub position: usize,
    pub source_id: usize,
    pub id: u32,
}

/// A scope as plain data.
pub struct ScopeView {
    pub symbols: Seq<SymbolView>,
    pub parent: Option<nat>,
}

/// A symbol table as plain data.
pub struct TableView {
    pub scopes: Seq<ScopeView>,
    pub current: nat,
    pub next_id: u32,
}

impl View for Symbol {
    type V = SymbolView;

    open spec fn view(&self) -> SymbolView {
        SymbolView {
            name: self.name@,
            position: self.position,
            source_id: self.source_id,
            id: self.id,
        }
    }
}

impl View for Scope {
    type V = ScopeView;

    open spec fn view(&self) -> ScopeView {
        ScopeView {
            symbols: self.symbols@.map_values(|s: Symbol| s@),
            parent: match self.parent {
                Some(p) => Some(p as nat),
                None => None,
            },
        }
    }
}

impl View for SymbolTable {
    type V = TableView;

    open spec fn view(&self) -> TableView {
        TableView {
            scopes: self.scopes@.map_values(|s: Scope| s@),
            current: self.current as nat,
            next_id: self.next_id,
        }
    }
}

/// The message for a name that no scope in reach declares.
pub open spec fn undeclared_message(name: Seq<char>) -> Seq<char> {
    "use of undeclared variable `"@ + name + "`"@
}

/// The message for a name that the current scope declares already.
pub open spec fn redeclared_message(name: Seq<char>) -> Seq<char> {
    "variable `"@ + name + "` already declared in this scope"@
}

/// The message for a declaration that no id is left for.
pub open spec fn exhausted_message() -> Seq<char> {
    "too many variables"@
}

/// The greater of two numbers.
pub open spec fn greater(a: nat, b: nat) -> nat {
    if a >= b {
        a
    } else {
        b
    }
}

impl ScopeView {
    /// Whether the symbol at an index has the name `name`.
    pub open spec fn is_named(self, name: Seq<char>) -> spec_fn(int) -> bool {
        |j: int| self.symbols[j].name == name
    }

    /// The index of the symbol named `name`.
    pub open spec fn position_of(self, name: Seq<char>) -> Option<int> {
        first_index(self.is_named(name), 0, self.symbols.len() as int)
    }

    /// No two symbols have the same name.
    pub open spec fn names_distinct(self) -> bool {
        forall|j: int, k: int|
            0 <= j < k < self.symbols.len() ==> (#[trigger] self.symbols[j]).name != (
            #[trigger] self.symbols[k]).name
    }

    /// The greatest id among the first `count` symbols, or `bound` if that
    /// is greater.
    pub open spec fn max_id(self, bound: nat, count: nat) -> nat
        decreases count,
    {
        if count == 0 {
            bound
        } else {
            greater(self.max_id(bound, (count - 1) as nat), self.symbols[count - 1].id as nat)
        }
    }
}

impl TableView {
    /// The current scope exists, every parent link points to an earlier
    /// scope, and no scope declares a name twice.
    pub open spec fn wf(self) -> bool {
        &&& self.current < self.scopes.len()
        &&& forall|i: int|
            0 <= i < self.scopes.len() ==> ((#[trigger] self.scopes[i]).parent matches Some(p)
                ==> p < i)
        &&& forall|i: int| 0 <= i < self.scopes.len() ==> (#[trigger] self.scopes[i]).names_distinct()
    }

    /// The symbol that `name` stands for in scope `scope`: the one that the
    /// scope itself declares, or else the one that the name stands for in
    /// its parent.
    pub open spec fn resolve_from(self, name: Seq<char>, scope: int) -> Option<SymbolView>
        decreases scope,
    {
        if scope < 0 || scope >= self.scopes.len() {
            None
        } else {
            match self.scopes[scope].position_of(name) {
                Some(j) => Some(self.scopes[scope].symbols[j]),
                None => match self.scopes[scope].parent {
                    Some(p) => if p < scope {
                        self.resolve_from(name, p as int)
                    } else {
                        None
                    },
                    None => None,
                },
            }
        }
    }

    /// The symbol that `name` stands for in the current scope.
    pub open spec fn resolve(self, name: Seq<char>) -> Option<SymbolView> {
        self.resolve_from(name, self.current as int)
    }

    /// The id that `name` stands for in the current scope: that of the
    /// symbol that the name resolves to.
    pub open spec fn id_of(self, name: Seq<char>) -> Option<u32> {
        match self.resolve(name) {
            Some(symbol) => Some(symbol.id),
            None => None,
        }
    }

    /// The greatest id of a symbol in the first `count` scopes; 0 where
    /// they hold none.
    pub open spec fn max_id(self, count: nat) -> nat
        decreases count,
    {
        if count == 0 {
            0
        } else {
            self.scopes[count - 1].max_id(
                self.max_id((count - 1) as nat),
                self.scopes[count - 1].symbols.len(),
            )
        }
    }

    /// The table after a new, empty scope was entered.
    pub open spec fn begin_scope(self) -> TableView {
        TableView {
            scopes: self.scopes.push(
                ScopeView { symbols: Seq::empty(), parent: Some(self.current) },
            ),
            current: self.scopes.len(),
            next_id: self.next_id,
        }
    }

    /// The table after the current scope was left for its parent, or for
    /// the root where it has none.
    pub open spec fn end_scope(self) -> TableView {
        TableView {
            current: match self.scopes[self.current as int].parent {
                Some(p) => p,
                None => 0,
            },
            ..self
        }
    }

    /// Whether `name` can be declared: an id is left for it, and the current
    /// scope does not declare it yet.
    pub open spec fn can_define(self, name: Seq<char>) -> bool {
        self.next_id < u32::MAX && self.scopes[self.current as int].position_of(name) is None
    }

    /// The table after an attempt to declare `name` in the current scope.
    /// An attempt that fails changes nothing: it takes no id, so that the
    /// ids handed out stay without gaps.
    pub open spec fn define(self, name: Seq<char>, position: usize, source_id: usize) -> TableView {
        if !self.can_define(name) {
            self
        } else {
            let scope = self.scopes[self.current as int];
            let symbol = SymbolView {
                name: name,
                position: position,
                source_id: source_id,
                id: self.next_id,
            };
            TableView {
                scopes: self.scopes.update(
                    self.current as int,
                    ScopeView { symbols: scope.symbols.push(symbol), ..scope },
                ),
                next_id: (self.next_id + 1) as u32,
                ..self
            }
        }
    }

    /// The number of symbols in the first `count` scopes.
    pub open spec fn symbol_count(self, count: nat) -> nat
        decreases count,
    {
        if count == 0 {
            0
        } else {
            self.symbol_count((count - 1) as nat) + self.scopes[count - 1].symbols.len()
        }
    }

    /// Whether the ids of the symbols are the numbers below the next id,
    /// each the id of one symbol: there are as many symbols as ids were
    /// handed out, each has an id below the next one, and no two have the
    /// same id.
    pub open spec fn dense(self) -> bool {
        &&& self.symbol_count(self.scopes.len()) == self.next_id
        &&& forall|s: int, j: int|
            0 <= s < self.scopes.len() && 0 <= j < self.scopes[s].symbols.len() ==> (
            #[trigger] self.scopes[s].symbols[j]).id < self.next_id
        &&& forall|s: int, j: int, t: int, k: int|
            0 <= s < self.scopes.len() && 0 <= j < self.scopes[s].symbols.len() && 0 <= t
                < self.scopes.len() && 0 <= k < self.scopes[t].symbols.len() && (s != t || j != k)
                ==> (#[trigger] self.scopes[s].symbols[j]).id != (
            #[trigger] self.scopes[t].symbols[k]).id
    }
}

/// Tables whose scopes hold as many symbols each, but for one scope that
/// holds one more, hold as many symbols in all, but for that one.
proof fn lemma_symbol_count(before: TableView, after: TableView, count: nat, grown: int)
    requires
        count <= before.scopes.len(),
        count <= after.scopes.len(),
        forall|i: int|
            0 <= i < count ==> after.scopes[i].symbols.len() == (
            #[trigger] before.scopes[i]).symbols.len() + if i == grown {
                1nat
            } else {
                0nat
            },
    ensures
        after.symbol_count(count) == before.symbol_count(count) + if 0 <= grown < count {
            1nat
        } else {
            0nat
        },
    decreases count,
{
    if count > 0 {
        lemma_symbol_count(before, after, (count - 1) as nat, grown);
        assert(after.scopes[count - 1].symbols.len() == before.scopes[count - 1].symbols.len()
            + if count - 1 == grown {
            1nat
        } else {
            0nat
        });
    }
}

/// Dense ids: a table that has handed out the numbers below its next id,
/// each to one symbol, still has after a scope was entered or left and
/// after a declaration, whether it succeeded or failed.
pub proof fn lemma_ids_stay_dense(
    table: TableView,
    name: Seq<char>,
    position: usize,
    source_id: usize,
)
    requires
        table.wf(),
        table.dense(),
    ensures
        table.begin_scope().dense(),
        table.end_scope().dense(),
        table.define(name, position, source_id).dense(),
{
    let entered = table.begin_scope();
    lemma_symbol_count(table, entered, table.scopes.len(), -1);
    lemma_symbol_count(table, table.end_scope(), table.scopes.len(), -1);
    let defined = table.define(name, position, source_id);
    if table.can_define(name) {
        lemma_symbol_count(table, defined, table.scopes.len(), table.current as int);
        let current = table.current as int;
        let end = table.scopes[current].symbols.len() as int;
        assert forall|s: int, j: int|
            0 <= s < defined.scopes.len() && 0 <= j < defined.scopes[s].symbols.len() implies (
        #[trigger] defined.scopes[s].symbols[j]).id < defined.next_id by {
            if !(s == current && j == end) {
                assert(defined.scopes[s].symbols[j] == table.scopes[s].symbols[j]);
            }
        }
        assert forall|s: int, j: int, t: int, k: int|
            0 <= s < defined.scopes.len() && 0 <= j < defined.scopes[s].symbols.len() && 0 <= t
                < defined.scopes.len() && 0 <= k < defined.scopes[t].symbols.len() && (s != t || j
                != k) implies (#[trigger] defined.scopes[s].symbols[j]).id != (
        #[trigger] defined.scopes[t].symbols[k]).id by {
            if !(s == current && j == end) {
                assert(defined.scopes[s].symbols[j] == table.scopes[s].symbols[j]);
            }
            if !(t == current && k == end) {
                assert(defined.scopes[t].symbols[k] == table.scopes[t].symbols[k]);
            }
        }
    }
}

/// No symbol among the first `count` of a scope has an id above their
/// greatest, and the bound that was handed in is not above it either.
pub proof fn lemma_scope_max_id(scope: ScopeView, bound: nat, count: nat)
    requires
        count <= scope.symbols.len(),
    ensures
        bound <= scope.max_id(bound, count),
        forall|j: int| 0 <= j < count ==> (#[trigger] scope.symbols[j]).id <= scope.max_id(bound, count),
    decreases count,
{
    if count > 0 {
        lemma_scope_max_id(scope, bound, (count - 1) as nat);
    }
}

/// No symbol in the first `count` scopes of a table has an id above their
/// greatest.
pub proof fn lemma_table_max_id(table: TableView, count: nat)
    requires
        count <= table.scopes.len(),
    ensures
        forall|s: int, j: int|
            0 <= s < count && 0 <= j < table.scopes[s].symbols.len() ==> (
            #[trigger] table.scopes[s].symbols[j]).id <= table.max_id(count),
    decreases count,
{
    if count > 0 {
        lemma_table_max_id(table, (count - 1) as nat);
        let last = table.scopes[count - 1];
        lemma_scope_max_id(last, table.max_id((count - 1) as nat), last.symbols.len());
    }
}

impl Scope {
    /// An empty scope below `parent`.
    pub fn new(parent: Option<usize>) -> (scope: Self)
        ensures
            scope.parent == parent,
            scope@.symbols == Seq::<SymbolView>::empty(),
    {
        let scope = Scope { symbols: Vec::new(), parent };
        assert(scope@.symbols =~= Seq::empty());
        scope
    }

    /// The index of the symbol named `name`, if the scope declares one.
    fn position_of(&self, name: &String) -> (found: Option<usize>)
        ensures
            match found {
                Some(j) => self@.position_of(name@) == Some(j as int) && j < self.symbols@.len(),
                None => self@.position_of(name@) is None,
            },
    {
        let ghost named = self@.is_named(name@);
        let mut j: usize = 0;
        while j < self.symbols.len()
            invariant
                j <= self.symbols@.len(),
                named == self@.is_named(name@),
                forall|k: int| 0 <= k < j ==> !#[trigger] named(k),
            decreases self.symbols@.len() - j,
        {
            if self.symbols[j].name == *name {
                proof {
                    lemma_first_index_found(named, 0, self.symbols@.len() as int, j as int);
                }
                return Some(j);
            }
            j += 1;
        }
        proof {
            lemma_first_index_none(named, 0, self.symbols@.len() as int);
        }
        None
    }
}

impl SymbolTable {
    /// A table with an empty root scope and no id handed out.
    pub fn new() -> (table: Self)
        ensures
            table@ == (TableView {
                scopes: seq![ScopeView { symbols: Seq::empty(), parent: None }],
                current: 0,
                next_id: 0,
            }),
            table@.wf(),
            table@.dense(),
    {
        let root = Scope::new(None);
        let mut scopes: Vec<Scope> = Vec::new();
        scopes.push(root);
        let table = SymbolTable { scopes, current: 0, next_id: 0 };
        assert(table@.scopes =~= seq![ScopeView { symbols: Seq::empty(), parent: None }]);
        assert(table@.symbol_count(1) == table@.symbol_count(0) + 0);
        table
    }

    /// Hands out the next id.
    fn next_id(&mut self) -> (id: u32)
        requires
            old(self).next_id < u32::MAX,
        ensures
            id == old(self).next_id,
            final(self).next_id == id + 1,
            final(self).scopes == old(self).scopes,
            final(self).current == old(self).current,
    {
        let id = self.next_id;
        self.next_id += 1;
        id
    }

    /// Enters a new scope below the current one.
    pub fn begin_scope(&mut self)
        requires
            old(self)@.wf(),
        ensures
            final(self)@ == old(self)@.begin_scope(),
            final(self)@.wf(),
            old(self)@.dense() ==> final(self)@.dense(),
    {
        proof {
            if old(self)@.dense() {
                lemma_ids_stay_dense(old(self)@, Seq::empty(), 0, 0);
            }
        }
        let parent = Some(self.current);
        let idx = self.scopes.len();
        self.scopes.push(Scope::new(parent));
        self.current = idx;
        assert(self@.scopes =~= old(self)@.scopes.push(
            ScopeView { symbols: Seq::empty(), parent: Some(old(self).current as nat) },
        ));
    }

    /// Leaves the current scope for its parent. Leaving the root scope
    /// changes nothing.
    pub fn end_scope(&mut self)
        requires
            old(self)@.wf(),
        ensures
            final(self)@ == old(self)@.end_scope(),
            final(self)@.wf(),
            old(self)@.dense() ==> final(self)@.dense(),
    {
        proof {
            if old(self)@.dense() {
                lemma_ids_stay_dense(old(self)@, Seq::empty(), 0, 0);
            }
        }
        let parent = self.scopes[self.current].parent;
        self.current = match parent {
            Some(p) => p,
            None => 0,
        };
    }

    /// The symbol that `name` stands for in the current scope: the search
    /// goes from the current scope to the root and stops at the first scope
    /// that declares the name.
    pub fn resolve(&self, name: &str) -> (found: Result<&Symbol, String>)
        requires
            self@.wf(),
        ensures
            match found {
                Ok(symbol) => self@.resolve(name@) == Some(symbol@),
                Err(message) => self@.resolve(name@) is None && message@ == undeclared_message(
                    name@,
                ),
            },
    {
        let key = name.to_owned();
        let mut idx = self.current;
        loop
            invariant
                self@.wf(),
                key@ == name@,
                idx < self.scopes@.len(),
                self@.resolve(name@) == self@.resolve_from(name@, idx as int),
            decreases idx,
        {
            if let Some(j) = self.scopes[idx].position_of(&key) {
                return Ok(&self.scopes[idx].symbols[j]);
            }
            match self.scopes[idx].parent {
                Some(p) => {
                    idx = p;
                },
                None => {
                    let message = String::from_str("use of undeclared variable `").concat(
                        name,
                    ).concat("`");
                    return Err(message);
                },
            }
        }
    }

    /// The id that `name` stands for in the current scope, if a scope from
    /// the current one to the root declares the name.
    pub fn find_id(&self, name: &str) -> (id: Option<u32>)
        requires
            self@.wf(),
        ensures
            id == self@.id_of(name@),
    {
        match self.resolve(name) {
            Ok(symbol) => Some(symbol.id),
            Err(_) => None,
        }
    }

    /// The id that `name` stands for in the current scope: that of the
    /// symbol that [`SymbolTable::resolve`] finds.
    pub fn id_of(&self, name: &str) -> (id: u32)
        requires
            self@.wf(),
            self@.resolve(name@) is Some,
        ensures
            self@.resolve(name@) matches Some(symbol) && symbol.id == id,
    {
        self.find_id(name).unwrap()
    }

    /// Declares `name` in the current scope and gives it the next id.
    ///
    /// It fails if the scope declares the name already, and if no id is
    /// left. A declaration that fails leaves the table as it was, so the
    /// ids that were handed out stay without gaps.
    pub fn define(&mut self, name: &str, pos: usize, source_id: usize) -> (done: Result<
        (),
        String,
    >)
        requires
            old(self)@.wf(),
        ensures
            final(self)@.wf(),
            final(self)@ == old(self)@.define(name@, pos, source_id),
            done is Ok <==> old(self)@.can_define(name@),
            done is Err ==> final(self)@ == old(self)@,
            done matches Err(message) ==> message@ == if old(self)@.scopes[old(
                self,
            )@.current as int].position_of(name@) is Some {
                redeclared_message(name@)
            } else {
                exhausted_message()
            },
            done is Ok ==> final(self)@.scopes[old(self)@.current as int].symbols.last().id == old(
                self,
            )@.next_id,
            old(self)@.dense() ==> final(self)@.dense(),
    {
        proof {
            if old(self)@.dense() {
                lemma_ids_stay_dense(old(self)@, name@, pos, source_id);
            }
        }
        let key = name.to_owned();
        if self.scopes[self.current].position_of(&key).is_some() {
            let message = String::from_str("variable `").concat(name).concat(
                "` already declared in this scope",
            );
            Err(message)
        } else if self.next_id == u32::MAX {
            Err(String::from_str("too many variables"))
        } else {
            let next_id = self.next_id();
            let ghost before = self.scopes[self.current as int]@;
            let current = self.current;
            self.scopes[current].symbols.push(
                Symbol { name: key, position: pos, source_id: source_id, id: next_id },
            );
            proof {
                let symbol = SymbolView {
                    name: name@,
                    position: pos,
                    source_id: source_id,
                    id: next_id,
                };
                assert(self.scopes[current as int]@.symbols =~= before.symbols.push(symbol));
                assert(self@.scopes =~= old(self)@.scopes.update(
                    current as int,
                    ScopeView { symbols: before.symbols.push(symbol), ..before },
                ));
                assert forall|j: int, k: int|
                    0 <= j < k < self@.scopes[current as int].symbols.len() implies (
                #[trigger] self@.scopes[current as int].symbols[j]).name != (
                #[trigger] self@.scopes[current as int].symbols[k]).name by {
                    lemma_first_index(
                        before.is_named(name@),
                        0,
                        before.symbols.len() as int,
                    );
                    if k == before.symbols.len() {
                        assert(!before.is_named(name@)(j));
                    } else {
                        assert(before == old(self)@.scopes[current as int]);
                    }
                }
            }
            Ok(())
        }
    }
}

} // verus!

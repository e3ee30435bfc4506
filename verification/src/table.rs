//! Symbol tables and their entries.
use vstd::prelude::*;
use crate::types::Type;

verus! {

/// What a name stands for.
#[derive(Debug)]
pub enum Entry {
    ProcedureEntry(ProcedureEntry),
    VariableEntry(VariableEntry),
    TypeEntry(TypeEntry),
}

/// A procedure: its local symbol table and its formal parameters.
#[derive(Debug)]
pub struct ProcedureEntry {
    pub local_table: SymbolTable,
    pub parameters: Vec<Parameter>,
}

/// A variable or parameter.
#[derive(Debug)]
pub struct VariableEntry {
    pub typ: Type,
    pub is_reference: bool,
}

/// A named type.
#[derive(Debug)]
pub struct TypeEntry {
    pub typ: Type,
}

/// A formal parameter of a procedure.
#[derive(Debug)]
pub struct Parameter {
    pub name: String,
    pub typ: Type,
    pub is_reference: bool,
}

/// A symbol table: a sequence of named entries. A name entered later hides an earlier
/// entry of the same name; `enter` never lets that happen.
#[derive(Debug)]
pub struct SymbolTable {
    pub entries: Vec<(String, Entry)>,
}

/// The map from names to entries that a sequence of named entries stands for.
pub open spec fn entries_map(s: Seq<(String, Entry)>) -> Map<Seq<char>, Entry>
    decreases s.len(),
{
    if s.len() == 0 {
        Map::empty()
    } else {
        entries_map(s.drop_last()).insert(s.last().0@, s.last().1)
    }
}

impl View for SymbolTable {
    type V = Map<Seq<char>, Entry>;

    open spec fn view(&self) -> Map<Seq<char>, Entry> {
        entries_map(self.entries@)
    }
}

/// Looking a name up in a local table and, where it is missing there, in the enclosing
/// table.
pub open spec fn scoped_lookup(local: SymbolTable, upper: Option<SymbolTable>, name: Seq<char>) -> Option<Entry> {
    if local@.contains_key(name) {
        Some(local@[name])
    } else {
        match upper {
            Some(u) => if u@.contains_key(name) { Some(u@[name]) } else { None },
            None => None,
        }
    }
}

/// A name occurs in the map exactly when some entry carries it.
pub proof fn lemma_entries_map_contains(s: Seq<(String, Entry)>, name: Seq<char>)
    ensures
        entries_map(s).contains_key(name) <==> exists|i: int| 0 <= i < s.len() && #[trigger] s[i].0@ == name,
    decreases s.len(),
{
    if s.len() > 0 {
        let t = s.drop_last();
        lemma_entries_map_contains(t, name);
        if exists|i: int| 0 <= i < s.len() && #[trigger] s[i].0@ == name {
            let i = choose|i: int| 0 <= i < s.len() && #[trigger] s[i].0@ == name;
            if i < t.len() {
                assert(t[i].0@ == name);
            }
        }
        if exists|i: int| 0 <= i < t.len() && #[trigger] t[i].0@ == name {
            let i = choose|i: int| 0 <= i < t.len() && #[trigger] t[i].0@ == name;
            assert(s[i].0@ == name);
        }
    }
}

/// The entry a name maps to is the last entry that carries the name.
pub proof fn lemma_entries_map_value(s: Seq<(String, Entry)>, name: Seq<char>, j: int)
    requires
        0 <= j < s.len(),
        s[j].0@ == name,
        forall|k: int| j < k < s.len() ==> #[trigger] s[k].0@ != name,
    ensures
        entries_map(s).contains_key(name),
        entries_map(s)[name] == s[j].1,
    decreases s.len(),
{
    let t = s.drop_last();
    if j < s.len() - 1 {
        assert(s[s.len() - 1].0@ != name);
        assert forall|k: int| j < k < t.len() implies #[trigger] t[k].0@ != name by {
            assert(t[k] == s[k]);
        }
        lemma_entries_map_value(t, name, j);
    }
}

impl SymbolTable {
    /// An empty table.
    pub fn new() -> (r: SymbolTable)
        ensures
            r.entries@.len() == 0,
            r@ == Map::<Seq<char>, Entry>::empty(),
    {
        SymbolTable { entries: Vec::new() }
    }

    /// The position of the last entry named `name`.
    fn find(&self, name: &String) -> (r: Option<usize>)
        ensures
            match r {
                Some(j) => j < self.entries@.len() && self.entries@[j as int].0@ == name@
                    && self@.contains_key(name@) && self@[name@] == self.entries@[j as int].1,
                None => !self@.contains_key(name@),
            },
    {
        let mut j = self.entries.len();
        while j > 0
            invariant
                j <= self.entries@.len(),
                forall|k: int| j <= k < self.entries@.len() ==> self.entries@[k].0@ != name@,
            decreases j,
        {
            j = j - 1;
            if self.entries[j].0 == *name {
                proof {
                    lemma_entries_map_value(self.entries@, name@, j as int);
                }
                return Some(j);
            }
        }
        proof {
            lemma_entries_map_contains(self.entries@, name@);
        }
        None
    }

    /// Enters `entry` under `name`; fails where the name is already in the table.
    pub fn enter(&mut self, name: String, entry: Entry) -> (r: Result<(), SemanticErrorKind>)
        ensures
            r is Err <==> old(self)@.contains_key(name@),
            r is Err ==> *final(self) == *old(self) && r->Err_0 == SemanticErrorKind::AlreadyDefined,
            r is Ok ==> final(self)@ == old(self)@.insert(name@, entry),
            r is Ok ==> final(self).entries@ == old(self).entries@.push((name, entry)),
    {
        if self.find(&name).is_some() {
            return Err(SemanticErrorKind::AlreadyDefined);
        }
        self.entries.push((name, entry));
        proof {
            let s = final(self).entries@;
            assert(s.drop_last() =~= old(self).entries@);
        }
        Ok(())
    }

    /// Looks `name` up in this table and, where it is missing, in `upper`.
    pub fn lookup<'a>(&'a self, name: &String, upper: Option<&'a SymbolTable>) -> (r: Option<&'a Entry>)
        ensures
            match r {
                Some(e) => scoped_lookup(*self, deref_table(upper), name@) == Some(*e),
                None => scoped_lookup(*self, deref_table(upper), name@) is None,
            },
    {
        match self.find(name) {
            Some(j) => Some(&self.entries[j].1),
            None => match upper {
                Some(u) => match u.find(name) {
                    Some(j) => Some(&u.entries[j].1),
                    None => None,
                },
                None => None,
            },
        }
    }

    /// Looks `name` up in this table alone.
    pub fn lookup_local(&self, name: &String) -> (r: Option<&Entry>)
        ensures
            match r {
                Some(e) => self@.contains_key(name@) && self@[name@] == *e,
                None => !self@.contains_key(name@),
            },
    {
        match self.find(name) {
            Some(j) => Some(&self.entries[j].1),
            None => None,
        }
    }
}

/// The table an optional reference points to.
pub open spec fn deref_table(t: Option<&SymbolTable>) -> Option<SymbolTable> {
    match t {
        Some(t) => Some(*t),
        None => None,
    }
}

/// The kinds of semantic errors.
#[derive(Debug, Clone, Copy, PartialEq, Eq)]
pub enum SemanticErrorKind {
    AlreadyDefined,
    TypeNotFound,
    NotAType,
    IfConditionMustBeBoolean,
    WhileConditionMustBeBoolean,
    UndefinedIdentifier,
    CallOfNonProcedure,
    ArgumentCountMismatch,
    ArgumentTypeMismatch,
    ArgumentMustBeAVariable,
    IllegalAssignment,
    OperandTypeMismatch,
    NotAVariable,
    IndexingNonArray,
    IndexTypeMismatch,
    ProcedureNotInTable,
}

impl Parameter {
    /// A parameter with the given name, type and passing mode.
    pub fn new(name: String, typ: Type, is_reference: bool) -> (r: Parameter)
        ensures
            r == (Parameter { name, typ, is_reference }),
    {
        Parameter { name, typ, is_reference }
    }
}

impl Clone for Parameter {
    fn clone(&self) -> (r: Self)
        ensures
            r == *self,
    {
        Parameter { name: self.name.clone(), typ: self.typ.clone(), is_reference: self.is_reference }
    }
}

impl Clone for VariableEntry {
    fn clone(&self) -> (r: Self)
        ensures
            r == *self,
    {
        VariableEntry { typ: self.typ.clone(), is_reference: self.is_reference }
    }
}

impl Clone for TypeEntry {
    fn clone(&self) -> (r: Self)
        ensures
            r == *self,
    {
        TypeEntry { typ: self.typ.clone() }
    }
}

/// A copy of a parameter list.
pub fn clone_parameters(v: &Vec<Parameter>) -> (r: Vec<Parameter>)
    ensures
        r@ == v@,
{
    let r = v.clone();
    assert(r@ =~= v@);
    r
}


impl Clone for Entry {
    fn clone(&self) -> (r: Self)
        decreases self,
    {
        match self {
            Entry::ProcedureEntry(p) => Entry::ProcedureEntry(p.clone()),
            Entry::VariableEntry(v) => Entry::VariableEntry(v.clone()),
            Entry::TypeEntry(t) => Entry::TypeEntry(t.clone()),
        }
    }
}

impl Clone for ProcedureEntry {
    fn clone(&self) -> (r: Self)
        ensures
            r.parameters@ == self.parameters@,
        decreases self,
    {
        ProcedureEntry { local_table: self.local_table.clone(), parameters: clone_parameters(&self.parameters) }
    }
}

impl Clone for SymbolTable {
    fn clone(&self) -> (r: Self)
        decreases self,
    {
        let mut entries: Vec<(String, Entry)> = Vec::new();
        let mut i: usize = 0;
        while i < self.entries.len()
            invariant
                0 <= i <= self.entries@.len(),
            decreases self.entries@.len() - i,
        {
            proof {
                assert(decreases_to!(*self => self.entries));
                assert(decreases_to!(self.entries => self.entries@)) by {
                    broadcast use vstd::std_specs::vec::axiom_vec_decreases_to_view;
                }
                assert(decreases_to!(self.entries@ => self.entries@[i as int]));
                assert(decreases_to!(self.entries@[i as int] => self.entries@[i as int].1));
            }
            entries.push((self.entries[i].0.clone(), self.entries[i].1.clone()));
            i = i + 1;
        }
        SymbolTable { entries }
    }
}

} // verus!

//! Environments: the chain of frames in which the interpreters look names up.
use vstd::prelude::*;
use crate::builtins::{procedures, spec_builtin_procedures, builtin_params_match, is_builtin_param};
use crate::table::{Entry, SymbolTable, scoped_lookup};
use crate::types::{PrimitiveType, Type};
use crate::value::{BuiltInProc, BuiltinKind, RuntimeError, Store, Value, ValueFunction, get_cell, value_view, ValueView};

verus! {

/// The procedure `name` is bound to, where its cell holds one.
pub open spec fn bound_function(frames: Seq<Frame>, store: Store, name: Seq<char>) -> Option<ValueFunction> {
    match env_get(frames, name) {
        Some(c) => if c < store.cells@.len() {
            match store.cells@[c as int] {
                Value::Function(f) => if f < store.functions@.len() {
                    Some(store.functions@[f as int])
                } else {
                    None
                },
                _ => None,
            }
        } else {
            None
        },
        None => None,
    }
}

/// The variables of one procedure activation (or of the global scope), with the symbol
/// table of its names.
pub struct Frame {
    pub vars: Vec<(String, usize)>,
    pub symbol_table: SymbolTable,
}

/// A chain of frames: the global frame first, the innermost last. A name is looked up
/// from the innermost frame outwards.
pub struct Environment {
    pub frames: Vec<Frame>,
}

/// The cell a frame binds `key` to; a later binding hides an earlier one.
pub open spec fn frame_get(vars: Seq<(String, usize)>, key: Seq<char>) -> Option<usize>
    decreases vars.len(),
{
    if vars.len() == 0 {
        None
    } else if vars.last().0@ == key {
        Some(vars.last().1)
    } else {
        frame_get(vars.drop_last(), key)
    }
}

/// One of the implemented predefined procedures is named `name`.
pub open spec fn builtin_name(name: Seq<char>) -> bool {
    exists|k: int| 0 <= k < 3 && name == spec_builtin_procedures()[implemented_index(k)].0
}

/// No implemented predefined procedure is named `main`.
pub proof fn lemma_main_not_builtin()
    ensures
        !builtin_name(seq!['m', 'a', 'i', 'n']),
{
    let m = seq!['m', 'a', 'i', 'n'];
    assert(spec_builtin_procedures()[implemented_index(0)].0.len() != m.len());
    assert(spec_builtin_procedures()[implemented_index(1)].0.len() != m.len());
    assert(spec_builtin_procedures()[implemented_index(2)].0[0] != m[0]);
}

/// The global environment binds `key` only where it names an implemented predefined
/// procedure or one of `names`.
pub proof fn lemma_global_binds(frames: Seq<Frame>, key: Seq<char>, names: spec_fn(Seq<char>) -> bool, cells: Seq<Value>, functions: Seq<ValueFunction>, n0: int, f0: int)
    requires
        frames.len() == 1,
        frames[0].vars@.len() >= 3,
        forall|k: int| 0 <= k < 3 ==> builtin_binding(#[trigger] frames[0].vars@[k], cells, functions, n0, f0, k),
        forall|k: int| 3 <= k < frames[0].vars@.len() ==> names(#[trigger] frames[0].vars@[k].0@),
        env_get(frames, key) is Some,
    ensures
        builtin_name(key) || names(key),
{
    let vars = frames[0].vars@;
    assert(frames.drop_last() =~= Seq::<Frame>::empty());
    assert(env_get(frames.drop_last(), key) is None);
    assert(frames.last() == frames[0]);
    assert(frame_get(vars, key) is Some);
    lemma_frame_get_listed(vars, key);
    let k = choose|k: int| 0 <= k < vars.len() && (#[trigger] vars[k]).0@ == key;
    if k < 3 {
        assert(builtin_binding(vars[k], cells, functions, n0, f0, k));
    }
}

/// A frame binds only names it lists.
pub proof fn lemma_frame_get_listed(vars: Seq<(String, usize)>, key: Seq<char>)
    ensures
        frame_get(vars, key) is Some ==> exists|k: int| 0 <= k < vars.len() && (#[trigger] vars[k]).0@ == key,
    decreases vars.len(),
{
    if vars.len() > 0 && vars.last().0@ != key {
        lemma_frame_get_listed(vars.drop_last(), key);
        if frame_get(vars.drop_last(), key) is Some {
            let k = choose|k: int| 0 <= k < vars.drop_last().len() && (#[trigger] vars.drop_last()[k]).0@ == key;
            assert(vars[k] == vars.drop_last()[k]);
        }
    } else if vars.len() > 0 {
        assert(vars[vars.len() - 1].0@ == key);
    }
}

/// The cell the innermost frame that binds `key` binds it to.
pub open spec fn env_get(frames: Seq<Frame>, key: Seq<char>) -> Option<usize>
    decreases frames.len(),
{
    if frames.len() == 0 {
        None
    } else {
        match frame_get(frames.last().vars@, key) {
            Some(c) => Some(c),
            None => env_get(frames.drop_last(), key),
        }
    }
}

/// Where `key` is unbound, the entry the innermost frame's table (and then the global
/// frame's) gives it.
pub open spec fn table_entry(frames: Seq<Frame>, key: Seq<char>) -> Option<Entry> {
    if frames.len() == 0 {
        None
    } else {
        scoped_lookup(frames.last().symbol_table, Some(frames[0].symbol_table), key)
    }
}

fn find_in_frame(vars: &Vec<(String, usize)>, key: &String) -> (r: Option<usize>)
    ensures
        r == frame_get(vars@, key@),
{
    let mut k = vars.len();
    proof {
        assert(vars@.take(vars@.len() as int) =~= vars@);
    }
    while k > 0
        invariant
            k <= vars@.len(),
            frame_get(vars@, key@) == frame_get(vars@.take(k as int), key@),
        decreases k,
    {
        proof {
            assert(vars@.take(k as int).drop_last() =~= vars@.take(k - 1));
        }
        if vars[k - 1].0 == *key {
            return Some(vars[k - 1].1);
        }
        k = k - 1;
    }
    None
}

/// `v` is a default value of `t` with its cells in `cells`: `0`, `false`, or an array of
/// `t`'s size whose cells rise strictly and each hold a default value of the element type.
pub open spec fn is_default(v: Value, t: Type, cells: Seq<Value>) -> bool
    decreases t,
{
    match t {
        Type::PrimitiveType(PrimitiveType::Int) => v == Value::Int(0),
        Type::PrimitiveType(PrimitiveType::Bool) => v == Value::Bool(false),
        Type::ArrayType(a) => v matches Value::Array(ids) && ids@.len() == a.size
            && (forall|i: int, j: int| 0 <= i < j < ids@.len() ==> ids@[i] < ids@[j])
            && forall|i: int| 0 <= i < ids@.len() ==> #[trigger] ids@[i] < cells.len()
                && is_default(cells[ids@[i] as int], *a.base_type, cells),
    }
}

proof fn lemma_default_kept(v: Value, t: Type, c0: Seq<Value>, c1: Seq<Value>)
    requires
        is_default(v, t, c0),
        c0.len() <= c1.len(),
        forall|i: int| 0 <= i < c0.len() ==> #[trigger] c1[i] == c0[i],
    ensures
        is_default(v, t, c1),
    decreases t,
{
    match t {
        Type::ArrayType(a) => {
            let ids = v->Array_0@;
            assert forall|i: int| 0 <= i < ids.len() implies #[trigger] ids[i] < c1.len()
                && is_default(c1[ids[i] as int], *a.base_type, c1) by {
                assert(c1[ids[i] as int] == c0[ids[i] as int]);
                lemma_default_kept(c0[ids[i] as int], *a.base_type, c0, c1);
            }
        },
        _ => {},
    }
}

impl Type {
    /// A fresh default value of the type: `0`, `false`, or an array of fresh cells that
    /// hold default values of the element type.
    pub fn default_value(&self, store: &mut Store) -> (r: Value)
        ensures
            final(store).cells@.len() >= old(store).cells@.len(),
            forall|i: int| 0 <= i < old(store).cells@.len() ==> #[trigger] final(store).cells@[i] == old(store).cells@[i],
            final(store).functions == old(store).functions,
            final(store).output == old(store).output,
            is_default(r, *self, final(store).cells@),
            match *self {
                Type::ArrayType(a) => r matches Value::Array(v)
                    && forall|i: int| 0 <= i < v@.len() ==> old(store).cells@.len() <= #[trigger] v@[i] < final(store).cells@.len(),
                _ => true,
            },
        decreases self,
    {
        match self {
            Type::ArrayType(a) => {
                let mut arr: Vec<usize> = Vec::new();
                let mut i: usize = 0;
                let ghost n0 = store.cells@.len();
                while i < a.size
                    invariant
                        *self == Type::ArrayType(*a),
                        0 <= i <= a.size,
                        arr@.len() == i,
                        store.cells@.len() >= n0,
                        n0 == old(store).cells@.len(),
                        forall|k: int| 0 <= k < n0 ==> #[trigger] store.cells@[k] == old(store).cells@[k],
                        store.functions == old(store).functions,
                        store.output == old(store).output,
                        forall|k: int| 0 <= k < arr@.len() ==> n0 <= #[trigger] arr@[k] < store.cells@.len(),
                        forall|k: int, j: int| 0 <= k < j < arr@.len() ==> arr@[k] < arr@[j],
                        forall|k: int| 0 <= k < arr@.len() ==> is_default(store.cells@[#[trigger] arr@[k] as int], *a.base_type, store.cells@),
                    decreases a.size - i,
                {
                    proof {
                        assert(decreases_to!(*self => (*self)->ArrayType_0));
                        assert(decreases_to!((*self)->ArrayType_0 => (*self)->ArrayType_0.base_type));
                    }
                    let ghost s0 = *store;
                    let v = a.base_type.default_value(store);
                    let ghost s1 = *store;
                    let c = Value::new_refcell(store, v);
                    let ghost a0 = arr@;
                    arr.push(c);
                    proof {
                        assert forall|k: int| 0 <= k < arr@.len() implies is_default(store.cells@[#[trigger] arr@[k] as int], *a.base_type, store.cells@) by {
                            if k < a0.len() {
                                assert(arr@[k] == a0[k]);
                                assert(store.cells@[arr@[k] as int] == s0.cells@[arr@[k] as int]);
                                lemma_default_kept(s0.cells@[arr@[k] as int], *a.base_type, s0.cells@, store.cells@);
                            } else {
                                assert(store.cells@[c as int] == v);
                                lemma_default_kept(v, *a.base_type, s1.cells@, store.cells@);
                            }
                        }
                    }
                    i = i + 1;
                }
                Value::Array(arr)
            },
            Type::PrimitiveType(PrimitiveType::Int) => Value::Int(0),
            Type::PrimitiveType(PrimitiveType::Bool) => Value::Bool(false),
        }
    }
}

/// The cells of nested arrays, flattened: for each cell of `ids` in order, the flattened
/// cells of the array it holds (down to `depth` levels), or the cell itself where it
/// holds no array. Nothing where a cell is missing or the arrays nest deeper.
pub open spec fn flat_cells(cells: Seq<Value>, ids: Seq<usize>, depth: nat) -> Option<Seq<usize>>
    decreases depth, ids.len(),
{
    if ids.len() == 0 {
        Some(Seq::empty())
    } else {
        match flat_cells(cells, ids.drop_last(), depth) {
            Some(pre) => {
                let id = ids.last();
                if id >= cells.len() {
                    None
                } else {
                    match cells[id as int] {
                        Value::Array(a) => if depth == 0 {
                            None
                        } else {
                            match flat_cells(cells, a@, (depth - 1) as nat) {
                                Some(inner) => Some(pre + inner),
                                None => None,
                            }
                        },
                        _ => Some(pre.push(id)),
                    }
                }
            },
            None => None,
        }
    }
}

impl Value {
    /// The value with nested arrays flattened: an array whose elements are arrays becomes
    /// the array of their elements, down to `depth` levels; anything else stays.
    pub fn flatten_value(&self, store: &Store, depth: usize) -> (r: Result<Value, RuntimeError>)
        ensures
            match *self {
                Value::Array(ids) => match flat_cells(store.cells@, ids@, depth as nat) {
                    Some(f) => r matches Ok(Value::Array(v)) && v@ == f,
                    None => r matches Err(e) && e is TypeMismatch,
                },
                _ => r matches Ok(v) && value_view(v) == value_view(*self),
            },
        decreases depth,
    {
        match self {
            Value::Array(cells) => {
                let mut arr: Vec<usize> = Vec::new();
                let mut i: usize = 0;
                let ghost ids = cells@;
                proof {
                    assert(ids.take(0) =~= Seq::<usize>::empty());
                }
                while i < cells.len()
                    invariant
                        ids == cells@,
                        *self is Array && self->Array_0@ == ids,
                        0 <= i <= cells@.len(),
                        flat_cells(store.cells@, ids.take(i as int), depth as nat) == Some(arr@),
                    decreases cells@.len() - i,
                {
                    proof {
                        assert(ids.take(i + 1).drop_last() =~= ids.take(i as int));
                        assert(ids.take(i + 1).last() == ids[i as int]);
                    }
                    let v = match get_cell(store, cells[i]) {
                        Ok(v) => v,
                        Err(e) => {
                            proof {
                                assert(ids.take(i + 1).last() >= store.cells@.len());
                                assert(flat_cells(store.cells@, ids.take(i + 1), depth as nat) is None);
                                lemma_flat_stuck(store.cells@, ids, depth as nat, i + 1, ids.len() as int);
                                assert(ids.take(ids.len() as int) =~= ids);
                            }
                            return Err(e);
                        },
                    };
                    match v {
                        Value::Array(_) => {
                            if depth == 0 {
                                proof {
                                    lemma_flat_stuck(store.cells@, ids, depth as nat, i + 1, ids.len() as int);
                                    assert(ids.take(ids.len() as int) =~= ids);
                                }
                                return Err(RuntimeError::TypeMismatch);
                            }
                            match v.flatten_value(store, depth - 1) {
                                Ok(Value::Array(a)) => {
                                    let mut j: usize = 0;
                                    let ghost pre = arr@;
                                    proof {
                                        assert(a@.take(0) =~= Seq::<usize>::empty());
                                        assert(pre + a@.take(0) =~= pre);
                                    }
                                    while j < a.len()
                                        invariant
                                            0 <= j <= a@.len(),
                                            arr@ == pre + a@.take(j as int),
                                        decreases a@.len() - j,
                                    {
                                        arr.push(a[j]);
                                        proof {
                                            assert(pre + a@.take(j + 1) =~= (pre + a@.take(j as int)).push(a@[j as int]));
                                        }
                                        j = j + 1;
                                    }
                                    proof {
                                        assert(a@.take(a@.len() as int) =~= a@);
                                    }
                                },
                                Ok(_) => {
                                    arr.push(cells[i]);
                                },
                                Err(e) => {
                                    proof {
                                        lemma_flat_stuck(store.cells@, ids, depth as nat, i + 1, ids.len() as int);
                                        assert(ids.take(ids.len() as int) =~= ids);
                                    }
                                    return Err(e);
                                },
                            }
                        },
                        _ => {
                            arr.push(cells[i]);
                        },
                    }
                    i = i + 1;
                }
                proof {
                    assert(ids.take(ids.len() as int) =~= ids);
                }
                Ok(Value::Array(arr))
            },
            _ => Ok(self.clone()),
        }
    }
}

proof fn lemma_flat_stuck(cells: Seq<Value>, ids: Seq<usize>, depth: nat, j: int, m: int)
    requires
        0 <= j <= m <= ids.len(),
        flat_cells(cells, ids.take(j), depth) is None,
    ensures
        flat_cells(cells, ids.take(m), depth) is None,
    decreases m - j,
{
    if m > j {
        lemma_flat_stuck(cells, ids, depth, j, m - 1);
        assert(ids.take(m).drop_last() =~= ids.take(m - 1));
    }
}

impl Environment {
    /// A new innermost frame with the given bindings and table, in front of `parent`.
    pub fn new(parent: Environment, vars: Vec<(String, usize)>, symbol_table: SymbolTable) -> (r: Environment)
        ensures
            r.frames@.len() == parent.frames@.len() + 1,
            r.frames@.drop_last() == parent.frames@,
            r.frames@.last().vars == vars,
            r.frames@.last().symbol_table == symbol_table,
    {
        let mut frames = parent.frames;
        frames.push(Frame { vars, symbol_table });
        Environment { frames }
    }

    /// The global environment: the built-in procedures, then the given procedures, with the
    /// global table.
    pub fn new_global(store: &mut Store, procedures: Vec<(String, usize)>, symbol_table: SymbolTable) -> (r: Environment)
        ensures
            r.frames@.len() == 1,
            r.frames@[0].symbol_table == symbol_table,
            r.frames@[0].vars@.len() == 3 + procedures@.len(),
            r.frames@[0].vars@.skip(3) == procedures@,
            forall|k: int| 0 <= k < 3 ==> builtin_binding(#[trigger] r.frames@[0].vars@[k], final(store).cells@,
                final(store).functions@, old(store).cells@.len() as int, old(store).functions@.len() as int, k),
            final(store).functions@.len() == old(store).functions@.len() + 3,
            forall|i: int| 0 <= i < old(store).functions@.len() ==> #[trigger] final(store).functions@[i] == old(store).functions@[i],
            final(store).cells@.len() == old(store).cells@.len() + 3,
            forall|i: int| 0 <= i < old(store).cells@.len() ==> #[trigger] final(store).cells@[i] == old(store).cells@[i],
            final(store).output == old(store).output,
    {
        let mut vars = get_builtins(store);
        let ghost b = vars@;
        let mut p = procedures;
        vars.append(&mut p);
        proof {
            assert(vars@.skip(3) =~= procedures@);
            assert forall|k: int| 0 <= k < 3 implies vars@[k] == b[k] by {}
        }
        let mut frames: Vec<Frame> = Vec::new();
        frames.push(Frame { vars, symbol_table });
        Environment { frames }
    }

    /// The cell the innermost frame that binds `key` binds it to.
    pub fn lookup(&self, key: &String) -> (r: Option<usize>)
        ensures
            r == env_get(self.frames@, key@),
    {
        let mut f = self.frames.len();
        let ghost fr = self.frames@;
        proof {
            assert(fr.take(fr.len() as int) =~= fr);
        }
        while f > 0
            invariant
                f <= fr.len(),
                fr == self.frames@,
                env_get(fr, key@) == env_get(fr.take(f as int), key@),
            decreases f,
        {
            proof {
                assert(fr.take(f as int).drop_last() =~= fr.take(f - 1));
                assert(fr.take(f as int).last() == fr[f - 1]);
            }
            match find_in_frame(&self.frames[f - 1].vars, key) {
                Some(c) => {
                    return Some(c);
                },
                None => {},
            }
            f = f - 1;
        }
        None
    }

    /// Looks `key` up from the innermost frame outwards. Where no frame binds it but the
    /// tables declare it a variable, a cell with its default value is created and bound in
    /// the innermost frame.
    pub fn get(&mut self, store: &mut Store, key: &String) -> (r: Option<usize>)
        ensures
            env_get(old(self).frames@, key@) is Some ==> r == env_get(old(self).frames@, key@)
                && final(self).frames == old(self).frames && final(store).cells == old(store).cells,
            env_get(old(self).frames@, key@) is None ==> match table_entry(old(self).frames@, key@) {
                Some(Entry::VariableEntry(ve)) => r is Some && r->0 < final(store).cells@.len()
                    && final(self).frames@.len() == old(self).frames@.len()
                    && final(self).frames@.drop_last() == old(self).frames@.drop_last()
                    && final(self).frames@.last().vars@ == old(self).frames@.last().vars@.push((*key, r->0))
                    && is_default(final(store).cells@[r->0 as int], ve.typ, final(store).cells@)
                    && env_get(final(self).frames@, key@) == Some(r->0),
                _ => r is None && final(self).frames == old(self).frames && final(store).cells == old(store).cells,
            },
            final(store).cells@.len() >= old(store).cells@.len(),
            forall|i: int| 0 <= i < old(store).cells@.len() ==> #[trigger] final(store).cells@[i] == old(store).cells@[i],
            final(store).functions == old(store).functions,
            final(store).output == old(store).output,
            final(self).frames@.len() == old(self).frames@.len(),
            final(self).frames@.drop_last() == old(self).frames@.drop_last(),
    {
        let mut f = self.frames.len();
        let ghost fr = self.frames@;
        proof {
            assert(fr.take(fr.len() as int) =~= fr);
        }
        while f > 0
            invariant
                f <= fr.len(),
                fr == self.frames@,
                env_get(fr, key@) == env_get(fr.take(f as int), key@),
            decreases f,
        {
            proof {
                assert(fr.take(f as int).drop_last() =~= fr.take(f - 1));
                assert(fr.take(f as int).last() == fr[f - 1]);
            }
            match find_in_frame(&self.frames[f - 1].vars, key) {
                Some(c) => {
                    return Some(c);
                },
                None => {},
            }
            f = f - 1;
        }
        proof {
            assert(fr.take(0) =~= Seq::<Frame>::empty());
        }
        if self.frames.len() == 0 {
            return None;
        }
        let top = self.frames.len() - 1;
        let entry_typ = match self.frames[top].symbol_table.lookup(key, Some(&self.frames[0].symbol_table)) {
            Some(Entry::VariableEntry(ve)) => Some(ve.typ.clone()),
            _ => None,
        };
        match entry_typ {
            Some(typ) => {
                let v = typ.default_value(store);
                let ghost s1 = *store;
                let ghost gv = v;
                let c = Value::new_refcell(store, v);
                proof {
                    lemma_default_kept(gv, typ, s1.cells@, store.cells@);
                }
                let mut frame = Frame { vars: Vec::new(), symbol_table: SymbolTable::new() };
                std::mem::swap(&mut frame, &mut self.frames[top]);
                frame.vars.push((key.clone(), c));
                self.frames.set(top, frame);
                proof {
                    assert(self.frames@.drop_last() =~= fr.drop_last());
                }
                Some(c)
            },
            None => None,
        }
    }

    /// Looks `key` up like `get`, and says whether the tables declare it a reference
    /// parameter.
    pub fn get_mut(&mut self, store: &mut Store, key: &String) -> (r: Option<(usize, bool)>)
        ensures
            env_get(old(self).frames@, key@) is Some ==> r is Some && (r->0).0 == env_get(old(self).frames@, key@)->0
                && final(self).frames == old(self).frames && final(store).cells == old(store).cells,
            final(store).cells@.len() >= old(store).cells@.len(),
            forall|i: int| 0 <= i < old(store).cells@.len() ==> #[trigger] final(store).cells@[i] == old(store).cells@[i],
            final(store).functions == old(store).functions,
            final(store).output == old(store).output,
            final(self).frames@.len() == old(self).frames@.len(),
            final(self).frames@.drop_last() == old(self).frames@.drop_last(),
            r is Some ==> (r->0).1 == (table_entry(final(self).frames@, key@) matches Some(Entry::VariableEntry(ve)) && ve.is_reference),
            env_get(old(self).frames@, key@) is None ==> match table_entry(old(self).frames@, key@) {
                Some(Entry::VariableEntry(_)) => r is Some && (r->0).0 < final(store).cells@.len()
                    && final(self).frames@.last().vars@ == old(self).frames@.last().vars@.push((*key, (r->0).0)),
                _ => r is None && final(self).frames == old(self).frames && final(store).cells == old(store).cells,
            },
    {
        match self.get(store, key) {
            Some(v) => {
                if self.frames.len() == 0 {
                    return Some((v, false));
                }
                let top = self.frames.len() - 1;
                let is_ref = match self.frames[top].symbol_table.lookup(key, Some(&self.frames[0].symbol_table)) {
                    Some(Entry::VariableEntry(ve)) => ve.is_reference,
                    _ => false,
                };
                Some((v, is_ref))
            },
            None => None,
        }
    }
}

/// The position among the predefined procedures of the `k`-th implemented one.
pub open spec fn implemented_index(k: int) -> int {
    if k == 0 { 0 } else if k == 1 { 1 } else { 5 }
}

/// What the `k`-th implemented predefined procedure does.
pub open spec fn implemented_kind(k: int) -> BuiltinKind {
    if k == 0 { BuiltinKind::PrintInt } else if k == 1 { BuiltinKind::PrintChar } else { BuiltinKind::Time }
}

/// The `k`-th binding of the implemented predefined procedures: its name, and a cell at
/// `n0 + k` that holds the procedure value `f0 + k`, a built-in of the right kind.
pub open spec fn builtin_binding(b: (String, usize), cells: Seq<Value>, functions: Seq<ValueFunction>, n0: int, f0: int, k: int) -> bool {
    &&& b.0@ == spec_builtin_procedures()[implemented_index(k)].0
    &&& b.1 == n0 + k
    &&& cells[n0 + k] == Value::Function((f0 + k) as usize)
    &&& functions[f0 + k] matches ValueFunction::BuiltIn(e, p) && p.kind == implemented_kind(k)
        && builtin_params_match(e.parameters@, spec_builtin_procedures()[implemented_index(k)].1)
        && e.local_table.entries@.len() == 0
}

/// The implemented predefined procedures, `printi`, `printc` and `time`, each bound to a
/// fresh cell that holds a new procedure value for it.
pub fn get_builtins(store: &mut Store) -> (r: Vec<(String, usize)>)
    ensures
        r@.len() == 3,
        final(store).cells@.len() == old(store).cells@.len() + 3,
        forall|i: int| 0 <= i < old(store).cells@.len() ==> #[trigger] final(store).cells@[i] == old(store).cells@[i],
        final(store).output == old(store).output,
        final(store).functions@.len() == old(store).functions@.len() + 3,
        forall|i: int| 0 <= i < old(store).functions@.len() ==> #[trigger] final(store).functions@[i] == old(store).functions@[i],
        forall|k: int| 0 <= k < 3 ==> builtin_binding(#[trigger] r@[k], final(store).cells@, final(store).functions@,
            old(store).cells@.len() as int, old(store).functions@.len() as int, k),
{
    let procs = procedures();
    let mut out: Vec<(String, usize)> = Vec::new();
    let mut i: usize = 0;
    let ghost n0 = store.cells@.len();
    let ghost f0 = store.functions@.len();
    let mut count: usize = 0;
    while i < procs.len()
        invariant
            0 <= i <= procs@.len(),
            procs@.len() == 10,
            forall|j: int| 0 <= j < procs@.len() ==> (#[trigger] procs@[j]).name@ == spec_builtin_procedures()[j].0,
            forall|j: int| 0 <= j < procs@.len() ==> builtin_params_match((#[trigger] procs@[j]).parameters@, spec_builtin_procedures()[j].1),
            out@.len() == count,
            count <= 3,
            store.cells@.len() == n0 + count,
            n0 == old(store).cells@.len(),
            f0 == old(store).functions@.len(),
            store.functions@.len() == f0 + count,
            forall|k: int| 0 <= k < n0 ==> #[trigger] store.cells@[k] == old(store).cells@[k],
            forall|k: int| 0 <= k < f0 ==> #[trigger] store.functions@[k] == old(store).functions@[k],
            store.output == old(store).output,
            count == (if i > 0 { 1int } else { 0int }) + (if i > 1 { 1int } else { 0int }) + (if i > 5 { 1int } else { 0int }),
            forall|k: int| 0 <= k < count ==> builtin_binding(#[trigger] out@[k], store.cells@, store.functions@, n0 as int, f0 as int, k),
        decreases procs@.len() - i,
    {
        if i == 0 || i == 1 || i == 5 {
            let kind = if i == 0 {
                BuiltinKind::PrintInt
            } else if i == 1 {
                BuiltinKind::PrintChar
            } else {
                BuiltinKind::Time
            };
            let mut params: Vec<(String, bool)> = Vec::new();
            let mut j: usize = 0;
            while j < procs[i].parameters.len()
                invariant
                    0 <= i < procs@.len(),
                    0 <= j <= procs@[i as int].parameters@.len(),
                    params@.len() == j,
                    forall|m: int| 0 <= m < j ==> (#[trigger] params@[m]).0@ == procs@[i as int].parameters@[m].name@
                        && params@[m].1 == procs@[i as int].parameters@[m].is_reference,
                decreases procs@[i as int].parameters@.len() - j,
            {
                params.push((procs[i].parameters[j].name.clone(), procs[i].parameters[j].is_reference));
                j = j + 1;
            }
            let ghost sf = *store;
            let f = Value::new_builtin_proc(store, &params, BuiltInProc { kind });
            let ghost sc = *store;
            let c = Value::new_refcell(store, f);
            let ghost ob = out@;
            out.push((procs[i].name.clone(), c));
            proof {
                assert(implemented_index(count as int) == i);
                assert(implemented_kind(count as int) == kind);
                assert forall|k: int| 0 <= k < count + 1 implies builtin_binding(#[trigger] out@[k], store.cells@, store.functions@, n0 as int, f0 as int, k) by {
                    if k < count {
                        assert(out@[k] == ob[k]);
                        assert(builtin_binding(ob[k], sf.cells@, sf.functions@, n0 as int, f0 as int, k));
                        assert(store.cells@[n0 + k] == sf.cells@[n0 + k]);
                        assert(store.functions@[f0 + k] == sf.functions@[f0 + k]);
                    } else {
                        assert(builtin_params_match(procs@[i as int].parameters@, spec_builtin_procedures()[i as int].1));
                        let e = sc.functions@.last()->BuiltIn_0;
                        assert forall|m: int| 0 <= m < e.parameters@.len() implies is_builtin_param(#[trigger] e.parameters@[m],
                            spec_builtin_procedures()[i as int].1[m]) by {
                            assert(is_builtin_param(procs@[i as int].parameters@[m], spec_builtin_procedures()[i as int].1[m]));
                        }
                        assert(out@[k].0@ == procs@[i as int].name@);
                        assert(store.cells@[n0 + k] == f);
                        assert(store.functions@[f0 + k] == sc.functions@.last());
                    }
                }
            }
            count = count + 1;
        }
        i = i + 1;
    }
    out
}

} // verus!

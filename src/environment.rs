//! Scopes held in an arena and named by index, so that closures can share an
//! enclosing scope and see each other's assignments to it.
use vstd::prelude::*;
use crate::ast::Value;
use vstd::string::StringExecFns;

verus! {

/// One scope: its bindings in order of declaration, and its enclosing scope.
pub struct Scope {
    pub entries: Vec<(String, Value)>,
    pub parent: Option<usize>,
}

/// The value bound to `name` among `entries`: the latest binding wins.
pub open spec fn bound(entries: Seq<(String, Value)>, name: Seq<char>) -> Option<Value>
    decreases entries.len(),
{
    if entries.len() == 0 {
        None
    } else if entries.last().0@ == name {
        Some(entries.last().1)
    } else {
        bound(entries.drop_last(), name)
    }
}

/// The scope that binds `name` for code running in scope `id`: `id` itself or
/// the nearest enclosing scope that declares it.
pub open spec fn owner(scopes: Seq<Scope>, id: int, name: Seq<char>) -> Option<int>
    decreases id,
{
    if id < 0 || id >= scopes.len() {
        None
    } else if bound(scopes[id].entries@, name) is Some {
        Some(id)
    } else {
        match scopes[id].parent {
            Some(p) => if p < id {
                owner(scopes, p as int, name)
            } else {
                None
            },
            None => None,
        }
    }
}

/// The value that `name` has for code running in scope `id`.
pub open spec fn lookup(scopes: Seq<Scope>, id: int, name: Seq<char>) -> Option<Value> {
    match owner(scopes, id, name) {
        Some(o) => bound(scopes[o].entries@, name),
        None => None,
    }
}

/// The bindings of scope `id` are `entries` now; all else is as before.
pub open spec fn rebound(old_scopes: Seq<Scope>, new_scopes: Seq<Scope>, id: int) -> bool {
    &&& new_scopes.len() == old_scopes.len()
    &&& new_scopes[id].parent == old_scopes[id].parent
    &&& forall|j: int| 0 <= j < old_scopes.len() && j != id ==> #[trigger] new_scopes[j] == old_scopes[j]
}

/// Every enclosing scope comes earlier in the arena.
pub open spec fn scopes_wf(scopes: Seq<Scope>) -> bool {
    forall|i: int|
        0 <= i < scopes.len() ==> match #[trigger] scopes[i].parent {
            Some(p) => p < i,
            None => true,
        }
}

proof fn lemma_owner_binds(scopes: Seq<Scope>, id: int, name: Seq<char>)
    ensures
        owner(scopes, id, name) matches Some(o) ==> 0 <= o <= id && o < scopes.len() && bound(
            scopes[o].entries@,
            name,
        ) is Some,
    decreases id,
{
    if 0 <= id < scopes.len() && bound(scopes[id].entries@, name) is None {
        if let Some(p) = scopes[id].parent {
            if p < id {
                lemma_owner_binds(scopes, p as int, name);
            }
        }
    }
}

proof fn lemma_bound_push(entries: Seq<(String, Value)>, name: String, v: Value, k: Seq<char>)
    ensures
        bound(entries.push((name, v)), k) == if k == name@ {
            Some(v)
        } else {
            bound(entries, k)
        },
{
    assert(entries.push((name, v)).drop_last() =~= entries);
}

proof fn lemma_bound_update(entries: Seq<(String, Value)>, i: int, name: String, v: Value, k: Seq<char>)
    requires
        0 <= i < entries.len(),
        entries[i].0@ == name@,
        forall|j: int| i < j < entries.len() ==> #[trigger] entries[j].0@ != name@,
    ensures
        bound(entries.update(i, (name, v)), k) == if k == name@ {
            Some(v)
        } else {
            bound(entries, k)
        },
    decreases entries.len(),
{
    let u = entries.update(i, (name, v));
    if i == entries.len() - 1 {
        assert(u.drop_last() =~= entries.drop_last());
    } else {
        assert(u.drop_last() =~= entries.drop_last().update(i, (name, v)));
        lemma_bound_update(entries.drop_last(), i, name, v, k);
    }
}

/// Scope `o` now binds `name` to `v`, its other bindings and all other scopes as
/// before: what a successful assignment leaves.
pub open spec fn assigned(before: Seq<Scope>, after: Seq<Scope>, o: int, name: Seq<char>, v: Value) -> bool {
    &&& rebound(before, after, o)
    &&& forall|k: Seq<char>|
        bound(#[trigger] after[o].entries@, k) == if k == name {
            Some(v)
        } else {
            bound(before[o].entries@, k)
        }
}

proof fn lemma_owner_kept(before: Seq<Scope>, after: Seq<Scope>, o: int, name: Seq<char>, v: Value, id: int)
    requires
        0 <= o < before.len(),
        bound(before[o].entries@, name) is Some,
        assigned(before, after, o, name, v),
    ensures
        owner(after, id, name) == owner(before, id, name),
    decreases id,
{
    if 0 <= id < before.len() {
        if id == o {
            assert(bound(after[o].entries@, name) == Some(v));
        } else {
            assert(after[id] == before[id]);
        }
        if let Some(p) = before[id].parent {
            if p < id {
                lemma_owner_kept(before, after, o, name, v, p as int);
            }
        }
    }
}

/// Scopes are shared, not copied: after `name` is assigned `v` from scope `from`,
/// code running in any scope `other` that resolves `name` to the same binding (a
/// closure that captured an enclosing scope) reads `v`; every other name reads as
/// before from everywhere.
pub proof fn lemma_shared_scope_sees_assignment(
    before: Seq<Scope>,
    after: Seq<Scope>,
    from: int,
    other: int,
    name: Seq<char>,
    v: Value,
)
    requires
        owner(before, from, name) is Some,
        owner(before, other, name) == owner(before, from, name),
        assigned(before, after, owner(before, from, name)->0, name, v),
    ensures
        lookup(after, other, name) == Some(v),
        forall|id: int, k: Seq<char>| k != name ==> #[trigger] lookup(after, id, k) == lookup(before, id, k),
{
    let o = owner(before, from, name)->0;
    lemma_owner_binds(before, from, name);
    lemma_owner_kept(before, after, o, name, v, other);
    assert forall|id: int, k: Seq<char>| k != name implies #[trigger] lookup(after, id, k) == lookup(before, id, k) by {
        lemma_lookup_other_name(before, after, o, name, v, id, k);
    }
}

proof fn lemma_lookup_other_name(
    before: Seq<Scope>,
    after: Seq<Scope>,
    o: int,
    name: Seq<char>,
    v: Value,
    id: int,
    k: Seq<char>,
)
    requires
        0 <= o < before.len(),
        assigned(before, after, o, name, v),
        k != name,
    ensures
        owner(after, id, k) == owner(before, id, k),
        lookup(after, id, k) == lookup(before, id, k),
    decreases id,
{
    if 0 <= id < before.len() {
        if id == o {
            assert(bound(after[o].entries@, k) == bound(before[o].entries@, k));
        } else {
            assert(after[id] == before[id]);
        }
        if let Some(p) = before[id].parent {
            if p < id {
                lemma_lookup_other_name(before, after, o, name, v, p as int, k);
            }
        }
        match owner(before, id, k) {
            Some(w) => {
                lemma_owner_binds(before, id, k);
                if w != o {
                    assert(after[w] == before[w]);
                }
            },
            None => {},
        }
    }
}

/// An arena of scopes. Scope 0 is the global scope; scopes are never removed.
pub struct Environment {
    pub scopes: Vec<Scope>,
}

impl Environment {
    pub open spec fn wf(&self) -> bool {
        self.scopes@.len() > 0 && scopes_wf(self.scopes@)
    }

    /// An arena that holds the empty global scope.
    pub fn new() -> (r: Environment)
        ensures
            r.wf(),
            r.scopes@.len() == 1,
            r.scopes@[0].entries@.len() == 0,
            r.scopes@[0].parent is None,
    {
        let mut scopes: Vec<Scope> = Vec::new();
        scopes.push(Scope { entries: Vec::new(), parent: None });
        Environment { scopes }
    }

    /// Adds an empty scope enclosed by `parent` and returns its index.
    pub fn append(&mut self, parent: usize) -> (r: usize)
        requires
            old(self).wf(),
            parent < old(self).scopes@.len(),
        ensures
            final(self).wf(),
            r == old(self).scopes@.len(),
            final(self).scopes@.len() == old(self).scopes@.len() + 1,
            forall|j: int| 0 <= j < r ==> #[trigger] final(self).scopes@[j] == old(self).scopes@[j],
            final(self).scopes@[r as int].entries@.len() == 0,
            final(self).scopes@[r as int].parent == Some(parent),
    {
        let r = self.scopes.len();
        self.scopes.push(Scope { entries: Vec::new(), parent: Some(parent) });
        r
    }

    /// Binds `key` in scope `scope` itself, replacing a binding of the same name
    /// there and shadowing any in enclosing scopes.
    pub fn declare(&mut self, scope: usize, key: String, value: Value)
        requires
            old(self).wf(),
            scope < old(self).scopes@.len(),
        ensures
            final(self).wf(),
            rebound(old(self).scopes@, final(self).scopes@, scope as int),
            forall|k: Seq<char>|
                bound(#[trigger] final(self).scopes@[scope as int].entries@, k) == if k == key@ {
                    Some(value)
                } else {
                    bound(old(self).scopes@[scope as int].entries@, k)
                },
    {
        let ghost before = self.scopes@;
        match self.find(scope, &key) {
            Some(i) => {
                let ghost old_entries = self.scopes@[scope as int].entries@;
                let ghost k0 = key;
                let ghost v0 = value;
                self.scopes[scope].entries[i] = (key, value);
                proof {
                    assert(self.scopes@[scope as int].entries@ == old_entries.update(i as int, (k0, v0)));
                    assert forall|k: Seq<char>| bound(#[trigger] self.scopes@[scope as int].entries@, k)
                        == if k == k0@ {
                        Some(v0)
                    } else {
                        bound(old_entries, k)
                    } by {
                        lemma_bound_update(old_entries, i as int, k0, v0, k);
                    }
                    assert(scopes_wf(self.scopes@)) by {
                        assert forall|j: int| 0 <= j < self.scopes@.len() implies match #[trigger] self.scopes@[j].parent {
                            Some(p) => p < j,
                            None => true,
                        } by {
                            assert(self.scopes@[j].parent == before[j].parent);
                        }
                    }
                }
            },
            None => {
                let ghost old_entries = self.scopes@[scope as int].entries@;
                let ghost k0 = key;
                let ghost v0 = value;
                self.scopes[scope].entries.push((key, value));
                proof {
                    assert(self.scopes@[scope as int].entries@ == old_entries.push((k0, v0)));
                    assert forall|k: Seq<char>| bound(#[trigger] self.scopes@[scope as int].entries@, k)
                        == if k == k0@ {
                        Some(v0)
                    } else {
                        bound(old_entries, k)
                    } by {
                        lemma_bound_push(old_entries, k0, v0, k);
                    }
                    assert(scopes_wf(self.scopes@)) by {
                        assert forall|j: int| 0 <= j < self.scopes@.len() implies match #[trigger] self.scopes@[j].parent {
                            Some(p) => p < j,
                            None => true,
                        } by {
                            assert(self.scopes@[j].parent == before[j].parent);
                        }
                    }
                }
            },
        }
    }

    /// The index of the latest binding of `key` in scope `scope` itself.
    fn find(&self, scope: usize, key: &String) -> (r: Option<usize>)
        requires
            scope < self.scopes@.len(),
        ensures
            match r {
                Some(i) => {
                    &&& i < self.scopes@[scope as int].entries@.len()
                    &&& self.scopes@[scope as int].entries@[i as int].0@ == key@
                    &&& forall|j: int|
                        i < j < self.scopes@[scope as int].entries@.len() ==> #[trigger] self.scopes@[scope as int].entries@[j].0@
                            != key@
                },
                None => bound(self.scopes@[scope as int].entries@, key@) is None,
            },
            r is Some <==> bound(self.scopes@[scope as int].entries@, key@) is Some,
            r matches Some(i) ==> bound(self.scopes@[scope as int].entries@, key@) == Some(
                self.scopes@[scope as int].entries@[i as int].1,
            ),
    {
        let entries = &self.scopes[scope].entries;
        let mut i = entries.len();
        proof {
            assert(entries@.take(i as int) =~= entries@);
        }
        while i > 0
            invariant
                i <= entries@.len(),
                entries@ == self.scopes@[scope as int].entries@,
                forall|j: int| i <= j < entries@.len() ==> #[trigger] entries@[j].0@ != key@,
                bound(entries@, key@) == bound(entries@.take(i as int), key@),
            decreases i,
        {
            proof {
                assert(entries@.take(i as int).drop_last() =~= entries@.take(i - 1));
            }
            if entries[i - 1].0 == *key {
                return Some(i - 1);
            }
            i = i - 1;
        }
        proof {
            assert(entries@.take(0) =~= Seq::<(String, Value)>::empty());
        }
        None
    }

    /// The value of `key` for code running in scope `scope`, if it is declared.
    pub fn get(&self, scope: usize, key: &String) -> (r: Option<Value>)
        requires
            self.wf(),
            scope < self.scopes@.len(),
        ensures
            r == lookup(self.scopes@, scope as int, key@),
    {
        match self.owner_of(scope, key) {
            Some(o) => {
                proof {
                    lemma_owner_binds(self.scopes@, scope as int, key@);
                }
                let i = self.find(o, key).unwrap();
                Some(self.scopes[o].entries[i].1.copy())
            },
            None => None,
        }
    }

    /// The scope that binds `key` for code running in `scope`.
    fn owner_of(&self, scope: usize, key: &String) -> (r: Option<usize>)
        requires
            self.wf(),
            scope < self.scopes@.len(),
        ensures
            r is None <==> owner(self.scopes@, scope as int, key@) is None,
            r matches Some(o) ==> o < self.scopes@.len() && owner(self.scopes@, scope as int, key@) == Some(o as int),
    {
        let mut id = scope;
        loop
            invariant
                self.wf(),
                id < self.scopes@.len(),
                owner(self.scopes@, scope as int, key@) == owner(self.scopes@, id as int, key@),
            decreases id,
        {
            if self.find(id, key).is_some() {
                return Some(id);
            }
            match self.scopes[id].parent {
                Some(p) => {
                    proof {
                        assert(match self.scopes@[id as int].parent {
                            Some(p) => p < id,
                            None => true,
                        });
                    }
                    id = p;
                },
                None => {
                    return None;
                },
            }
        }
    }

    /// Gives `key` the value `value` in the scope that binds it for code running
    /// in `scope`, and returns the value; fails if no such scope declares it.
    pub fn assign(&mut self, scope: usize, key: String, value: Value) -> (r: Result<Value, String>)
        requires
            old(self).wf(),
            scope < old(self).scopes@.len(),
        ensures
            final(self).wf(),
            match owner(old(self).scopes@, scope as int, key@) {
                Some(o) => {
                    &&& r == Ok::<Value, String>(value)
                    &&& assigned(old(self).scopes@, final(self).scopes@, o, key@, value)
                },
                None => {
                    &&& r is Err
                    &&& *final(self) == *old(self)
                    &&& r->Err_0@ == "Variable '"@ + key@ + "' not declared"@
                },
            },
    {
        match self.owner_of(scope, &key) {
            Some(o) => {
                let v = value.copy();
                self.declare(o, key, value);
                Ok(v)
            },
            None => {
                let mut m = String::from_str("Variable '");
                m.append(key.as_str());
                m.append("' not declared");
                proof {
                    reveal_strlit("Variable '");
                    reveal_strlit("' not declared");
                }
                Err(m)
            },
        }
    }
}

} // verus!

//! Scopes of variables. Every scope but the global one encloses in another,
//! and a name is looked up from the innermost scope outwards.
use vstd::prelude::*;

verus! {

/// One scope: its names, the value of each, and the scope it lies in.
pub struct Scope<V> {
    names: Vec<String>,
    values: Vec<V>,
    enclosing: Option<usize>,
}

/// A scope as a mathematical value: what its names are bound to, and the
/// scope it lies in.
pub struct SpecScope<V> {
    pub bindings: Map<Seq<char>, V>,
    pub enclosing: Option<int>,
}

/// The first index at or after `i` that holds `name`, or -1.
pub open spec fn position(names: Seq<String>, name: Seq<char>, i: int) -> int
    decreases names.len() - i,
{
    if 0 <= i < names.len() {
        if names[i]@ == name {
            i
        } else {
            position(names, name, i + 1)
        }
    } else {
        -1
    }
}

/// What each name of a scope is bound to: the value beside its first
/// occurrence.
pub open spec fn bindings_of<V>(names: Seq<String>, values: Seq<V>) -> Map<Seq<char>, V> {
    Map::new(|n: Seq<char>| position(names, n, 0) >= 0, |n: Seq<char>| values[position(names, n, 0)])
}

/// The value of `name` seen from `scope`: from the innermost scope that binds
/// it, outwards.
pub open spec fn lookup<V>(scopes: Seq<SpecScope<V>>, scope: int, name: Seq<char>) -> Option<V>
    decreases scope,
{
    if 0 <= scope < scopes.len() {
        if scopes[scope].bindings.contains_key(name) {
            Some(scopes[scope].bindings[name])
        } else {
            match scopes[scope].enclosing {
                Some(p) => if 0 <= p < scope {
                    lookup(scopes, p, name)
                } else {
                    None
                },
                None => None,
            }
        }
    } else {
        None
    }
}

/// The innermost scope, seen from `scope`, that binds `name`.
pub open spec fn holder<V>(scopes: Seq<SpecScope<V>>, scope: int, name: Seq<char>) -> Option<int>
    decreases scope,
{
    if 0 <= scope < scopes.len() {
        if scopes[scope].bindings.contains_key(name) {
            Some(scope)
        } else {
            match scopes[scope].enclosing {
                Some(p) => if 0 <= p < scope {
                    holder(scopes, p, name)
                } else {
                    None
                },
                None => None,
            }
        }
    } else {
        None
    }
}

/// Every scope lies in an earlier one, except the global scope at 0.
pub open spec fn well_nested<V>(scopes: Seq<SpecScope<V>>) -> bool {
    &&& scopes.len() >= 1
    &&& scopes[0].enclosing is None
    &&& forall|i: int|
        1 <= i < scopes.len() ==> (#[trigger] scopes[i].enclosing matches Some(p) && 0 <= p < i)
}

/// `scope` with `name` bound to `value`.
pub open spec fn bind<V>(scope: SpecScope<V>, name: Seq<char>, value: V) -> SpecScope<V> {
    SpecScope { bindings: scope.bindings.insert(name, value), enclosing: scope.enclosing }
}

proof fn lemma_position(names: Seq<String>, name: Seq<char>, i: int)
    requires
        0 <= i,
    ensures
        position(names, name, i) == -1 || (i <= position(names, name, i) < names.len()
            && names[position(names, name, i)]@ == name),
        position(names, name, i) == -1 ==> forall|j: int|
            i <= j < names.len() ==> #[trigger] names[j]@ != name,
    decreases names.len() - i,
{
    if 0 <= i < names.len() && names[i]@ != name {
        lemma_position(names, name, i + 1);
    }
}

proof fn lemma_position_push(names: Seq<String>, key: String, name: Seq<char>, i: int)
    requires
        0 <= i <= names.len(),
    ensures
        position(names.push(key), name, i) == if position(names, name, i) >= 0 {
            position(names, name, i)
        } else if key@ == name {
            names.len() as int
        } else {
            -1
        },
    decreases names.len() - i,
{
    let pushed = names.push(key);
    if i < names.len() {
        assert(pushed[i] == names[i]);
        if names[i]@ != name {
            lemma_position_push(names, key, name, i + 1);
        }
    } else {
        assert(pushed[i] == key);
        if key@ != name {
            assert(position(pushed, name, i + 1) == -1);
        }
    }
}

/// What a read gives back of a write: after `name` is bound to `value` in
/// `scope`, looking `name` up from `scope` gives `value`.
pub proof fn lemma_lookup_after_define<V>(
    scopes: Seq<SpecScope<V>>,
    scope: int,
    name: Seq<char>,
    value: V,
)
    requires
        0 <= scope < scopes.len(),
    ensures
        lookup(scopes.update(scope, bind(scopes[scope], name, value)), scope, name) == Some(value),
{
}

/// Binding a name changes nothing that is seen of any other name.
pub proof fn lemma_define_keeps_other_names<V>(
    scopes: Seq<SpecScope<V>>,
    scope: int,
    name: Seq<char>,
    value: V,
    from: int,
    other: Seq<char>,
)
    requires
        0 <= scope < scopes.len(),
        other != name,
    ensures
        lookup(scopes.update(scope, bind(scopes[scope], name, value)), from, other) == lookup(
            scopes,
            from,
            other,
        ),
    decreases from,
{
    let after = scopes.update(scope, bind(scopes[scope], name, value));
    if 0 <= from < scopes.len() {
        assert(after[from].bindings.contains_key(other) == scopes[from].bindings.contains_key(
            other,
        ));
        if let Some(p) = scopes[from].enclosing {
            if 0 <= p < from {
                lemma_define_keeps_other_names(scopes, scope, name, value, p, other);
            }
        }
    }
}

/// A binding is not seen from scopes that lie before it: those it does not
/// enclose.
pub proof fn lemma_define_unseen_before<V>(
    scopes: Seq<SpecScope<V>>,
    scope: int,
    name: Seq<char>,
    value: V,
    from: int,
    any: Seq<char>,
)
    requires
        0 <= scope < scopes.len(),
        from < scope,
    ensures
        lookup(scopes.update(scope, bind(scopes[scope], name, value)), from, any) == lookup(
            scopes,
            from,
            any,
        ),
    decreases from,
{
    if 0 <= from < scopes.len() {
        if let Some(p) = scopes[from].enclosing {
            if 0 <= p < from {
                lemma_define_unseen_before(scopes, scope, name, value, p, any);
            }
        }
    }
}

/// A new scope inside `parent` sees what `parent` sees, and opening it
/// changes nothing that the other scopes see.
pub proof fn lemma_child_sees_parent<V>(
    scopes: Seq<SpecScope<V>>,
    parent: int,
    name: Seq<char>,
    from: int,
)
    requires
        0 <= parent < scopes.len(),
        0 <= from < scopes.len(),
    ensures
        lookup(
            scopes.push(SpecScope { bindings: Map::empty(), enclosing: Some(parent) }),
            scopes.len() as int,
            name,
        ) == lookup(scopes, parent, name),
        lookup(
            scopes.push(SpecScope { bindings: Map::empty(), enclosing: Some(parent) }),
            from,
            name,
        ) == lookup(scopes, from, name),
{
    lemma_child_sees_parent_at(scopes, parent, name, from);
    lemma_child_sees_parent_at(scopes, parent, name, parent);
}

proof fn lemma_child_sees_parent_at<V>(
    scopes: Seq<SpecScope<V>>,
    parent: int,
    name: Seq<char>,
    from: int,
)
    requires
        0 <= parent < scopes.len(),
        0 <= from < scopes.len(),
    ensures
        lookup(
            scopes.push(SpecScope { bindings: Map::empty(), enclosing: Some(parent) }),
            from,
            name,
        ) == lookup(scopes, from, name),
    decreases from,
{
    let pushed = scopes.push(SpecScope { bindings: Map::empty(), enclosing: Some(parent) });
    assert(pushed[from] == scopes[from]);
    if let Some(p) = scopes[from].enclosing {
        if 0 <= p < from {
            lemma_child_sees_parent_at(scopes, parent, name, p);
        }
    }
}

/// A name can be assigned from `scope` exactly when it can be read from
/// there, and after the assignment it reads as the value assigned.
pub proof fn lemma_assign_where_seen<V>(
    scopes: Seq<SpecScope<V>>,
    scope: int,
    name: Seq<char>,
    value: V,
)
    requires
        0 <= scope < scopes.len(),
    ensures
        (holder(scopes, scope, name) is Some) == (lookup(scopes, scope, name) is Some),
        holder(scopes, scope, name) matches Some(h) ==> lookup(
            scopes.update(h, bind(scopes[h], name, value)),
            scope,
            name,
        ) == Some(value),
    decreases scope,
{
    if !scopes[scope].bindings.contains_key(name) {
        if let Some(p) = scopes[scope].enclosing {
            if 0 <= p < scope {
                lemma_assign_where_seen(scopes, p, name, value);
                if let Some(h) = holder(scopes, p, name) {
                    lemma_holder_within(scopes, p, name);
                    let after = scopes.update(h, bind(scopes[h], name, value));
                    assert(after[scope] == scopes[scope]);
                }
            }
        }
    }
}

proof fn lemma_holder_within<V>(scopes: Seq<SpecScope<V>>, scope: int, name: Seq<char>)
    ensures
        holder(scopes, scope, name) matches Some(h) ==> 0 <= h <= scope,
    decreases scope,
{
    if 0 <= scope < scopes.len() && !scopes[scope].bindings.contains_key(name) {
        if let Some(p) = scopes[scope].enclosing {
            if 0 <= p < scope {
                lemma_holder_within(scopes, p, name);
            }
        }
    }
}

/// Closing the scopes from `first` on leaves what the earlier scopes see as
/// it was.
pub proof fn lemma_close_keeps_outer<V>(
    scopes: Seq<SpecScope<V>>,
    first: int,
    from: int,
    name: Seq<char>,
)
    requires
        0 <= from < first <= scopes.len(),
    ensures
        lookup(scopes.take(first), from, name) == lookup(scopes, from, name),
    decreases from,
{
    assert(scopes.take(first)[from] == scopes[from]);
    if let Some(p) = scopes[from].enclosing {
        if 0 <= p < from {
            lemma_close_keeps_outer(scopes, first, p, name);
        }
    }
}

/// All the scopes of a running program, the global one first. A scope is
/// named by its index.
pub struct Environment<V> {
    scopes: Vec<Scope<V>>,
}

impl<V> View for Environment<V> {
    type V = Seq<SpecScope<V>>;

    closed spec fn view(&self) -> Seq<SpecScope<V>> {
        Seq::new(
            self.scopes@.len(),
            |i: int|
                SpecScope {
                    bindings: bindings_of(self.scopes@[i].names@, self.scopes@[i].values@),
                    enclosing: match self.scopes@[i].enclosing {
                        Some(p) => Some(p as int),
                        None => None,
                    },
                },
        )
    }
}

/// The index of `name` among `names`, searching from the start.
fn find(names: &Vec<String>, name: &String) -> (r: Option<usize>)
    ensures
        match r {
            Some(k) => position(names@, name@, 0) == k,
            None => position(names@, name@, 0) == -1,
        },
{
    let mut i: usize = 0;
    while i < names.len()
        invariant
            i <= names@.len(),
            position(names@, name@, 0) == position(names@, name@, i as int),
        decreases names@.len() - i,
    {
        if names[i] == *name {
            return Some(i);
        }
        i = i + 1;
    }
    None
}

impl<V> Environment<V> {
    /// The scopes are well nested, and each holds a value for each name.
    pub closed spec fn wf(&self) -> bool {
        &&& well_nested(self@)
        &&& forall|i: int|
            0 <= i < self.scopes@.len() ==> (#[trigger] self.scopes@[i]).names@.len()
                == self.scopes@[i].values@.len()
    }

    /// Just the global scope, with nothing in it.
    pub fn new() -> (env: Self)
        ensures
            env.wf(),
            env@ == seq![SpecScope::<V> { bindings: Map::empty(), enclosing: None }],
    {
        let mut scopes: Vec<Scope<V>> = Vec::new();
        scopes.push(Scope { names: Vec::new(), values: Vec::new(), enclosing: None });
        let env = Environment { scopes };
        assert(env@[0].bindings =~= Map::<Seq<char>, V>::empty());
        assert(env@ =~= seq![SpecScope::<V> { bindings: Map::empty(), enclosing: None }]);
        env
    }

    /// The global scope.
    pub fn global(&self) -> (scope: usize)
        ensures
            scope == 0,
    {
        0
    }

    /// Opens a new, empty scope inside `parent`.
    pub fn child_scope(&mut self, parent: usize) -> (scope: usize)
        requires
            old(self).wf(),
            parent < old(self)@.len(),
        ensures
            final(self).wf(),
            scope == old(self)@.len(),
            final(self)@ == old(self)@.push(
                SpecScope { bindings: Map::empty(), enclosing: Some(parent as int) },
            ),
    {
        let scope = self.scopes.len();
        self.scopes.push(Scope { names: Vec::new(), values: Vec::new(), enclosing: Some(parent) });
        let ghost new_scope = SpecScope::<V> {
            bindings: Map::empty(),
            enclosing: Some(parent as int),
        };
        assert(self@[scope as int].bindings =~= Map::<Seq<char>, V>::empty());
        assert(self@ =~= old(self)@.push(new_scope));
        scope
    }

    /// The value of `name` seen from `scope`, if any scope from it outwards
    /// binds the name.
    pub fn get(&self, scope: usize, name: &str) -> (r: Option<&V>)
        requires
            self.wf(),
            scope < self@.len(),
        ensures
            match r {
                Some(v) => lookup(self@, scope as int, name@) == Some(*v),
                None => lookup(self@, scope as int, name@) is None,
            },
    {
        let key = String::from_str(name);
        let mut at = scope;
        loop
            invariant
                self.wf(),
                at < self@.len(),
                key@ == name@,
                lookup(self@, scope as int, name@) == lookup(self@, at as int, name@),
            decreases at,
        {
            let frame = &self.scopes[at];
            match find(&frame.names, &key) {
                Some(k) => {
                    proof {
                        lemma_position(frame.names@, name@, 0);
                        assert(self.scopes@[at as int].names@.len()
                            == self.scopes@[at as int].values@.len());
                    }
                    return Some(&frame.values[k]);
                },
                None => {
                    match frame.enclosing {
                        Some(p) => {
                            at = p;
                        },
                        None => {
                            return None;
                        },
                    }
                },
            }
        }
    }

    /// Binds `name` in `scope` itself, to `value`: a new name, or a new value
    /// for a name the scope already has.
    pub fn define(&mut self, scope: usize, name: &str, value: V)
        requires
            old(self).wf(),
            scope < old(self)@.len(),
        ensures
            final(self).wf(),
            final(self)@ == old(self)@.update(
                scope as int,
                bind(old(self)@[scope as int], name@, value),
            ),
    {
        let key = String::from_str(name);
        let ghost names0 = self.scopes@[scope as int].names@;
        let ghost values0 = self.scopes@[scope as int].values@;
        match find(&self.scopes[scope].names, &key) {
            Some(k) => {
                proof {
                    lemma_position(names0, name@, 0);
                }
                self.scopes[scope].values[k] = value;
                proof {
                    let values1 = self.scopes@[scope as int].values@;
                    assert forall|n: Seq<char>| position(names0, n, 0) >= 0 && n != name@ implies
                        values1[position(names0, n, 0)] == values0[position(names0, n, 0)] by {
                        lemma_position(names0, n, 0);
                    }
                    assert(bindings_of(names0, values1) =~= bindings_of(names0, values0).insert(
                        name@,
                        value,
                    ));
                }
            },
            None => {
                self.scopes[scope].names.push(key);
                self.scopes[scope].values.push(value);
                proof {
                    let names1 = self.scopes@[scope as int].names@;
                    let values1 = self.scopes@[scope as int].values@;
                    assert forall|n: Seq<char>| #![auto]
                        position(names1, n, 0) == if position(names0, n, 0) >= 0 {
                            position(names0, n, 0)
                        } else if name@ == n {
                            names0.len() as int
                        } else {
                            -1
                        } by {
                        lemma_position_push(names0, key, n, 0);
                    }
                    assert forall|n: Seq<char>| position(names0, n, 0) >= 0 implies
                        values1[position(names0, n, 0)] == values0[position(names0, n, 0)] by {
                        lemma_position(names0, n, 0);
                    }
                    assert(bindings_of(names1, values1) =~= bindings_of(names0, values0).insert(
                        name@,
                        value,
                    ));
                }
            },
        }
        assert(self@ =~= old(self)@.update(
            scope as int,
            bind(old(self)@[scope as int], name@, value),
        ));
    }

    /// Gives `name` the value `value` in the innermost scope, seen from
    /// `scope`, that binds it. False, and nothing changed, when no scope from
    /// `scope` outwards binds the name.
    pub fn assign(&mut self, scope: usize, name: &str, value: V) -> (assigned: bool)
        requires
            old(self).wf(),
            scope < old(self)@.len(),
        ensures
            final(self).wf(),
            match holder(old(self)@, scope as int, name@) {
                Some(h) => assigned && final(self)@ == old(self)@.update(
                    h,
                    bind(old(self)@[h], name@, value),
                ),
                None => !assigned && final(self)@ == old(self)@,
            },
    {
        let key = String::from_str(name);
        let mut at = scope;
        loop
            invariant
                self.wf(),
                self@ == old(self)@,
                at < self@.len(),
                key@ == name@,
                holder(self@, scope as int, name@) == holder(self@, at as int, name@),
            decreases at,
        {
            match find(&self.scopes[at].names, &key) {
                Some(_) => {
                    self.define(at, name, value);
                    return true;
                },
                None => {
                    match self.scopes[at].enclosing {
                        Some(p) => {
                            at = p;
                        },
                        None => {
                            return false;
                        },
                    }
                },
            }
        }
    }

    /// Closes `scope` and every scope opened after it; the scopes before it
    /// stay as they are.
    pub fn close_scope(&mut self, scope: usize)
        requires
            old(self).wf(),
            1 <= scope < old(self)@.len(),
        ensures
            final(self).wf(),
            final(self)@ == old(self)@.take(scope as int),
    {
        self.scopes.truncate(scope);
        assert(self@ =~= old(self)@.take(scope as int));
    }
}

} // verus!

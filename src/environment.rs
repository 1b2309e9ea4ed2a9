use vstd::prelude::*;
use crate::error::{is_runtime_error, LangError};
use crate::types::{entry_value, get_entry, keys_distinct, model_entries, set_entry, RuntimeVal, Value};

verus! {

/// One lexical scope and, through its parent, the chain of enclosing scopes.
#[derive(Debug)]
pub struct Environment {
    parent: Option<Box<Environment>>,
    variables: Vec<(String, RuntimeVal)>,
    constants: Vec<String>,
}

impl Environment {
    /// The value bound to `name` in this scope alone.
    pub closed spec fn local(&self, name: Seq<char>) -> Option<Value> {
        entry_value(model_entries(self.variables@), name)
    }

    /// Whether this scope alone marks `name` as constant.
    pub closed spec fn local_constant(&self, name: Seq<char>) -> bool {
        exists|i: int| 0 <= i < self.constants@.len() && self.constants@[i]@ == name
    }

    /// The enclosing scope.
    pub closed spec fn parent_env(&self) -> Option<Environment> {
        match self.parent {
            Some(p) => Some(*p),
            None => None,
        }
    }

    /// The value of `name` in the nearest scope that defines it.
    pub open spec fn lookup(&self, name: Seq<char>) -> Option<Value>
        decreases self,
    {
        if self.local(name) is Some {
            self.local(name)
        } else {
            match self.parent_env() {
                Some(p) => {
                    if decreases_to!(self => p) { p.lookup(name) } else { None }
                },
                None => None,
            }
        }
    }

    /// Whether the nearest scope that defines `name` marks it constant.
    pub open spec fn is_constant(&self, name: Seq<char>) -> bool
        decreases self,
    {
        if self.local(name) is Some {
            self.local_constant(name)
        } else {
            match self.parent_env() {
                Some(p) => {
                    if decreases_to!(self => p) { p.is_constant(name) } else { false }
                },
                None => false,
            }
        }
    }

    /// Every scope of the chain has distinct names, and marks only names it defines.
    pub closed spec fn wf(&self) -> bool
        decreases self,
    {
        &&& keys_distinct(model_entries(self.variables@))
        &&& forall|n: Seq<char>| self.local_constant(n) ==> self.local(n) is Some
        &&& match self.parent {
            Some(p) => p.wf(),
            None => true,
        }
    }

    pub proof fn lemma_parent_decreases(&self)
        ensures
            self.parent_env() matches Some(p) ==> decreases_to!(self => p) && p.depth() < self.depth(),
    {
    }

    /// The number of enclosing scopes.
    pub closed spec fn depth(&self) -> nat
        decreases self,
    {
        match self.parent {
            Some(p) => p.depth() + 1,
            None => 0,
        }
    }

    /// `after` is this scope with `name` newly bound to `v`, constant if `constant`.
    pub open spec fn declares(&self, after: &Environment, name: Seq<char>, v: Value, constant: bool) -> bool {
        &&& after.parent_env() == self.parent_env()
        &&& forall|n: Seq<char>| #[trigger] after.local(n) == if n == name { Some(v) } else { self.local(n) }
        &&& forall|n: Seq<char>| #[trigger] after.local_constant(n) == if n == name {
            constant
        } else {
            self.local_constant(n)
        }
    }

    /// `after` is this chain with `name` rebound to `v` in the nearest scope
    /// that defines it, and every scope of the chain otherwise as it was.
    pub open spec fn rebinds(&self, after: &Environment, name: Seq<char>, v: Value) -> bool
        decreases self,
    {
        &&& forall|n: Seq<char>| #[trigger] after.local_constant(n) == self.local_constant(n)
        &&& if self.local(name) is Some {
            &&& after.parent_env() == self.parent_env()
            &&& forall|n: Seq<char>| #[trigger] after.local(n) == if n == name { Some(v) } else { self.local(n) }
        } else {
            &&& forall|n: Seq<char>| #[trigger] after.local(n) == self.local(n)
            &&& match (self.parent_env(), after.parent_env()) {
                (Some(p), Some(q)) => if decreases_to!(self => p) { p.rebinds(&q, name, v) } else { false },
                _ => false,
            }
        }
    }

    /// `after` is this chain with `name` rebound to `v` where it was defined.
    pub open spec fn assigns(&self, after: &Environment, name: Seq<char>, v: Value) -> bool {
        &&& self.rebinds(after, name, v)
        &&& forall|n: Seq<char>| #[trigger] after.lookup(n) == if n == name { Some(v) } else { self.lookup(n) }
        &&& forall|n: Seq<char>| #[trigger] after.is_constant(n) == self.is_constant(n)
        &&& forall|n: Seq<char>| #[trigger] after.local(n) is Some == self.local(n) is Some
    }

    /// A fresh, empty scope inside `parent`.
    pub fn new(parent: Option<Environment>) -> (r: Environment)
        requires
            parent matches Some(p) ==> p.wf(),
        ensures
            r.wf(),
            r.parent_env() == parent,
            forall|n: Seq<char>| #[trigger] r.local(n) is None && !r.local_constant(n),
            forall|n: Seq<char>| #[trigger] r.lookup(n) == match parent {
                Some(p) => p.lookup(n),
                None => None::<Value>,
            },
            forall|n: Seq<char>| #[trigger] r.is_constant(n) == match parent {
                Some(p) => p.is_constant(n),
                None => false,
            },
    {
        let parent = match parent {
            Some(p) => Some(Box::new(p)),
            None => None,
        };
        let r = Environment { parent, variables: Vec::new(), constants: Vec::new() };
        proof {
            assert forall|n: Seq<char>| #[trigger] r.local(n) is None && !r.local_constant(n) by {
                assert(model_entries(r.variables@) =~= Seq::empty());
            }
            assert(model_entries(r.variables@) =~= Seq::empty());
        }
        r
    }

    fn has_local(&self, name: &String) -> (r: bool)
        ensures
            r == (self.local(name@) is Some),
    {
        get_entry(&self.variables, name).is_some()
    }

    fn has_local_constant(&self, name: &String) -> (r: bool)
        ensures
            r == self.local_constant(name@),
    {
        let mut i: usize = 0;
        while i < self.constants.len()
            invariant
                0 <= i <= self.constants.len(),
                forall|j: int| 0 <= j < i ==> self.constants@[j]@ != name@,
            decreases self.constants.len() - i,
        {
            if self.constants[i] == *name {
                return true;
            }
            i = i + 1;
        }
        false
    }

    /// Binds `name` to `value` in this scope, as a constant if `constant`.
    /// A name that this scope already defines is refused.
    pub fn declare_variable(&mut self, name: &String, value: RuntimeVal, constant: bool) -> (r: Result<RuntimeVal, LangError>)
        requires
            old(self).wf(),
        ensures
            final(self).wf(),
            r matches Err(e) ==> is_runtime_error(e),
            old(self).local(name@) is Some ==> r == Err::<RuntimeVal, LangError>(LangError::AlreadyDeclared(*name))
                && *final(self) == *old(self),
            old(self).local(name@) is None ==> {
                &&& r matches Ok(v) && v.model() == value.model()
                &&& old(self).declares(final(self), name@, value.model(), constant)
            },
    {
        if self.has_local(name) {
            return Err(LangError::AlreadyDeclared(name.clone()));
        }
        let ghost pre = *self;
        if constant {
            self.constants.push(name.clone());
        } else {
            proof {
                assert(!pre.local_constant(name@));
            }
        }
        let copy = value.duplicate();
        set_entry(&mut self.variables, name.clone(), copy);
        proof {
            assert forall|n: Seq<char>| #[trigger] self.local_constant(n) == if n == name@ {
                constant
            } else {
                pre.local_constant(n)
            } by {
                if self.local_constant(n) && n != name@ {
                    let i = choose|i: int| 0 <= i < self.constants@.len() && self.constants@[i]@ == n;
                    assert(pre.constants@[i] == self.constants@[i]);
                }
                if pre.local_constant(n) {
                    let i = choose|i: int| 0 <= i < pre.constants@.len() && pre.constants@[i]@ == n;
                    assert(pre.constants@[i] == self.constants@[i]);
                }
                if constant && n == name@ {
                    assert(self.constants@[pre.constants@.len() as int]@ == n);
                }
            }
        }
        Ok(value)
    }

    /// Rebinds `name` in the nearest scope that defines it. An undefined name
    /// and a constant are refused.
    pub fn assign_variable(&mut self, name: &String, value: RuntimeVal) -> (r: Result<RuntimeVal, LangError>)
        requires
            old(self).wf(),
        ensures
            final(self).wf(),
            r matches Err(e) ==> is_runtime_error(e),
            old(self).lookup(name@) is None ==> r == Err::<RuntimeVal, LangError>(LangError::Undefined(*name))
                && *final(self) == *old(self),
            old(self).lookup(name@) is Some && old(self).is_constant(name@) ==> r
                == Err::<RuntimeVal, LangError>(LangError::ConstantReassignment(*name)) && *final(self) == *old(self),
            old(self).lookup(name@) is Some && !old(self).is_constant(name@) ==> {
                &&& r matches Ok(v) && v.model() == value.model()
                &&& old(self).assigns(final(self), name@, value.model())
            },
        decreases old(self).depth(),
    {
        proof {
            self.lemma_parent_decreases();
        }
        let ghost pre = *self;
        if self.has_local(name) {
            if self.has_local_constant(name) {
                return Err(LangError::ConstantReassignment(name.clone()));
            }
            let copy = value.duplicate();
            set_entry(&mut self.variables, name.clone(), copy);
            proof {
                self.lemma_parent_decreases();
                assert forall|n: Seq<char>| #[trigger] self.local_constant(n) == pre.local_constant(n) by {}
            }
            return Ok(value);
        }
        let r = match self.parent.take() {
            Some(mut p) => {
                let r = p.assign_variable(name, value);
                self.parent = Some(p);
                r
            },
            None => Err(LangError::Undefined(name.clone())),
        };
        proof {
            self.lemma_parent_decreases();
            assert(self.constants == pre.constants);
            assert(self.variables == pre.variables);
            assert forall|n: Seq<char>| #[trigger] self.local(n) == pre.local(n) by {}
            assert forall|n: Seq<char>| #[trigger] self.local_constant(n) == pre.local_constant(n) by {}
            if pre.lookup(name@) is Some && !pre.is_constant(name@) {
                let pp = pre.parent_env()->Some_0;
                let fp = self.parent_env()->Some_0;
                assert forall|n: Seq<char>| #[trigger] self.lookup(n) == if n == name@ {
                    Some(value.model())
                } else {
                    pre.lookup(n)
                } by {
                    assert(fp.lookup(n) == if n == name@ { Some(value.model()) } else { pp.lookup(n) });
                }
                assert forall|n: Seq<char>| #[trigger] self.is_constant(n) == pre.is_constant(n) by {
                    assert(fp.is_constant(n) == pp.is_constant(n));
                }
            }
        }
        r
    }

    /// The nearest scope that defines `name`.
    fn resolve(&self, name: &String) -> (r: Option<&Environment>)
        requires
            self.wf(),
        ensures
            match r {
                Some(e) => e.wf() && e.local(name@) is Some && self.lookup(name@) == e.local(name@)
                    && self.is_constant(name@) == e.local_constant(name@),
                None => self.lookup(name@) is None,
            },
        decreases self,
    {
        proof {
            self.lemma_parent_decreases();
        }
        if self.has_local(name) {
            return Some(self);
        }
        match &self.parent {
            Some(p) => p.resolve(name),
            None => None,
        }
    }

    /// Looks `name` up in the nearest scope that defines it.
    pub fn lookup_variable(&self, name: &String) -> (r: Option<RuntimeVal>)
        requires
            self.wf(),
        ensures
            match r {
                Some(v) => self.lookup(name@) == Some(v.model()),
                None => self.lookup(name@) is None,
            },
    {
        match self.resolve(name) {
            Some(scope) => get_entry(&scope.variables, name),
            None => None,
        }
    }
}

impl Environment {
    /// Leaves this scope: the enclosing scope, as it now stands.
    pub fn into_parent(self) -> (r: Option<Environment>)
        requires
            self.wf(),
        ensures
            r == self.parent_env(),
            r matches Some(p) ==> p.wf(),
    {
        match self.parent {
            Some(p) => Some(*p),
            None => None,
        }
    }
}

/// A declaration in a nested scope does not touch the enclosing scopes: once
/// the nested scope is left, every name looks up as it did before.
pub proof fn lemma_scope_isolation(before: Environment, after: Environment, name: Seq<char>, v: Value, constant: bool)
    requires
        before.declares(&after, name, v, constant),
    ensures
        after.parent_env() == before.parent_env(),
        after.parent_env() matches Some(p) ==> forall|n: Seq<char>| #[trigger] p.lookup(n)
            == before.parent_env()->Some_0.lookup(n),
{
}

/// Once `name` is declared constant, the scope shows it bound and constant,
/// and assignments to any names keep it constant: so every later assignment
/// to it is refused.
pub proof fn lemma_constant_immutable(
    before: Environment,
    after: Environment,
    later: Environment,
    name: Seq<char>,
    v: Value,
    other: Seq<char>,
    w: Value,
)
    requires
        before.declares(&after, name, v, true),
        after.assigns(&later, other, w),
    ensures
        after.lookup(name) == Some(v),
        after.is_constant(name),
        later.lookup(name) is Some,
        later.is_constant(name),
{
}

/// The outermost scope, in which `null`, `true` and `false` are constants.
pub fn global_env() -> (r: Environment)
    ensures
        r.wf(),
        r.parent_env() is None,
        r.lookup(seq!['n', 'u', 'l', 'l']) == Some(Value::Null),
        r.lookup(seq!['t', 'r', 'u', 'e']) == Some(Value::Bool(true)),
        r.lookup(seq!['f', 'a', 'l', 's', 'e']) == Some(Value::Bool(false)),
        forall|n: Seq<char>| #[trigger] r.lookup(n) is Some <==> r.is_constant(n),
        forall|n: Seq<char>| #[trigger] r.lookup(n) is Some <==> (n == seq!['n', 'u', 'l', 'l']
            || n == seq!['t', 'r', 'u', 'e'] || n == seq!['f', 'a', 'l', 's', 'e']),
{
    let mut env = Environment::new(None);
    let null_name = String::from_str("null");
    let true_name = String::from_str("true");
    let false_name = String::from_str("false");
    proof {
        reveal_strlit("null");
        reveal_strlit("true");
        reveal_strlit("false");
        assert(null_name@ == seq!['n', 'u', 'l', 'l']);
        assert(true_name@ == seq!['t', 'r', 'u', 'e']);
        assert(false_name@ == seq!['f', 'a', 'l', 's', 'e']);
    }
    let _ = env.declare_variable(&null_name, RuntimeVal::Null, true);
    let _ = env.declare_variable(&true_name, RuntimeVal::Bool(true), true);
    let _ = env.declare_variable(&false_name, RuntimeVal::Bool(false), true);
    proof {
        env.lemma_parent_decreases();
    }
    env
}

} // verus!

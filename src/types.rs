use vstd::prelude::*;

verus! {

broadcast use vstd::std_specs::vec::group_vec_axioms;

/// A runtime value. An object is a list of entries with pairwise distinct keys.
#[derive(Debug)]
pub enum RuntimeVal {
    Number(isize),
    Null,
    Bool(bool),
    Object(Vec<(String, RuntimeVal)>),
}

/// The mathematical meaning of a value: an object is a list of (key, value) pairs.
pub enum Value {
    Number(isize),
    Null,
    Bool(bool),
    Object(Seq<(Seq<char>, Value)>),
}

impl RuntimeVal {
    pub open spec fn model(self) -> Value
        decreases self,
    {
        match self {
            RuntimeVal::Number(n) => Value::Number(n),
            RuntimeVal::Null => Value::Null,
            RuntimeVal::Bool(b) => Value::Bool(b),
            RuntimeVal::Object(entries) => Value::Object(model_entries(entries@)),
        }
    }
}

/// The model of an object's entries, entry by entry.
pub open spec fn model_entries(entries: Seq<(String, RuntimeVal)>) -> Seq<(Seq<char>, Value)>
    decreases entries,
{
    if entries.len() == 0 {
        Seq::empty()
    } else {
        seq![(entries[0].0@, entries[0].1.model())] + model_entries(entries.drop_first())
    }
}

/// The value stored under `key`: that of the first entry with that key.
pub open spec fn entry_value(entries: Seq<(Seq<char>, Value)>, key: Seq<char>) -> Option<Value>
    decreases entries.len(),
{
    if entries.len() == 0 {
        None
    } else if entries[0].0 == key {
        Some(entries[0].1)
    } else {
        entry_value(entries.drop_first(), key)
    }
}

/// `entries` with `key` bound to `v`: the entry with that key replaced, or a
/// new entry at the end.
pub open spec fn insert_entry(entries: Seq<(Seq<char>, Value)>, key: Seq<char>, v: Value) -> Seq<(Seq<char>, Value)> {
    if exists|i: int| 0 <= i < entries.len() && entries[i].0 == key {
        entries.update(choose|i: int| 0 <= i < entries.len() && entries[i].0 == key, (key, v))
    } else {
        entries.push((key, v))
    }
}

/// No key stands in two entries.
pub open spec fn keys_distinct(entries: Seq<(Seq<char>, Value)>) -> bool {
    forall|i: int, j: int| 0 <= i < j < entries.len() ==> entries[i].0 != entries[j].0
}

proof fn lemma_model_entries(entries: Seq<(String, RuntimeVal)>)
    ensures
        model_entries(entries).len() == entries.len(),
        forall|i: int| 0 <= i < entries.len() ==> #[trigger] model_entries(entries)[i] == (entries[i].0@, entries[i].1.model()),
    decreases entries.len(),
{
    if entries.len() > 0 {
        lemma_model_entries(entries.drop_first());
        assert forall|i: int| 0 <= i < entries.len() implies #[trigger] model_entries(entries)[i] == (entries[i].0@, entries[i].1.model()) by {
            if i > 0 {
                assert(entries.drop_first()[i - 1] == entries[i]);
            }
        }
    }
}

proof fn lemma_entry_value_skip(entries: Seq<(Seq<char>, Value)>, i: int, key: Seq<char>)
    requires
        0 <= i <= entries.len(),
        forall|j: int| 0 <= j < i ==> entries[j].0 != key,
    ensures
        entry_value(entries, key) == entry_value(entries.subrange(i, entries.len() as int), key),
    decreases i,
{
    if i > 0 {
        lemma_entry_value_skip(entries.drop_first(), i - 1, key);
        assert(entries.drop_first().subrange(i - 1, entries.len() - 1) =~= entries.subrange(i, entries.len() as int));
    } else {
        assert(entries.subrange(0, entries.len() as int) =~= entries);
    }
}

proof fn lemma_entry_value_absent(entries: Seq<(Seq<char>, Value)>, key: Seq<char>)
    requires
        forall|j: int| 0 <= j < entries.len() ==> entries[j].0 != key,
    ensures
        entry_value(entries, key) is None,
    decreases entries.len(),
{
    if entries.len() > 0 {
        lemma_entry_value_absent(entries.drop_first(), key);
    }
}

proof fn lemma_entry_value_update(entries: Seq<(Seq<char>, Value)>, i: int, key: Seq<char>, v: Value, k: Seq<char>)
    requires
        0 <= i < entries.len(),
        entries[i].0 == key,
        keys_distinct(entries),
    ensures
        entry_value(entries.update(i, (key, v)), k) == if k == key { Some(v) } else { entry_value(entries, k) },
    decreases entries.len(),
{
    if i > 0 {
        lemma_entry_value_update(entries.drop_first(), i - 1, key, v, k);
        assert(entries.update(i, (key, v)).drop_first() =~= entries.drop_first().update(i - 1, (key, v)));
    } else {
        assert(entries.update(i, (key, v)).drop_first() =~= entries.drop_first());
    }
}

proof fn lemma_entry_value_push(entries: Seq<(Seq<char>, Value)>, key: Seq<char>, v: Value, k: Seq<char>)
    requires
        forall|j: int| 0 <= j < entries.len() ==> entries[j].0 != key,
    ensures
        entry_value(entries.push((key, v)), k) == if k == key { Some(v) } else { entry_value(entries, k) },
    decreases entries.len(),
{
    let p = entries.push((key, v));
    if entries.len() > 0 {
        assert forall|j: int| 0 <= j < entries.drop_first().len() implies entries.drop_first()[j].0 != key by {
            assert(entries.drop_first()[j] == entries[j + 1]);
        }
        lemma_entry_value_push(entries.drop_first(), key, v, k);
        assert(p.drop_first() =~= entries.drop_first().push((key, v)));
        assert(p[0] == entries[0]);
        assert(entries[0].0 != key);
        if entries[0].0 == k {
            assert(entry_value(p, k) == Some(entries[0].1));
        } else {
            assert(entry_value(p, k) == entry_value(p.drop_first(), k));
        }
    } else {
        assert(p.drop_first() =~= Seq::<(Seq<char>, Value)>::empty());
        assert(p[0] == (key, v));
        if k == key {
            assert(entry_value(p, k) == Some(v));
        } else {
            assert(entry_value(p, k) == entry_value(p.drop_first(), k));
            assert(entry_value(p.drop_first(), k) is None);
        }
    }
}

/// Finds the value stored under `key` in an object's entries.
pub fn get_entry(entries: &Vec<(String, RuntimeVal)>, key: &String) -> (r: Option<RuntimeVal>)
    ensures
        match r {
            Some(v) => entry_value(model_entries(entries@), key@) == Some(v.model()),
            None => entry_value(model_entries(entries@), key@) is None,
        },
{
    proof {
        lemma_model_entries(entries@);
    }
    let ghost m = model_entries(entries@);
    let mut i: usize = 0;
    while i < entries.len()
        invariant
            0 <= i <= entries.len(),
            m == model_entries(entries@),
            m.len() == entries.len(),
            forall|j: int| 0 <= j < entries.len() ==> m[j] == ((#[trigger] entries@[j]).0@, entries@[j].1.model()),
            forall|j: int| 0 <= j < i ==> m[j].0 != key@,
        decreases entries.len() - i,
    {
        if entries[i].0 == *key {
            proof {
                lemma_entry_value_skip(m, i as int, key@);
                assert(m.subrange(i as int, m.len() as int)[0] == m[i as int]);
            }
            return Some(entries[i].1.duplicate());
        }
        i = i + 1;
    }
    proof {
        lemma_entry_value_absent(m, key@);
    }
    None
}

/// Stores `value` under `key`, replacing the entry that has that key, if any.
pub fn set_entry(entries: &mut Vec<(String, RuntimeVal)>, key: String, value: RuntimeVal)
    requires
        keys_distinct(model_entries(old(entries)@)),
    ensures
        keys_distinct(model_entries(final(entries)@)),
        model_entries(final(entries)@) == insert_entry(model_entries(old(entries)@), key@, value.model()),
        forall|k: Seq<char>| #[trigger] entry_value(model_entries(final(entries)@), k) == if k == key@ {
            Some(value.model())
        } else {
            entry_value(model_entries(old(entries)@), k)
        },
{
    proof {
        lemma_model_entries(entries@);
    }
    let ghost pre = model_entries(entries@);
    let ghost old_e = entries@;
    let mut i: usize = 0;
    while i < entries.len()
        invariant
            entries@ == old_e,
            old_e == old(entries)@,
            pre == model_entries(entries@),
            forall|j: int| 0 <= j < entries.len() ==> pre[j] == ((#[trigger] old_e[j]).0@, old_e[j].1.model()),
            pre.len() == entries.len(),
            0 <= i <= entries.len(),
            keys_distinct(pre),
            forall|j: int| 0 <= j < i ==> pre[j].0 != key@,
        decreases entries.len() - i,
    {
        if entries[i].0 == key {
            let ghost kv = key@;
            entries.set(i, (key, value));
            proof {
                lemma_model_entries(entries@);
                assert forall|j: int| 0 <= j < entries.len() implies #[trigger] model_entries(entries@)[j] == pre.update(i as int, (kv, value.model()))[j] by {
                    if j != i {
                        assert(entries@[j] == old_e[j]);
                    }
                }
                assert(model_entries(entries@) =~= pre.update(i as int, (kv, value.model())));
                let j = choose|j: int| 0 <= j < pre.len() && pre[j].0 == kv;
                assert(pre[i as int].0 == kv);
                assert(j == i);
                assert forall|k: Seq<char>| #[trigger] entry_value(model_entries(entries@), k) == if k == kv {
                    Some(value.model())
                } else {
                    entry_value(pre, k)
                } by {
                    lemma_entry_value_update(pre, i as int, kv, value.model(), k);
                }
            }
            return;
        }
        i = i + 1;
    }
    let ghost kv = key@;
    entries.push((key, value));
    proof {
        lemma_model_entries(entries@);
        assert forall|j: int| 0 <= j < entries.len() implies #[trigger] model_entries(entries@)[j] == pre.push((kv, value.model()))[j] by {
            if j < old_e.len() {
                assert(entries@[j] == old_e[j]);
            }
        }
        assert(model_entries(entries@) =~= pre.push((kv, value.model())));
        assert(!(exists|j: int| 0 <= j < pre.len() && pre[j].0 == kv));
        assert forall|k: Seq<char>| #[trigger] entry_value(model_entries(entries@), k) == if k == kv {
            Some(value.model())
        } else {
            entry_value(pre, k)
        } by {
            lemma_entry_value_push(pre, kv, value.model(), k);
        }
    }
}

/// Equality of values: objects are equal when they hold the same keys, each
/// with equal values, in whatever order.
pub open spec fn same_value(a: Value, b: Value) -> bool
    decreases a,
{
    match (a, b) {
        (Value::Number(x), Value::Number(y)) => x == y,
        (Value::Null, Value::Null) => true,
        (Value::Bool(x), Value::Bool(y)) => x == y,
        (Value::Object(ea), Value::Object(eb)) => ea.len() == eb.len() && forall|i: int|
            0 <= i < ea.len() ==> match entry_value(eb, #[trigger] ea[i].0) {
                Some(w) => same_value(ea[i].1, w),
                None => false,
            },
        _ => false,
    }
}

/// The position of the first entry with `key`.
fn find_entry(entries: &Vec<(String, RuntimeVal)>, key: &String) -> (r: Option<usize>)
    ensures
        match r {
            Some(j) => j < entries@.len() && entries@[j as int].0@ == key@
                && entry_value(model_entries(entries@), key@) == Some(entries@[j as int].1.model()),
            None => entry_value(model_entries(entries@), key@) is None,
        },
{
    proof {
        lemma_model_entries(entries@);
    }
    let ghost m = model_entries(entries@);
    let mut i: usize = 0;
    while i < entries.len()
        invariant
            0 <= i <= entries.len(),
            m == model_entries(entries@),
            m.len() == entries.len(),
            forall|j: int| 0 <= j < entries.len() ==> m[j] == ((#[trigger] entries@[j]).0@, entries@[j].1.model()),
            forall|j: int| 0 <= j < i ==> m[j].0 != key@,
        decreases entries.len() - i,
    {
        if entries[i].0 == *key {
            proof {
                lemma_entry_value_skip(m, i as int, key@);
                assert(m.subrange(i as int, m.len() as int)[0] == m[i as int]);
            }
            return Some(i);
        }
        i = i + 1;
    }
    proof {
        lemma_entry_value_absent(m, key@);
    }
    None
}

impl RuntimeVal {
    /// Whether two values are equal in the sense of [`same_value`].
    pub fn equals(&self, other: &RuntimeVal) -> (r: bool)
        ensures
            r == same_value(self.model(), other.model()),
        decreases self, 0nat,
    {
        match (self, other) {
            (RuntimeVal::Number(x), RuntimeVal::Number(y)) => *x == *y,
            (RuntimeVal::Null, RuntimeVal::Null) => true,
            (RuntimeVal::Bool(x), RuntimeVal::Bool(y)) => *x == *y,
            (RuntimeVal::Object(a), RuntimeVal::Object(b)) => entries_equal(a, b),
            _ => false,
        }
    }
}

/// Whether two objects' entries are equal in the sense of [`same_value`].
fn entries_equal(a: &Vec<(String, RuntimeVal)>, b: &Vec<(String, RuntimeVal)>) -> (r: bool)
    ensures
        r == same_value(Value::Object(model_entries(a@)), Value::Object(model_entries(b@))),
    decreases a, 1nat,
{
    proof {
        lemma_model_entries(a@);
        lemma_model_entries(b@);
    }
    let ghost ma = model_entries(a@);
    let ghost mb = model_entries(b@);
    if a.len() != b.len() {
        return false;
    }
    let mut i: usize = 0;
    while i < a.len()
        invariant
            0 <= i <= a.len(),
            ma == model_entries(a@),
            mb == model_entries(b@),
            ma.len() == a.len(),
            forall|j: int| 0 <= j < a.len() ==> ma[j] == ((#[trigger] a@[j]).0@, a@[j].1.model()),
            forall|j: int| 0 <= j < i ==> match entry_value(mb, #[trigger] ma[j].0) {
                Some(w) => same_value(ma[j].1, w),
                None => false,
            },
        decreases a.len() - i,
    {
        proof {
            assert(decreases_to!(*a => a[i as int]));
        }
        match find_entry(b, &a[i].0) {
            Some(j) => {
                if !a[i].1.equals(&b[j].1) {
                    proof {
                        assert(ma[i as int].0 == a@[i as int].0@);
                    }
                    return false;
                }
            },
            None => {
                proof {
                    assert(ma[i as int].0 == a@[i as int].0@);
                }
                return false;
            },
        }
        proof {
            assert(ma[i as int].0 == a@[i as int].0@);
        }
        i = i + 1;
    }
    true
}

impl PartialEq for RuntimeVal {
    fn eq(&self, other: &RuntimeVal) -> (r: bool) {
        self.equals(other)
    }
}

impl vstd::std_specs::cmp::PartialEqSpecImpl for RuntimeVal {
    open spec fn obeys_eq_spec() -> bool {
        true
    }

    open spec fn eq_spec(&self, other: &RuntimeVal) -> bool {
        same_value(self.model(), other.model())
    }
}

impl Clone for RuntimeVal {
    fn clone(&self) -> (r: RuntimeVal)
        ensures
            r.model() == self.model(),
    {
        self.duplicate()
    }
}

impl RuntimeVal {
    /// A copy of the value, equal to it in meaning.
    pub fn duplicate(&self) -> (r: RuntimeVal)
        ensures
            r.model() == self.model(),
        decreases self, 0nat,
    {
        match self {
            RuntimeVal::Number(n) => RuntimeVal::Number(*n),
            RuntimeVal::Null => RuntimeVal::Null,
            RuntimeVal::Bool(b) => RuntimeVal::Bool(*b),
            RuntimeVal::Object(entries) => RuntimeVal::Object(duplicate_entries(entries)),
        }
    }
}

/// A copy of an object's entries, equal to them in meaning.
pub fn duplicate_entries(entries: &Vec<(String, RuntimeVal)>) -> (r: Vec<(String, RuntimeVal)>)
    ensures
        model_entries(r@) == model_entries(entries@),
    decreases entries, 1nat,
{
    let mut out: Vec<(String, RuntimeVal)> = Vec::new();
    let mut i: usize = 0;
    while i < entries.len()
        invariant
            0 <= i <= entries.len(),
            out.len() == i,
            forall|j: int| 0 <= j < i ==> #[trigger] out@[j].0@ == entries@[j].0@
                && out@[j].1.model() == entries@[j].1.model(),
        decreases entries.len() - i,
    {
        proof {
            assert(decreases_to!(*entries => entries[i as int]));
        }
        let v = entries[i].1.duplicate();
        out.push((entries[i].0.clone(), v));
        i = i + 1;
    }
    proof {
        lemma_model_entries(out@);
        lemma_model_entries(entries@);
        assert(model_entries(out@) =~= model_entries(entries@));
    }
    out
}

} // verus!

//! The render context: an ordered mapping from names to resolved values.
use vstd::prelude::*;
use crate::path::same_text;
use crate::trusted::{engine_bool, engine_int, engine_list, engine_map, engine_string};

verus! {

/// A field of an injected record (identity or date fields).
#[derive(Debug, Clone, PartialEq, Eq)]
pub enum Field {
    Str(String),
    Int(i64),
}

/// A resolved value.
#[derive(Debug, Clone, PartialEq, Eq)]
pub enum ContextValue {
    Str(String),
    List(Vec<String>),
    Int(i64),
    Bool(bool),
    /// A read-only record injected before resolution.
    Record(Vec<(String, Field)>),
}

/// The value bound to `name` in an ordered list of bindings: the first one.
pub open spec fn lookup(s: Seq<(Seq<char>, ContextValue)>, name: Seq<char>) -> Option<ContextValue>
    decreases s.len(),
{
    if s.len() == 0 {
        None
    } else if s[0].0 == name {
        Some(s[0].1)
    } else {
        lookup(s.drop_first(), name)
    }
}

/// Whether `name` is bound.
pub open spec fn binds(s: Seq<(Seq<char>, ContextValue)>, name: Seq<char>) -> bool {
    exists|i: int| 0 <= i < s.len() && s[i].0 == name
}

/// The bindings after binding `name` to `value`: the first binding of the
/// name is replaced in place, or a new one is appended.
pub open spec fn bind<T>(s: Seq<(Seq<char>, T)>, name: Seq<char>, value: T) -> Seq<(Seq<char>, T)>
    decreases s.len(),
{
    if s.len() == 0 {
        seq![(name, value)]
    } else if s[0].0 == name {
        s.update(0, (name, value))
    } else {
        seq![s[0]] + bind(s.drop_first(), name, value)
    }
}

/// An ordered mapping from names to values, in order of first binding.
pub struct RenderContext {
    entries: Vec<(String, ContextValue)>,
}

impl View for RenderContext {
    type V = Seq<(Seq<char>, ContextValue)>;

    closed spec fn view(&self) -> Seq<(Seq<char>, ContextValue)> {
        self.entries@.map_values(|e: (String, ContextValue)| (e.0@, e.1))
    }
}

impl RenderContext {
    /// An empty context.
    pub fn new() -> (r: RenderContext)
        ensures
            r@ == Seq::<(Seq<char>, ContextValue)>::empty(),
    {
        let r = RenderContext { entries: Vec::new() };
        assert(r@ =~= Seq::<(Seq<char>, ContextValue)>::empty());
        r
    }

    /// The number of bindings.
    pub fn len(&self) -> (r: usize)
        ensures
            r == self@.len(),
    {
        self.entries.len()
    }

    /// The position of the binding of `name`, if any.
    fn position(&self, name: &str) -> (r: Option<usize>)
        ensures
            match r {
                Some(i) => i < self@.len() && self@[i as int].0 == name@ && forall|j: int|
                    0 <= j < i ==> self@[j].0 != name@,
                None => forall|j: int| 0 <= j < self@.len() ==> self@[j].0 != name@,
            },
    {
        let mut i: usize = 0;
        while i < self.entries.len()
            invariant
                i <= self.entries.len(),
                self@.len() == self.entries.len(),
                forall|j: int| 0 <= j < i ==> self@[j].0 != name@,
            decreases self.entries.len() - i,
        {
            assert(self@[i as int].0 == self.entries@[i as int].0@);
            if same_text(self.entries[i].0.as_str(), name) {
                return Some(i);
            }
            i = i + 1;
        }
        None
    }

    /// The value bound to `name`, if any.
    pub fn get(&self, name: &str) -> (r: Option<&ContextValue>)
        ensures
            r matches Some(v) ==> lookup(self@, name@) == Some(*v),
            r is None ==> lookup(self@, name@) is None,
    {
        let p = self.position(name);
        proof { lemma_lookup_first(self@, name@, p); }
        match p {
            Some(i) => Some(&self.entries[i].1),
            None => None,
        }
    }

    /// Whether `name` is bound.
    pub fn contains(&self, name: &str) -> (r: bool)
        ensures
            r == binds(self@, name@),
    {
        let p = self.position(name);
        match p {
            Some(i) => {
                assert(self@[i as int].0 == name@);
                true
            },
            None => false,
        }
    }

    /// Binds `name` to `value`, replacing an earlier binding in place.
    pub fn insert(&mut self, name: String, value: ContextValue)
        ensures
            final(self)@ == bind(old(self)@, name@, value),
    {
        let p = self.position(name.as_str());
        proof { lemma_bind_at(old(self)@, name@, value, p); }
        let ghost nv = name@;
        match p {
            Some(i) => {
                self.entries.set(i, (name, value));
            },
            None => {
                self.entries.push((name, value));
            },
        }
        assert(self@ =~= bind(old(self)@, nv, value));
    }

    /// The bindings, in order.
    pub fn entries(&self) -> (r: &Vec<(String, ContextValue)>)
        ensures
            r@.map_values(|e: (String, ContextValue)| (e.0@, e.1)) == self@,
    {
        &self.entries
    }
}

/// One value as the template engine takes it.
pub(crate) fn engine_value(v: &ContextValue) -> minijinja::Value {
    match v {
        ContextValue::Str(s) => engine_string(s),
        ContextValue::Int(n) => engine_int(*n),
        ContextValue::Bool(b) => engine_bool(*b),
        ContextValue::List(items) => {
            let mut out: Vec<minijinja::Value> = Vec::new();
            let mut i: usize = 0;
            while i < items.len()
                invariant
                    i <= items.len(),
                decreases items.len() - i,
            {
                out.push(engine_string(&items[i]));
                i = i + 1;
            }
            engine_list(out)
        },
        ContextValue::Record(fields) => {
            let mut out: Vec<(String, minijinja::Value)> = Vec::new();
            let mut i: usize = 0;
            while i < fields.len()
                invariant
                    i <= fields.len(),
                decreases fields.len() - i,
            {
                let f = match &fields[i].1 {
                    Field::Str(s) => engine_string(s),
                    Field::Int(n) => engine_int(*n),
                };
                out.push((fields[i].0.clone(), f));
                i = i + 1;
            }
            engine_map(out)
        },
    }
}

proof fn lemma_lookup_first(s: Seq<(Seq<char>, ContextValue)>, name: Seq<char>, p: Option<usize>)
    requires
        match p {
            Some(i) => i < s.len() && s[i as int].0 == name && forall|j: int|
                0 <= j < i ==> s[j].0 != name,
            None => forall|j: int| 0 <= j < s.len() ==> s[j].0 != name,
        },
    ensures
        match p {
            Some(i) => lookup(s, name) == Some(s[i as int].1),
            None => lookup(s, name) is None,
        },
    decreases s.len(),
{
    if s.len() > 0 && s[0].0 != name {
        let q = match p {
            Some(i) => Some((i - 1) as usize),
            None => None,
        };
        assert forall|j: int| 0 <= j < s.len() - 1 && (p is None || j < p->0 - 1) implies s.drop_first()[j].0 != name by {
            assert(s.drop_first()[j] == s[j + 1]);
        }
        lemma_lookup_first(s.drop_first(), name, q);
    }
}

/// Binding replaces the first binding of the name in place, or appends.
pub proof fn lemma_bind_at<T>(s: Seq<(Seq<char>, T)>, name: Seq<char>, value: T, p: Option<usize>)
    requires
        match p {
            Some(i) => i < s.len() && s[i as int].0 == name && forall|j: int|
                0 <= j < i ==> s[j].0 != name,
            None => forall|j: int| 0 <= j < s.len() ==> s[j].0 != name,
        },
    ensures
        match p {
            Some(i) => bind(s, name, value) == s.update(i as int, (name, value)),
            None => bind(s, name, value) == s.push((name, value)),
        },
    decreases s.len(),
{
    if s.len() == 0 {
        assert(seq![(name, value)] =~= s.push((name, value)));
    } else if s[0].0 == name {
    } else {
        let q = match p {
            Some(i) => Some((i - 1) as usize),
            None => None,
        };
        assert forall|j: int| 0 <= j < s.len() - 1 && (p is None || j < p->0 - 1) implies s.drop_first()[j].0 != name by {
            assert(s.drop_first()[j] == s[j + 1]);
        }
        lemma_bind_at(s.drop_first(), name, value, q);
        match p {
            Some(i) => {
                assert(seq![s[0]] + s.drop_first().update(i - 1, (name, value)) =~= s.update(i as int, (name, value)));
            },
            None => {
                assert(seq![s[0]] + s.drop_first().push((name, value)) =~= s.push((name, value)));
            },
        }
    }
}

/// Binding a name leaves the binding of every other name as it was: a
/// name never bound stays absent.
pub proof fn lemma_bind_other<T>(s: Seq<(Seq<char>, T)>, name: Seq<char>, value: T, other: Seq<char>)
    requires
        other != name,
    ensures
        forall|i: int| 0 <= i < bind(s, name, value).len() && bind(s, name, value)[i].0 == other
            ==> exists|j: int| 0 <= j < s.len() && s[j] == #[trigger] bind(s, name, value)[i],
        forall|j: int| 0 <= j < s.len() && s[j].0 == other ==> exists|i: int|
            0 <= i < bind(s, name, value).len() && bind(s, name, value)[i] == #[trigger] s[j],
    decreases s.len(),
{
    if s.len() > 0 && s[0].0 != name {
        lemma_bind_other(s.drop_first(), name, value, other);
        let t = bind(s.drop_first(), name, value);
        let b = bind(s, name, value);
        assert(b == seq![s[0]] + t);
        assert forall|i: int| 0 <= i < b.len() && b[i].0 == other implies exists|j: int|
            0 <= j < s.len() && s[j] == #[trigger] b[i] by {
            if i == 0 {
                assert(s[0] == b[0]);
            } else {
                assert(b[i] == t[i - 1]);
                let j = choose|j: int| 0 <= j < s.drop_first().len() && s.drop_first()[j] == t[i - 1];
                assert(s[j + 1] == b[i]);
            }
        }
        assert forall|j: int| 0 <= j < s.len() && s[j].0 == other implies exists|i: int|
            0 <= i < b.len() && b[i] == #[trigger] s[j] by {
            if j == 0 {
                assert(b[0] == s[0]);
            } else {
                assert(s[j] == s.drop_first()[j - 1]);
                let i = choose|i: int| 0 <= i < t.len() && t[i] == s.drop_first()[j - 1];
                assert(b[i + 1] == s[j]);
            }
        }
    } else if s.len() > 0 {
        let b = bind(s, name, value);
        assert forall|i: int| 0 <= i < b.len() && b[i].0 == other implies exists|j: int|
            0 <= j < s.len() && s[j] == #[trigger] b[i] by {
            assert(i != 0);
            assert(s[i] == b[i]);
        }
        assert forall|j: int| 0 <= j < s.len() && s[j].0 == other implies exists|i: int|
            0 <= i < b.len() && b[i] == #[trigger] s[j] by {
            assert(j != 0);
            assert(b[j] == s[j]);
        }
    } else {
        let b = bind(s, name, value);
        assert(b.len() == 1 && b[0].0 == name);
    }
}

} // verus!

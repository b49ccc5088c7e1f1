use vstd::prelude::*;
use crate::minifun::ast::{copy_term, Term};
use crate::text::str_eq;

verus! {

/// The values of MiniFun terms. A function value keeps the environment it
/// was made in; a recursive one also its own name.
#[derive(Debug)]
pub enum Value {
    Int(i32),
    Bool(bool),
    Closure { param: String, body: Box<Term>, env: Environment },
    RecursiveClosure { name: String, param: String, body: Box<Term>, env: Environment },
}

/// The values of the variables in scope; an earlier entry hides a later one
/// with the same name.
#[derive(Debug)]
pub struct Environment {
    pub entries: Vec<(String, Value)>,
}

/// A value, with names taken by their characters and environments as maps.
pub enum ValueView {
    Int(i32),
    Bool(bool),
    Closure { param: Seq<char>, body: Term, env: Map<Seq<char>, ValueView> },
    RecursiveClosure { name: Seq<char>, param: Seq<char>, body: Term, env: Map<Seq<char>, ValueView> },
}

pub open spec fn value_view(v: Value) -> ValueView
    decreases v,
{
    match v {
        Value::Int(n) => ValueView::Int(n),
        Value::Bool(b) => ValueView::Bool(b),
        Value::Closure { param, body, env } => ValueView::Closure {
            param: param@,
            body: *body,
            env: env_view(env.entries@),
        },
        Value::RecursiveClosure { name, param, body, env } => ValueView::RecursiveClosure {
            name: name@,
            param: param@,
            body: *body,
            env: env_view(env.entries@),
        },
    }
}

/// The map that a list of entries denotes; an earlier entry hides a later
/// one with the same name.
pub open spec fn env_view(s: Seq<(String, Value)>) -> Map<Seq<char>, ValueView>
    decreases s,
{
    if s.len() == 0 {
        Map::empty()
    } else {
        env_view(s.subrange(1, s.len() as int)).insert(s[0].0@, value_view(s[0].1))
    }
}

impl View for Value {
    type V = ValueView;

    open spec fn view(&self) -> ValueView {
        value_view(*self)
    }
}

impl View for Environment {
    type V = Map<Seq<char>, ValueView>;

    open spec fn view(&self) -> Map<Seq<char>, ValueView> {
        env_view(self.entries@)
    }
}

/// A copy of a value, with the same view.
pub fn copy_value(v: &Value) -> (r: Value)
    ensures
        r@ == v@,
    decreases v,
{
    match v {
        Value::Int(n) => Value::Int(*n),
        Value::Bool(b) => Value::Bool(*b),
        Value::Closure { param, body, env } => Value::Closure {
            param: param.clone(),
            body: Box::new(copy_term(body)),
            env: copy_env(env),
        },
        Value::RecursiveClosure { name, param, body, env } => Value::RecursiveClosure {
            name: name.clone(),
            param: param.clone(),
            body: Box::new(copy_term(body)),
            env: copy_env(env),
        },
    }
}

/// A copy of an environment, with the same view.
pub fn copy_env(e: &Environment) -> (r: Environment)
    ensures
        r@ == e@,
    decreases e,
{
    let mut entries: Vec<(String, Value)> = Vec::new();
    let mut i: usize = 0;
    while i < e.entries.len()
        invariant
            i <= e.entries.len(),
            entries.len() == i,
            forall|j: int| #![trigger entries@[j]]
                0 <= j < i ==> entries@[j].0@ == e.entries@[j].0@ && entries@[j].1@ == e.entries@[j].1@,
        decreases e.entries.len() - i,
    {
        proof {
            assert(decreases_to!(e => e.entries));
            assert(decreases_to!(e.entries => e.entries@));
            assert(decreases_to!(e.entries@ => e.entries@[i as int]));
        }
        let value = copy_value(&e.entries[i].1);
        entries.push((e.entries[i].0.clone(), value));
        i = i + 1;
    }
    proof {
        lemma_same_entries(e.entries@, entries@);
    }
    Environment { entries }
}

proof fn lemma_same_entries(a: Seq<(String, Value)>, b: Seq<(String, Value)>)
    requires
        a.len() == b.len(),
        forall|j: int| #![trigger b[j]] 0 <= j < a.len() ==> b[j].0@ == a[j].0@ && b[j].1@ == a[j].1@,
    ensures
        env_view(a) == env_view(b),
    decreases a.len(),
{
    if a.len() > 0 {
        let a1 = a.subrange(1, a.len() as int);
        let b1 = b.subrange(1, b.len() as int);
        assert forall|j: int| #![trigger b1[j]] 0 <= j < a1.len() implies b1[j].0@ == a1[j].0@
            && b1[j].1@ == a1[j].1@ by {
            assert(b[j + 1] == b1[j]);
            assert(a[j + 1] == a1[j]);
        }
        lemma_same_entries(a1, b1);
        assert(b[0].1@ == a[0].1@);
    }
}

impl Environment {
    /// No variable in scope.
    pub fn new() -> (r: Self)
        ensures
            r@ == Map::<Seq<char>, ValueView>::empty(),
    {
        Environment { entries: Vec::new() }
    }

    /// The value of `name`, if it has one.
    pub fn get(&self, name: &str) -> (r: Option<&Value>)
        ensures
            r is Some <==> self@.contains_key(name@),
            r matches Some(v) ==> v@ == self@[name@],
    {
        let mut i: usize = 0;
        assert(self.entries@.subrange(0, self.entries@.len() as int) =~= self.entries@);
        while i < self.entries.len()
            invariant
                i <= self.entries.len(),
                env_view(self.entries@.subrange(i as int, self.entries@.len() as int)).contains_key(name@)
                    == env_view(self.entries@).contains_key(name@),
                env_view(self.entries@.subrange(i as int, self.entries@.len() as int)).contains_key(name@)
                    ==> env_view(self.entries@.subrange(i as int, self.entries@.len() as int))[name@]
                    == env_view(self.entries@)[name@],
            decreases self.entries.len() - i,
        {
            let ghost rest = self.entries@.subrange(i as int, self.entries@.len() as int);
            assert(rest.subrange(1, rest.len() as int) =~= self.entries@.subrange(
                i + 1,
                self.entries@.len() as int,
            ));
            if str_eq(self.entries[i].0.as_str(), name) {
                return Some(&self.entries[i].1);
            }
            i = i + 1;
        }
        None
    }

    /// Binds `name` to `value`, hiding any earlier binding of it.
    pub fn insert(&mut self, name: String, value: Value)
        ensures
            final(self)@ == old(self)@.insert(name@, value@),
    {
        let ghost old_entries = self.entries@;
        self.entries.insert(0, (name, value));
        assert(self.entries@.subrange(1, self.entries@.len() as int) =~= old_entries);
    }
}

/// No variable in scope.
pub fn empty_env() -> (r: Environment)
    ensures
        r@ == Map::<Seq<char>, ValueView>::empty(),
{
    Environment::new()
}

} // verus!

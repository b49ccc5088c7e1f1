use vstd::prelude::*;
use crate::text::str_eq;
use vstd::string::*;

verus! {

/// Errors raised while running a MiniImp program.
#[derive(Debug, Clone, PartialEq, Eq)]
pub enum RuntimeError {
    /// A variable was read before any assignment to it.
    UndefinedVariable(String),
    /// An arithmetic result does not fit in an `i32`.
    ArithmeticOverflow,
    /// A loop ran for more iterations than the evaluator allows.
    OutOfFuel,
}

/// The memory of a running MiniImp program: a finite map from variable names
/// to integers. Each name occurs at most once among the entries.
#[derive(Debug, Clone)]
pub struct Memory {
    variables: Vec<(String, i32)>,
}

/// The map that a list of entries denotes; an earlier entry hides a later one
/// with the same name.
pub open spec fn entries_map(s: Seq<(String, i32)>) -> Map<Seq<char>, i32>
    decreases s.len(),
{
    if s.len() == 0 {
        Map::empty()
    } else {
        entries_map(s.drop_first()).insert(s[0].0@, s[0].1)
    }
}

/// The index of the first entry named `k`, or the length when there is none.
pub open spec fn first_index(s: Seq<(String, i32)>, k: Seq<char>) -> int
    decreases s.len(),
{
    if s.len() == 0 {
        0
    } else if s[0].0@ == k {
        0
    } else {
        1 + first_index(s.drop_first(), k)
    }
}

proof fn lemma_first_index(s: Seq<(String, i32)>, k: Seq<char>)
    ensures
        0 <= first_index(s, k) <= s.len(),
        first_index(s, k) < s.len() ==> s[first_index(s, k)].0@ == k,
        forall|j: int| 0 <= j < first_index(s, k) ==> s[j].0@ != k,
        entries_map(s).contains_key(k) <==> first_index(s, k) < s.len(),
        first_index(s, k) < s.len() ==> entries_map(s)[k] == s[first_index(s, k)].1,
    decreases s.len(),
{
    if s.len() > 0 {
        lemma_first_index(s.drop_first(), k);
        assert forall|j: int| 0 <= j < first_index(s, k) implies s[j].0@ != k by {
            if j > 0 {
                assert(s[j] == s.drop_first()[j - 1]);
            }
        }
    }
}

proof fn lemma_update_first(s: Seq<(String, i32)>, i: int, name: String, v: i32)
    requires
        0 <= i < s.len(),
        s[i].0@ == name@,
        forall|j: int| 0 <= j < i ==> s[j].0@ != name@,
    ensures
        entries_map(s.update(i, (name, v))) == entries_map(s).insert(name@, v),
    decreases i,
{
    let t = s.update(i, (name, v));
    if i == 0 {
        assert(t.drop_first() =~= s.drop_first());
        assert(entries_map(t) =~= entries_map(s).insert(name@, v));
    } else {
        assert(t.drop_first() =~= s.drop_first().update(i - 1, (name, v)));
        lemma_update_first(s.drop_first(), i - 1, name, v);
        assert(entries_map(t) =~= entries_map(s).insert(name@, v));
    }
}

proof fn lemma_push_fresh(s: Seq<(String, i32)>, name: String, v: i32)
    requires
        !entries_map(s).contains_key(name@),
    ensures
        entries_map(s.push((name, v))) == entries_map(s).insert(name@, v),
    decreases s.len(),
{
    if s.len() == 0 {
        assert(s.push((name, v)).drop_first() =~= s);
        assert(entries_map(s.push((name, v))) =~= entries_map(s).insert(name@, v));
    } else {
        assert(s.push((name, v)).drop_first() =~= s.drop_first().push((name, v)));
        lemma_push_fresh(s.drop_first(), name, v);
        assert(entries_map(s.push((name, v))) =~= entries_map(s).insert(name@, v));
    }
}

impl View for Memory {
    type V = Map<Seq<char>, i32>;

    closed spec fn view(&self) -> Map<Seq<char>, i32> {
        entries_map(self.variables@)
    }
}

impl Memory {
    /// The empty memory.
    pub fn new() -> (m: Self)
        ensures
            m@ == Map::<Seq<char>, i32>::empty(),
    {
        Memory { variables: Vec::new() }
    }

    /// The position of the entry named `name`, if there is one.
    fn position(&self, name: &str) -> (r: Option<usize>)
        ensures
            match r {
                Some(i) => i == first_index(self.variables@, name@) && i < self.variables.len(),
                None => first_index(self.variables@, name@) == self.variables.len(),
            },
    {
        proof {
            lemma_first_index(self.variables@, name@);
        }
        let mut i: usize = 0;
        while i < self.variables.len()
            invariant
                i <= self.variables.len(),
                forall|j: int| 0 <= j < i ==> self.variables@[j].0@ != name@,
                0 <= first_index(self.variables@, name@) <= self.variables@.len(),
                first_index(self.variables@, name@) < self.variables@.len()
                    ==> self.variables@[first_index(self.variables@, name@)].0@ == name@,
                forall|j: int| 0 <= j < first_index(self.variables@, name@)
                    ==> self.variables@[j].0@ != name@,
            decreases self.variables.len() - i,
        {
            if str_eq(self.variables[i].0.as_str(), name) {
                return Some(i);
            }
            i = i + 1;
        }
        None
    }

    /// The value of `name`, if it has one.
    pub fn lookup(&self, name: &str) -> (r: Option<i32>)
        ensures
            r == (if self@.contains_key(name@) { Some(self@[name@]) } else { None::<i32> }),
    {
        proof {
            lemma_first_index(self.variables@, name@);
        }
        match self.position(name) {
            Some(i) => Some(self.variables[i].1),
            None => None,
        }
    }

    /// The value of `name`; an error when it has none.
    pub fn get(&self, name: &str) -> (r: Result<i32, RuntimeError>)
        ensures
            self@.contains_key(name@) ==> r == Ok::<i32, RuntimeError>(self@[name@]),
            !self@.contains_key(name@) ==> (r matches Err(RuntimeError::UndefinedVariable(x))
                && x@ == name@),
    {
        match self.lookup(name) {
            Some(v) => Ok(v),
            None => Err(RuntimeError::UndefinedVariable(String::from_str(name))),
        }
    }

    /// Binds `name` to `value`, replacing any earlier value.
    pub fn set(&mut self, name: String, value: i32)
        ensures
            final(self)@ == old(self)@.insert(name@, value),
    {
        proof {
            lemma_first_index(self.variables@, name@);
        }
        match self.position(name.as_str()) {
            Some(i) => {
                proof {
                    lemma_update_first(self.variables@, i as int, name, value);
                }
                self.variables.set(i, (name, value));
            },
            None => {
                proof {
                    lemma_push_fresh(self.variables@, name, value);
                }
                self.variables.push((name, value));
            },
        }
    }

    /// All bindings, as (name, value) pairs.
    pub fn all(&self) -> (r: &Vec<(String, i32)>)
        ensures
            entries_map(r@) == self@,
    {
        &self.variables
    }
}

} // verus!

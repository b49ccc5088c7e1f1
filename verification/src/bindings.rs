use vstd::prelude::*;
use crate::text::str_eq;

verus! {

/// A value that can be copied into an equal one, equality taken by views.
pub trait Dup: View + Sized {
    fn dup(&self) -> (r: Self)
        ensures
            r@ == self@,
    ;
}

/// A finite map from names to values, kept as a list of entries in which
/// each name occurs at most once.
#[derive(Debug)]
pub struct Bindings<V> {
    entries: Vec<(String, V)>,
}

/// The map that a list of entries denotes; an earlier entry hides a later one
/// with the same name.
pub open spec fn bindings_map<V: View>(s: Seq<(String, V)>) -> Map<Seq<char>, V::V>
    decreases s.len(),
{
    if s.len() == 0 {
        Map::empty()
    } else {
        bindings_map(s.drop_first()).insert(s[0].0@, s[0].1@)
    }
}

/// No name occurs twice among the entries.
pub open spec fn keys_unique<V>(s: Seq<(String, V)>) -> bool {
    forall|i: int, j: int| 0 <= i < j < s.len() ==> (#[trigger] s[i]).0@ != (#[trigger] s[j]).0@
}

/// The index of the first entry named `k`, or the length when there is none.
pub open spec fn first_key_index<V>(s: Seq<(String, V)>, k: Seq<char>) -> int
    decreases s.len(),
{
    if s.len() == 0 {
        0
    } else if s[0].0@ == k {
        0
    } else {
        1 + first_key_index(s.drop_first(), k)
    }
}

pub proof fn lemma_first_key_index<V: View>(s: Seq<(String, V)>, k: Seq<char>)
    ensures
        0 <= first_key_index(s, k) <= s.len(),
        first_key_index(s, k) < s.len() ==> s[first_key_index(s, k)].0@ == k,
        forall|j: int| 0 <= j < first_key_index(s, k) ==> s[j].0@ != k,
        bindings_map(s).contains_key(k) <==> first_key_index(s, k) < s.len(),
        first_key_index(s, k) < s.len() ==> bindings_map(s)[k] == s[first_key_index(s, k)].1@,
    decreases s.len(),
{
    if s.len() > 0 {
        lemma_first_key_index(s.drop_first(), k);
        assert forall|j: int| 0 <= j < first_key_index(s, k) implies s[j].0@ != k by {
            if j > 0 {
                assert(s[j] == s.drop_first()[j - 1]);
            }
        }
    }
}

/// With unique names, every entry is in the map with its value.
pub proof fn lemma_unique_entries<V: View>(s: Seq<(String, V)>)
    requires
        keys_unique(s),
    ensures
        forall|i: int| #![trigger s[i]]
            0 <= i < s.len() ==> bindings_map(s).contains_key(s[i].0@) && bindings_map(s)[s[i].0@]
                == s[i].1@,
        forall|k: Seq<char>| #[trigger] bindings_map(s).contains_key(k) ==> exists|i: int|
            0 <= i < s.len() && (#[trigger] s[i]).0@ == k,
{
    assert forall|i: int| #![trigger s[i]] 0 <= i < s.len() implies bindings_map(s).contains_key(s[i].0@)
        && bindings_map(s)[s[i].0@] == s[i].1@ by {
        lemma_first_key_index(s, s[i].0@);
        let f = first_key_index(s, s[i].0@);
        if f < i {
            assert(s[f].0@ == s[i].0@);
        }
    }
    assert forall|k: Seq<char>| #[trigger] bindings_map(s).contains_key(k) implies exists|i: int|
        0 <= i < s.len() && (#[trigger] s[i]).0@ == k by {
        lemma_first_key_index(s, k);
        let f = first_key_index(s, k);
        assert(s[f].0@ == k);
    }
}

proof fn lemma_update_first<V: View>(s: Seq<(String, V)>, i: int, name: String, v: V)
    requires
        0 <= i < s.len(),
        s[i].0@ == name@,
        forall|j: int| 0 <= j < i ==> s[j].0@ != name@,
    ensures
        bindings_map(s.update(i, (name, v))) == bindings_map(s).insert(name@, v@),
    decreases i,
{
    let t = s.update(i, (name, v));
    if i == 0 {
        assert(t.drop_first() =~= s.drop_first());
        assert(bindings_map(t) =~= bindings_map(s).insert(name@, v@));
    } else {
        assert(t.drop_first() =~= s.drop_first().update(i - 1, (name, v)));
        lemma_update_first(s.drop_first(), i - 1, name, v);
        assert(bindings_map(t) =~= bindings_map(s).insert(name@, v@));
    }
}

proof fn lemma_push_fresh<V: View>(s: Seq<(String, V)>, name: String, v: V)
    requires
        !bindings_map(s).contains_key(name@),
    ensures
        bindings_map(s.push((name, v))) == bindings_map(s).insert(name@, v@),
    decreases s.len(),
{
    if s.len() == 0 {
        assert(s.push((name, v)).drop_first() =~= s);
        assert(bindings_map(s.push((name, v))) =~= bindings_map(s).insert(name@, v@));
    } else {
        assert(s.push((name, v)).drop_first() =~= s.drop_first().push((name, v)));
        lemma_push_fresh(s.drop_first(), name, v);
        assert(bindings_map(s.push((name, v))) =~= bindings_map(s).insert(name@, v@));
    }
}

impl<V: View> View for Bindings<V> {
    type V = Map<Seq<char>, V::V>;

    closed spec fn view(&self) -> Map<Seq<char>, V::V> {
        bindings_map(self.entries@)
    }
}

impl<V: Dup> Bindings<V> {
    /// The names are unique among the entries.
    pub closed spec fn wf(&self) -> bool {
        keys_unique(self.entries@)
    }

    /// No bindings.
    pub fn new() -> (r: Self)
        ensures
            r.wf(),
            r@ == Map::<Seq<char>, V::V>::empty(),
    {
        Bindings { entries: Vec::new() }
    }

    /// The position of the entry named `name`, if there is one.
    fn position(&self, name: &str) -> (r: Option<usize>)
        ensures
            match r {
                Some(i) => i == first_key_index(self.entries@, name@) && i < self.entries.len(),
                None => first_key_index(self.entries@, name@) == self.entries.len(),
            },
    {
        proof {
            lemma_first_key_index(self.entries@, name@);
        }
        let mut i: usize = 0;
        while i < self.entries.len()
            invariant
                i <= self.entries.len(),
                forall|j: int| 0 <= j < i ==> self.entries@[j].0@ != name@,
                0 <= first_key_index(self.entries@, name@) <= self.entries@.len(),
                first_key_index(self.entries@, name@) < self.entries@.len()
                    ==> self.entries@[first_key_index(self.entries@, name@)].0@ == name@,
                forall|j: int| 0 <= j < first_key_index(self.entries@, name@)
                    ==> self.entries@[j].0@ != name@,
            decreases self.entries.len() - i,
        {
            if str_eq(self.entries[i].0.as_str(), name) {
                return Some(i);
            }
            i = i + 1;
        }
        None
    }

    /// The value bound to `name`, if any.
    pub fn get(&self, name: &str) -> (r: Option<&V>)
        ensures
            r is Some <==> self@.contains_key(name@),
            r matches Some(v) ==> v@ == self@[name@],
    {
        proof {
            lemma_first_key_index(self.entries@, name@);
        }
        match self.position(name) {
            Some(i) => Some(&self.entries[i].1),
            None => None,
        }
    }

    /// Binds `name` to `value`, replacing any earlier binding of it.
    pub fn insert(&mut self, name: String, value: V)
        requires
            old(self).wf(),
        ensures
            final(self).wf(),
            final(self)@ == old(self)@.insert(name@, value@),
    {
        proof {
            lemma_first_key_index(self.entries@, name@);
        }
        match self.position(name.as_str()) {
            Some(i) => {
                proof {
                    lemma_update_first(self.entries@, i as int, name, value);
                }
                self.entries.set(i, (name, value));
            },
            None => {
                proof {
                    lemma_push_fresh(self.entries@, name, value);
                }
                self.entries.push((name, value));
            },
        }
    }

    /// A copy with the same bindings.
    pub fn copy(&self) -> (r: Self)
        requires
            self.wf(),
        ensures
            r.wf(),
            r@ == self@,
    {
        let mut entries: Vec<(String, V)> = Vec::new();
        let mut i: usize = 0;
        while i < self.entries.len()
            invariant
                i <= self.entries.len(),
                entries.len() == i,
                forall|j: int| #![trigger entries@[j]]
                    0 <= j < i ==> entries@[j].0@ == self.entries@[j].0@ && entries@[j].1@
                        == self.entries@[j].1@,
            decreases self.entries.len() - i,
        {
            entries.push((self.entries[i].0.clone(), self.entries[i].1.dup()));
            i = i + 1;
        }
        let r = Bindings { entries };
        proof {
            lemma_same_keys_map(self.entries@, r.entries@);
        }
        r
    }

    /// The entries, each name once.
    pub fn entries(&self) -> (r: &Vec<(String, V)>)
        requires
            self.wf(),
        ensures
            keys_unique(r@),
            bindings_map(r@) == self@,
    {
        &self.entries
    }
}

/// Two lists with the same names and values, place by place, denote the
/// same map.
pub proof fn lemma_same_keys_map<V: View>(a: Seq<(String, V)>, b: Seq<(String, V)>)
    requires
        a.len() == b.len(),
        forall|j: int| #![trigger b[j]] 0 <= j < a.len() ==> b[j].0@ == a[j].0@ && b[j].1@ == a[j].1@,
    ensures
        bindings_map(a) == bindings_map(b),
        keys_unique(a) ==> keys_unique(b),
    decreases a.len(),
{
    if a.len() > 0 {
        assert forall|j: int| #![trigger b.drop_first()[j]] 0 <= j < a.len() - 1 implies b.drop_first()[j].0@
            == a.drop_first()[j].0@ && b.drop_first()[j].1@ == a.drop_first()[j].1@ by {
            assert(b[j + 1] == b.drop_first()[j]);
        }
        lemma_same_keys_map(a.drop_first(), b.drop_first());
    }
    if keys_unique(a) {
        assert forall|i: int, j: int| 0 <= i < j < b.len() implies (#[trigger] b[i]).0@ != (
        #[trigger] b[j]).0@ by {
            assert(a[i].0@ != a[j].0@);
        }
    }
}

} // verus!

use vstd::prelude::*;
use crate::text::{
    chars_before, lemma_chars_before_total, lemma_chars_before_transitive, str_before, str_eq,
};

verus! {

/// What a set can hold: values compared by their views.
pub trait SetElement: View + Sized {
    /// Whether both values have the same view.
    fn same_as(&self, other: &Self) -> (r: bool)
        ensures
            r == (self@ == other@),
    ;

    /// A value with the same view.
    fn duplicate(&self) -> (r: Self)
        ensures
            r@ == self@,
    ;
}

impl SetElement for String {
    fn same_as(&self, other: &Self) -> (r: bool) {
        self.eq(other)
    }

    fn duplicate(&self) -> (r: Self) {
        self.clone()
    }
}

/// A finite set, of the views of the items it holds.
#[derive(Debug)]
pub struct ItemSet<T> {
    items: Vec<T>,
}

/// A set of variable names.
pub type VariableSet = ItemSet<String>;

/// The views held by a list.
pub open spec fn names_of<T: View>(items: Seq<T>) -> Set<T::V> {
    Set::new(|x: T::V| exists|i: int| 0 <= i < items.len() && #[trigger] items[i]@ == x)
}

impl<T: View> View for ItemSet<T> {
    type V = Set<T::V>;

    closed spec fn view(&self) -> Set<T::V> {
        names_of(self.items@)
    }
}

impl<T: SetElement> ItemSet<T> {
    /// The empty set.
    pub fn new() -> (r: Self)
        ensures
            r@ == Set::<T::V>::empty(),
    {
        let r = ItemSet { items: Vec::new() };
        assert(r@ =~= Set::<T::V>::empty());
        r
    }

    /// The set holding one name.
    pub fn singleton(name: T) -> (r: Self)
        ensures
            r@ == set![name@],
    {
        let mut r = ItemSet::new();
        r.insert(name);
        assert(r@ =~= set![name@]);
        r
    }

    /// The set of the given names.
    pub fn from_names(names: Vec<T>) -> (r: Self)
        ensures
            r@ == names_of(names@),
    {
        let mut r = ItemSet::new();
        let mut i: usize = 0;
        while i < names.len()
            invariant
                i <= names.len(),
                r@ == names_of(names@.subrange(0, i as int)),
            decreases names.len() - i,
        {
            r.insert(names[i].duplicate());
            i = i + 1;
            assert(r@ =~= names_of(names@.subrange(0, i as int))) by {
                assert forall|x: T::V| r@.contains(x) implies names_of(
                    names@.subrange(0, i as int),
                ).contains(x) by {
                    if x == names@[i - 1]@ {
                        assert(names@.subrange(0, i as int)[i - 1]@ == x);
                    } else {
                        let k = choose|k: int| 0 <= k < i - 1 && #[trigger] names@.subrange(0, i - 1)[k]@ == x;
                        assert(names@.subrange(0, i as int)[k]@ == x);
                    }
                }
                assert forall|x: T::V| names_of(names@.subrange(0, i as int)).contains(x)
                    implies r@.contains(x) by {
                    let k = choose|k: int| 0 <= k < i && #[trigger] names@.subrange(0, i as int)[k]@ == x;
                    if k < i - 1 {
                        assert(names@.subrange(0, i - 1)[k]@ == x);
                    }
                }
            }
        }
        assert(names@.subrange(0, names.len() as int) =~= names@);
        r
    }

    /// Whether `name` belongs to the set.
    pub fn contains(&self, name: &T) -> (r: bool)
        ensures
            r == self@.contains(name@),
    {
        let mut i: usize = 0;
        while i < self.items.len()
            invariant
                i <= self.items.len(),
                forall|j: int| 0 <= j < i ==> self.items@[j]@ != name@,
            decreases self.items.len() - i,
        {
            if self.items[i].same_as(name) {
                return true;
            }
            i = i + 1;
        }
        false
    }

    /// Adds `name` to the set.
    pub fn insert(&mut self, name: T)
        ensures
            final(self)@ == old(self)@.insert(name@),
    {
        if !self.contains(&name) {
            let ghost old_items = self.items@;
            self.items.push(name);
            assert(self@ =~= old(self)@.insert(name@)) by {
                assert forall|x: T::V| self@.contains(x) implies old(self)@.insert(
                    name@,
                ).contains(x) by {
                    let k = choose|k: int| 0 <= k < self.items@.len() && #[trigger] self.items@[k]@ == x;
                    if k < old_items.len() {
                        assert(old_items[k]@ == x);
                    }
                }
                assert forall|x: T::V| old(self)@.insert(name@).contains(x) implies self@.contains(
                    x,
                ) by {
                    if x == name@ {
                        assert(self.items@[old_items.len() as int]@ == x);
                    } else {
                        let k = choose|k: int| 0 <= k < old_items.len() && #[trigger] old_items[k]@ == x;
                        assert(self.items@[k]@ == x);
                    }
                }
            }
        } else {
            assert(self@ =~= old(self)@.insert(name@));
        }
    }

    /// The items of the set.
    pub fn to_vec(&self) -> (r: Vec<T>)
        ensures
            names_of(r@) == self@,
    {
        let mut r: Vec<T> = Vec::new();
        let mut i: usize = 0;
        while i < self.items.len()
            invariant
                i <= self.items.len(),
                r.len() == i,
                forall|j: int| 0 <= j < i ==> (#[trigger] r@[j])@ == self.items@[j]@,
            decreases self.items.len() - i,
        {
            r.push(self.items[i].duplicate());
            i = i + 1;
        }
        assert(names_of(r@) =~= names_of(self.items@)) by {
            assert forall|x: T::V| names_of(r@).contains(x) implies names_of(self.items@).contains(x) by {
                let k = choose|k: int| 0 <= k < r@.len() && #[trigger] r@[k]@ == x;
                assert(self.items@[k]@ == x);
            }
            assert forall|x: T::V| names_of(self.items@).contains(x) implies names_of(r@).contains(x) by {
                let k = choose|k: int| 0 <= k < self.items@.len() && #[trigger] self.items@[k]@ == x;
                assert(r@[k]@ == x);
            }
        }
        r
    }

    /// A set with the same names.
    pub fn copy(&self) -> (r: Self)
        ensures
            r@ == self@,
    {
        let r = ItemSet { items: self.to_vec() };
        r
    }

    /// Adds every name of `other`.
    pub fn extend(&mut self, other: &ItemSet<T>)
        ensures
            final(self)@ == old(self)@.union(other@),
    {
        let names = other.to_vec();
        let mut i: usize = 0;
        while i < names.len()
            invariant
                i <= names.len(),
                names_of(names@) == other@,
                self@ == old(self)@.union(names_of(names@.subrange(0, i as int))),
            decreases names.len() - i,
        {
            let ghost before = self@;
            self.insert(names[i].duplicate());
            i = i + 1;
            assert(self@ =~= old(self)@.union(names_of(names@.subrange(0, i as int)))) by {
                let s = names@.subrange(0, i as int);
                let s0 = names@.subrange(0, i - 1);
                assert forall|x: T::V| names_of(s).contains(x) implies (names_of(s0).contains(x)
                    || x == names@[i - 1]@) by {
                    let k = choose|k: int| 0 <= k < s.len() && #[trigger] s[k]@ == x;
                    if k < i - 1 {
                        assert(s0[k]@ == x);
                    }
                }
                assert forall|x: T::V| names_of(s0).contains(x) implies names_of(s).contains(x) by {
                    let k = choose|k: int| 0 <= k < s0.len() && #[trigger] s0[k]@ == x;
                    assert(s[k]@ == x);
                }
                assert(s[i - 1]@ == names@[i - 1]@);
            }
        }
        assert(names@.subrange(0, names.len() as int) =~= names@);
    }

    /// The union of two sets.
    pub fn union(&self, other: &ItemSet<T>) -> (r: Self)
        ensures
            r@ == self@.union(other@),
    {
        let mut r = self.copy();
        r.extend(other);
        r
    }

    /// The names of `self` that are not in `other`.
    pub fn difference(&self, other: &ItemSet<T>) -> (r: Self)
        ensures
            r@ == self@.difference(other@),
    {
        let names = self.to_vec();
        let mut r = ItemSet::new();
        let mut i: usize = 0;
        while i < names.len()
            invariant
                i <= names.len(),
                names_of(names@) == self@,
                r@ == names_of(names@.subrange(0, i as int)).difference(other@),
            decreases names.len() - i,
        {
            if !other.contains(&names[i]) {
                r.insert(names[i].duplicate());
            }
            i = i + 1;
            assert(r@ =~= names_of(names@.subrange(0, i as int)).difference(other@)) by {
                let s = names@.subrange(0, i as int);
                let s0 = names@.subrange(0, i - 1);
                assert forall|x: T::V| names_of(s).contains(x) implies (names_of(s0).contains(x)
                    || x == names@[i - 1]@) by {
                    let k = choose|k: int| 0 <= k < s.len() && #[trigger] s[k]@ == x;
                    if k < i - 1 {
                        assert(s0[k]@ == x);
                    }
                }
                assert forall|x: T::V| names_of(s0).contains(x) implies names_of(s).contains(x) by {
                    let k = choose|k: int| 0 <= k < s0.len() && #[trigger] s0[k]@ == x;
                    assert(s[k]@ == x);
                }
                assert(s[i - 1]@ == names@[i - 1]@);
            }
        }
        assert(names@.subrange(0, names.len() as int) =~= names@);
        r
    }

    /// The names that belong to both sets.
    pub fn intersection(&self, other: &ItemSet<T>) -> (r: Self)
        ensures
            r@ == self@.intersect(other@),
    {
        let names = self.to_vec();
        let mut r = ItemSet::new();
        let mut i: usize = 0;
        while i < names.len()
            invariant
                i <= names.len(),
                names_of(names@) == self@,
                r@ == names_of(names@.subrange(0, i as int)).intersect(other@),
            decreases names.len() - i,
        {
            if other.contains(&names[i]) {
                r.insert(names[i].duplicate());
            }
            i = i + 1;
            assert(r@ =~= names_of(names@.subrange(0, i as int)).intersect(other@)) by {
                let s = names@.subrange(0, i as int);
                let s0 = names@.subrange(0, i - 1);
                assert forall|x: T::V| names_of(s).contains(x) implies (names_of(s0).contains(x)
                    || x == names@[i - 1]@) by {
                    let k = choose|k: int| 0 <= k < s.len() && #[trigger] s[k]@ == x;
                    if k < i - 1 {
                        assert(s0[k]@ == x);
                    }
                }
                assert forall|x: T::V| names_of(s0).contains(x) implies names_of(s).contains(x) by {
                    let k = choose|k: int| 0 <= k < s0.len() && #[trigger] s0[k]@ == x;
                    assert(s[k]@ == x);
                }
                assert(s[i - 1]@ == names@[i - 1]@);
            }
        }
        assert(names@.subrange(0, names.len() as int) =~= names@);
        r
    }

    /// Whether every name of `self` belongs to `other`.
    pub fn is_subset(&self, other: &ItemSet<T>) -> (r: bool)
        ensures
            r == self@.subset_of(other@),
    {
        let mut i: usize = 0;
        while i < self.items.len()
            invariant
                i <= self.items.len(),
                forall|j: int| 0 <= j < i ==> other@.contains(#[trigger] self.items@[j]@),
            decreases self.items.len() - i,
        {
            if !other.contains(&self.items[i]) {
                assert(self@.contains(self.items@[i as int]@));
                return false;
            }
            i = i + 1;
        }
        assert forall|x: T::V| self@.contains(x) implies other@.contains(x) by {
            let k = choose|k: int| 0 <= k < self.items@.len() && #[trigger] self.items@[k]@ == x;
        }
        true
    }

    /// Whether both sets hold the same names.
    pub fn same(&self, other: &ItemSet<T>) -> (r: bool)
        ensures
            r == (self@ == other@),
    {
        let a = self.is_subset(other);
        let b = other.is_subset(self);
        if a && b {
            assert(self@ =~= other@);
        }
        a && b
    }
}

impl<T: SetElement> PartialEq for ItemSet<T> {
    fn eq(&self, other: &Self) -> (r: bool) {
        self.same(other)
    }
}

impl<T: SetElement> vstd::std_specs::cmp::PartialEqSpecImpl for ItemSet<T> {
    open spec fn obeys_eq_spec() -> bool {
        true
    }

    open spec fn eq_spec(&self, other: &Self) -> bool {
        self@ == other@
    }
}

pub proof fn lemma_names_insert<T: View>(s: Seq<T>, p: int, x: T)
    requires
        0 <= p <= s.len(),
    ensures
        names_of(s.insert(p, x)) == names_of(s).insert(x@),
{
    let t = s.insert(p, x);
    assert forall|y: T::V| names_of(t).contains(y) implies names_of(s).insert(x@).contains(y) by {
        let k = choose|k: int| 0 <= k < t.len() && #[trigger] t[k]@ == y;
        if k < p {
            assert(s[k]@ == y);
        } else if k > p {
            assert(s[k - 1]@ == y);
        }
    }
    assert forall|y: T::V| names_of(s).insert(x@).contains(y) implies names_of(t).contains(y) by {
        if y == x@ {
            assert(t[p]@ == y);
        } else {
            let k = choose|k: int| 0 <= k < s.len() && #[trigger] s[k]@ == y;
            if k < p {
                assert(t[k]@ == y);
            } else {
                assert(t[k + 1]@ == y);
            }
        }
    }
    assert(names_of(t) =~= names_of(s).insert(x@));
}

/// The names of a set, each once, in the order of their characters.
pub fn sorted_names(set: &VariableSet) -> (r: Vec<String>)
    ensures
        names_of(r@) == set@,
        forall|i: int, j: int| 0 <= i < j < r@.len() ==> chars_before((#[trigger] r@[i])@, (#[trigger] r@[j])@),
{
    let items = set.to_vec();
    let mut r: Vec<String> = Vec::new();
    let mut i: usize = 0;
    proof {
        assert(names_of(r@) =~= names_of(items@.subrange(0, 0)));
    }
    while i < items.len()
        invariant
            i <= items.len(),
            names_of(r@) == names_of(items@.subrange(0, i as int)),
            forall|a: int, b: int| 0 <= a < b < r@.len() ==> chars_before((#[trigger] r@[a])@, (#[trigger] r@[b])@),
        decreases items.len() - i,
    {
        let x = &items[i];
        let mut p: usize = 0;
        loop
            invariant
                p <= r.len(),
                forall|k: int| 0 <= k < p ==> chars_before((#[trigger] r@[k])@, x@),
            ensures
                p <= r.len(),
                forall|k: int| 0 <= k < p ==> chars_before((#[trigger] r@[k])@, x@),
                p < r.len() ==> !chars_before(r@[p as int]@, x@),
            decreases r.len() - p,
        {
            if p >= r.len() {
                break;
            }
            if !str_before(r[p].as_str(), x.as_str()) {
                break;
            }
            p = p + 1;
        }
        let ghost before = r@;
        proof {
            assert(items@.subrange(0, i + 1) =~= items@.subrange(0, i as int).insert(i as int, items@[i as int]));
            lemma_names_insert(items@.subrange(0, i as int), i as int, items@[i as int]);
        }
        if p < r.len() && str_eq(r[p].as_str(), x.as_str()) {
            proof {
                assert(names_of(before).contains(x@));
                assert(names_of(before).insert(x@) =~= names_of(before));
            }
        } else {
            r.insert(p, x.clone());
            proof {
                lemma_names_insert(before, p as int, r@[p as int]);
                assert forall|a: int, b: int| 0 <= a < b < r@.len() implies chars_before(
                    (#[trigger] r@[a])@,
                    (#[trigger] r@[b])@,
                ) by {
                    if b < p {
                        assert(r@[a] == before[a] && r@[b] == before[b]);
                    } else if b == p {
                        assert(r@[a] == before[a]);
                    } else {
                        assert(r@[b] == before[b - 1]);
                        lemma_chars_before_total(before[p as int]@, x@);
                        if b - 1 > p {
                            assert(chars_before(before[p as int]@, before[b - 1]@));
                            lemma_chars_before_transitive(x@, before[p as int]@, before[b - 1]@);
                        }
                        if a < p {
                            assert(r@[a] == before[a]);
                            lemma_chars_before_transitive(before[a]@, x@, before[b - 1]@);
                        } else if a > p {
                            assert(r@[a] == before[a - 1]);
                        }
                    }
                }
            }
        }
        i = i + 1;
    }
    proof {
        assert(items@.subrange(0, items@.len() as int) =~= items@);
    }
    r
}

/// How many entries of `u` belong to `s`.
pub open spec fn count_in<A>(u: Seq<A>, s: Set<A>) -> nat
    decreases u.len(),
{
    if u.len() == 0 {
        0
    } else {
        count_in(u.drop_last(), s) + if s.contains(u.last()) {
            1nat
        } else {
            0nat
        }
    }
}

pub proof fn lemma_count_bound<A>(u: Seq<A>, s: Set<A>)
    ensures
        count_in(u, s) <= u.len(),
    decreases u.len(),
{
    if u.len() > 0 {
        lemma_count_bound(u.drop_last(), s);
    }
}

/// A larger set has at least as many entries of `u`; more when it has an
/// entry of `u` that the smaller one lacks.
pub proof fn lemma_count_grows<A>(u: Seq<A>, a: Set<A>, b: Set<A>)
    requires
        a.subset_of(b),
    ensures
        count_in(u, a) <= count_in(u, b),
        (exists|x: A| u.contains(x) && b.contains(x) && !a.contains(x)) ==> count_in(u, a) < count_in(
            u,
            b,
        ),
    decreases u.len(),
{
    if u.len() > 0 {
        lemma_count_grows(u.drop_last(), a, b);
        if exists|x: A| u.contains(x) && b.contains(x) && !a.contains(x) {
            let x = choose|x: A| u.contains(x) && b.contains(x) && !a.contains(x);
            if x != u.last() {
                let k = choose|k: int| 0 <= k < u.len() && u[k] == x;
                assert(u.drop_last()[k] == x);
                assert(u.drop_last().contains(x));
            }
        }
    }
}

/// The room left for growth: for each set, how many entries of `u` it lacks.
pub open spec fn slack<A>(u: Seq<A>, sets: Seq<Set<A>>, n: int) -> int
    decreases n,
{
    if n <= 0 {
        0
    } else {
        slack(u, sets, n - 1) + (u.len() - count_in(u, sets[n - 1]))
    }
}

pub proof fn lemma_slack_nonneg<A>(u: Seq<A>, sets: Seq<Set<A>>, n: int)
    ensures
        slack(u, sets, n) >= 0,
    decreases n,
{
    if n > 0 {
        lemma_slack_nonneg(u, sets, n - 1);
        lemma_count_bound(u, sets[n - 1]);
    }
}

pub proof fn lemma_slack_update<A>(u: Seq<A>, sets: Seq<Set<A>>, n: int, i: int, x: Set<A>)
    requires
        0 <= i < n <= sets.len(),
    ensures
        slack(u, sets.update(i, x), n) == slack(u, sets, n) + count_in(u, sets[i]) - count_in(u, x),
    decreases n,
{
    if n - 1 > i {
        lemma_slack_update(u, sets, n - 1, i, x);
        assert(sets.update(i, x)[n - 1] == sets[n - 1]);
    } else {
        lemma_slack_same_prefix(u, sets.update(i, x), sets, i);
        assert(sets.update(i, x)[i] == x);
    }
}

proof fn lemma_slack_same_prefix<A>(u: Seq<A>, s1: Seq<Set<A>>, s2: Seq<Set<A>>, m: int)
    requires
        forall|j: int| 0 <= j < m ==> s1[j] == s2[j],
    ensures
        slack(u, s1, m) == slack(u, s2, m),
    decreases m,
{
    if m > 0 {
        lemma_slack_same_prefix(u, s1, s2, m - 1);
    }
}

/// How many entries of `u` the sets hold, summed over the first `n` sets.
pub open spec fn mass<A>(u: Seq<A>, sets: Seq<Set<A>>, n: int) -> int
    decreases n,
{
    if n <= 0 {
        0
    } else {
        mass(u, sets, n - 1) + count_in(u, sets[n - 1])
    }
}

pub proof fn lemma_mass_nonneg<A>(u: Seq<A>, sets: Seq<Set<A>>, n: int)
    ensures
        mass(u, sets, n) >= 0,
    decreases n,
{
    if n > 0 {
        lemma_mass_nonneg(u, sets, n - 1);
    }
}

pub proof fn lemma_mass_update<A>(u: Seq<A>, sets: Seq<Set<A>>, n: int, i: int, x: Set<A>)
    requires
        0 <= i < n <= sets.len(),
    ensures
        mass(u, sets.update(i, x), n) == mass(u, sets, n) - count_in(u, sets[i]) + count_in(u, x),
    decreases n,
{
    if n - 1 > i {
        lemma_mass_update(u, sets, n - 1, i, x);
        assert(sets.update(i, x)[n - 1] == sets[n - 1]);
    } else {
        lemma_mass_same_prefix(u, sets.update(i, x), sets, i);
        assert(sets.update(i, x)[i] == x);
    }
}

proof fn lemma_mass_same_prefix<A>(u: Seq<A>, s1: Seq<Set<A>>, s2: Seq<Set<A>>, m: int)
    requires
        forall|j: int| 0 <= j < m ==> s1[j] == s2[j],
    ensures
        mass(u, s1, m) == mass(u, s2, m),
    decreases m,
{
    if m > 0 {
        lemma_mass_same_prefix(u, s1, s2, m - 1);
    }
}

} // verus!

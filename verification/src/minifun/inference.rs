use vstd::prelude::*;
use vstd::set_lib::*;
use crate::bindings::{bindings_map, keys_unique, lemma_unique_entries, Bindings, Dup};
use crate::minifun::ast::{BinOp, Term};
use crate::minifun::eval::term_value;
use crate::minifun::runtime::ValueView;
use crate::miniimp::sets::{names_of, VariableSet};
use crate::text::{decimal_digits, prefixed_decimal, str_eq};

verus! {

/// The name of a type variable.
pub type TypeVar = String;

/// A type that may mention type variables.
#[derive(Debug, Eq)]
pub enum MonoType {
    Int,
    Bool,
    Var(TypeVar),
    Fun(Box<MonoType>, Box<MonoType>),
}

/// A type, with variable names taken by their characters.
pub enum MonoView {
    Int,
    Bool,
    Var(Seq<char>),
    Fun(Box<MonoView>, Box<MonoView>),
}

pub open spec fn mono_view(t: MonoType) -> MonoView
    decreases t,
{
    match t {
        MonoType::Int => MonoView::Int,
        MonoType::Bool => MonoView::Bool,
        MonoType::Var(v) => MonoView::Var(v@),
        MonoType::Fun(a, b) => MonoView::Fun(Box::new(mono_view(*a)), Box::new(mono_view(*b))),
    }
}

impl View for MonoType {
    type V = MonoView;

    open spec fn view(&self) -> MonoView {
        mono_view(*self)
    }
}

/// Decides whether two types are the same, names compared by characters.
pub fn mono_eq(a: &MonoType, b: &MonoType) -> (r: bool)
    ensures
        r == (a@ == b@),
    decreases a,
{
    match (a, b) {
        (MonoType::Int, MonoType::Int) => true,
        (MonoType::Bool, MonoType::Bool) => true,
        (MonoType::Var(x), MonoType::Var(y)) => str_eq(x.as_str(), y.as_str()),
        (MonoType::Fun(a1, b1), MonoType::Fun(a2, b2)) => mono_eq(a1, a2) && mono_eq(b1, b2),
        _ => false,
    }
}

impl PartialEq for MonoType {
    fn eq(&self, other: &Self) -> (r: bool) {
        mono_eq(self, other)
    }
}

impl vstd::std_specs::cmp::PartialEqSpecImpl for MonoType {
    open spec fn obeys_eq_spec() -> bool {
        true
    }

    open spec fn eq_spec(&self, other: &Self) -> bool {
        self@ == other@
    }
}

/// A copy of a type.
pub fn copy_mono(t: &MonoType) -> (r: MonoType)
    ensures
        r@ == t@,
    decreases t,
{
    match t {
        MonoType::Int => MonoType::Int,
        MonoType::Bool => MonoType::Bool,
        MonoType::Var(v) => MonoType::Var(v.clone()),
        MonoType::Fun(a, b) => MonoType::Fun(Box::new(copy_mono(a)), Box::new(copy_mono(b))),
    }
}

impl Dup for MonoType {
    fn dup(&self) -> (r: Self) {
        copy_mono(self)
    }
}

/// A type scheme: a type in which the listed variables are bound.
#[derive(Debug, Eq)]
pub struct PolyType {
    pub vars: Vec<TypeVar>,
    pub ty: MonoType,
}

/// A type scheme, with names taken by their characters.
pub struct PolyView {
    pub vars: Seq<Seq<char>>,
    pub ty: MonoView,
}

/// The names of a list of strings, by their characters.
pub open spec fn names_seq(v: Seq<String>) -> Seq<Seq<char>> {
    v.map_values(|s: String| s@)
}

impl View for PolyType {
    type V = PolyView;

    open spec fn view(&self) -> PolyView {
        PolyView { vars: names_seq(self.vars@), ty: self.ty@ }
    }
}

fn copy_names(v: &Vec<String>) -> (r: Vec<String>)
    ensures
        names_seq(r@) == names_seq(v@),
{
    let mut r: Vec<String> = Vec::new();
    let mut i: usize = 0;
    while i < v.len()
        invariant
            i <= v.len(),
            r.len() == i,
            forall|j: int| 0 <= j < i ==> (#[trigger] r@[j])@ == v@[j]@,
        decreases v.len() - i,
    {
        r.push(v[i].clone());
        i = i + 1;
    }
    assert(names_seq(r@) =~= names_seq(v@));
    r
}

impl Dup for PolyType {
    fn dup(&self) -> (r: Self) {
        PolyType { vars: copy_names(&self.vars), ty: copy_mono(&self.ty) }
    }
}

fn names_eq(a: &Vec<String>, b: &Vec<String>) -> (r: bool)
    ensures
        r == (names_seq(a@) == names_seq(b@)),
{
    if a.len() != b.len() {
        assert(names_seq(a@).len() != names_seq(b@).len());
        return false;
    }
    let mut i: usize = 0;
    while i < a.len()
        invariant
            a.len() == b.len(),
            i <= a.len(),
            forall|j: int| 0 <= j < i ==> a@[j]@ == b@[j]@,
        decreases a.len() - i,
    {
        if !str_eq(a[i].as_str(), b[i].as_str()) {
            assert(names_seq(a@)[i as int] != names_seq(b@)[i as int]);
            return false;
        }
        i = i + 1;
    }
    assert(names_seq(a@) =~= names_seq(b@));
    true
}

impl PartialEq for PolyType {
    fn eq(&self, other: &Self) -> (r: bool) {
        names_eq(&self.vars, &other.vars) && mono_eq(&self.ty, &other.ty)
    }
}

impl vstd::std_specs::cmp::PartialEqSpecImpl for PolyType {
    open spec fn obeys_eq_spec() -> bool {
        true
    }

    open spec fn eq_spec(&self, other: &Self) -> bool {
        self@ == other@
    }
}

/// A map from type variables to types.
pub type Substitution = Bindings<MonoType>;

/// The type schemes of the variables in scope.
pub type TypeEnvironment = Bindings<PolyType>;

/// The name of the `n`th fresh type variable: `a` followed by `n`.
pub open spec fn fresh_name(n: nat) -> Seq<char> {
    seq!['a'] + decimal_digits(n)
}

/// A source of fresh type variables.
#[derive(Debug)]
pub struct TypeVarGenerator {
    counter: usize,
}

impl TypeVarGenerator {
    /// How many variables it has handed out.
    pub closed spec fn issued(&self) -> nat {
        self.counter as nat
    }

    /// A generator that has handed out nothing.
    pub fn new() -> (r: Self)
        ensures
            r.issued() == 0,
    {
        TypeVarGenerator { counter: 0 }
    }

    /// Whether it can hand out `n` more variables.
    pub fn has_room(&self, n: usize) -> (r: bool)
        ensures
            r == (self.issued() + n <= usize::MAX),
    {
        self.counter <= usize::MAX - n
    }

    /// The next fresh type variable.
    pub fn fresh(&mut self) -> (r: MonoType)
        requires
            old(self).issued() < usize::MAX,
        ensures
            r@ == MonoView::Var(fresh_name(old(self).issued())),
            final(self).issued() == old(self).issued() + 1,
    {
        let name = prefixed_decimal("a", self.counter);
        proof {
            reveal_strlit("a");
            assert("a"@ =~= seq!['a']);
        }
        self.counter = self.counter + 1;
        MonoType::Var(name)
    }
}

impl Default for TypeVarGenerator {
    fn default() -> (r: Self)
        ensures
            r.issued() == 0,
    {
        TypeVarGenerator::new()
    }
}

/// A type as a scheme with no bound variable.
pub fn mono(ty: MonoType) -> (r: PolyType)
    ensures
        r@ == (PolyView { vars: Seq::empty(), ty: ty@ }),
{
    let r = PolyType { vars: Vec::new(), ty };
    assert(names_seq(r.vars@) =~= Seq::<Seq<char>>::empty());
    r
}

/// The type variables of a type.
pub open spec fn ftv(t: MonoView) -> Set<Seq<char>>
    decreases t,
{
    match t {
        MonoView::Int => Set::empty(),
        MonoView::Bool => Set::empty(),
        MonoView::Var(v) => set![v],
        MonoView::Fun(a, b) => ftv(*a).union(ftv(*b)),
    }
}

/// The free type variables of a scheme: those of its type that it does not bind.
pub open spec fn ftv_poly(p: PolyView) -> Set<Seq<char>> {
    ftv(p.ty).difference(p.vars.to_set())
}

/// The free type variables of an environment.
pub open spec fn ftv_env(env: Map<Seq<char>, PolyView>) -> Set<Seq<char>> {
    Set::new(|v: Seq<char>| exists|k: Seq<char>| env.contains_key(k) && #[trigger] ftv_poly(env[k]).contains(v))
}

/// A substitution applied to a type.
pub open spec fn apply(s: Map<Seq<char>, MonoView>, t: MonoView) -> MonoView
    decreases t,
{
    match t {
        MonoView::Var(v) => if s.contains_key(v) {
            s[v]
        } else {
            MonoView::Var(v)
        },
        MonoView::Fun(a, b) => MonoView::Fun(Box::new(apply(s, *a)), Box::new(apply(s, *b))),
        _ => t,
    }
}

/// A substitution applied to a scheme: its bound variables are left alone.
pub open spec fn apply_poly(s: Map<Seq<char>, MonoView>, p: PolyView) -> PolyView {
    PolyView { vars: p.vars, ty: apply(s.remove_keys(p.vars.to_set()), p.ty) }
}

/// A substitution applied to every scheme of an environment.
pub open spec fn apply_env(s: Map<Seq<char>, MonoView>, env: Map<Seq<char>, PolyView>) -> Map<
    Seq<char>,
    PolyView,
> {
    env.map_values(|p: PolyView| apply_poly(s, p))
}

/// `s1` after `s2`: `s2`'s types with `s1` applied, and `s1`'s own bindings,
/// which win.
pub open spec fn compose(s1: Map<Seq<char>, MonoView>, s2: Map<Seq<char>, MonoView>) -> Map<
    Seq<char>,
    MonoView,
> {
    Map::new(
        |k: Seq<char>| s1.contains_key(k) || s2.contains_key(k),
        |k: Seq<char>| if s1.contains_key(k) {
            s1[k]
        } else {
            apply(s1, s2[k])
        },
    )
}

/// The type variables of a type, as a set.
pub fn free_type_vars_mono(ty: &MonoType) -> (r: VariableSet)
    ensures
        r@ == ftv(ty@),
    decreases ty,
{
    match ty {
        MonoType::Int | MonoType::Bool => {
            let r = VariableSet::new();
            r
        },
        MonoType::Var(v) => VariableSet::singleton(v.clone()),
        MonoType::Fun(a, b) => {
            let mut vars = free_type_vars_mono(a);
            vars.extend(&free_type_vars_mono(b));
            vars
        },
    }
}

/// The free type variables of a scheme.
pub fn free_type_vars_poly(poly: &PolyType) -> (r: VariableSet)
    ensures
        r@ == ftv_poly(poly@),
{
    let vars = free_type_vars_mono(&poly.ty);
    let names = copy_names(&poly.vars);
    let bound = VariableSet::from_names(names);
    let r = vars.difference(&bound);
    proof {
        lemma_names_of_seq(names@);
        assert(r@ =~= ftv_poly(poly@));
    }
    r
}

proof fn lemma_names_of_seq(v: Seq<String>)
    ensures
        names_of(v) == names_seq(v).to_set(),
{
    assert forall|x: Seq<char>| names_of(v).contains(x) == names_seq(v).to_set().contains(x) by {
        if names_of(v).contains(x) {
            let i = choose|i: int| 0 <= i < v.len() && #[trigger] v[i]@ == x;
            assert(names_seq(v)[i] == x);
        }
        if names_seq(v).to_set().contains(x) {
            let i = choose|i: int| 0 <= i < names_seq(v).len() && names_seq(v)[i] == x;
            assert(v[i]@ == x);
        }
    }
    assert(names_of(v) =~= names_seq(v).to_set());
}

/// The free type variables of an environment.
pub fn free_type_vars_env(env: &TypeEnvironment) -> (r: VariableSet)
    requires
        env.wf(),
    ensures
        r@ == ftv_env(env@),
{
    let entries = env.entries();
    proof {
        lemma_unique_entries(entries@);
    }
    let mut vars = VariableSet::new();
    let mut i: usize = 0;
    while i < entries.len()
        invariant
            i <= entries.len(),
            keys_unique(entries@),
            bindings_map(entries@) == env@,
            forall|j: int| #![trigger entries@[j]]
                0 <= j < entries@.len() ==> env@.contains_key(entries@[j].0@) && env@[entries@[j].0@]
                    == entries@[j].1@,
            forall|x: Seq<char>| #[trigger] vars@.contains(x) <==> exists|j: int|
                0 <= j < i && #[trigger] ftv_poly(entries@[j].1@).contains(x),
        decreases entries.len() - i,
    {
        let ghost before = vars@;
        vars.extend(&free_type_vars_poly(&entries[i].1));
        proof {
            assert forall|x: Seq<char>| #[trigger] vars@.contains(x) <==> exists|j: int|
                0 <= j < i + 1 && #[trigger] ftv_poly(entries@[j].1@).contains(x) by {
                if vars@.contains(x) && !before.contains(x) {
                    assert(ftv_poly(entries@[i as int].1@).contains(x));
                }
                if exists|j: int| 0 <= j < i + 1 && #[trigger] ftv_poly(entries@[j].1@).contains(x) {
                    let j = choose|j: int| 0 <= j < i + 1 && #[trigger] ftv_poly(entries@[j].1@).contains(x);
                    if j < i {
                        assert(before.contains(x));
                    }
                }
            }
        }
        i = i + 1;
    }
    proof {
        assert forall|x: Seq<char>| vars@.contains(x) == ftv_env(env@).contains(x) by {
            if vars@.contains(x) {
                let j = choose|j: int| 0 <= j < entries@.len() && #[trigger] ftv_poly(entries@[j].1@).contains(x);
                assert(env@.contains_key(entries@[j].0@));
                assert(ftv_poly(env@[entries@[j].0@]).contains(x));
            }
            if ftv_env(env@).contains(x) {
                let k = choose|k: Seq<char>| env@.contains_key(k) && #[trigger] ftv_poly(env@[k]).contains(x);
                let j = choose|j: int| 0 <= j < entries@.len() && (#[trigger] entries@[j]).0@ == k;
                assert(ftv_poly(entries@[j].1@).contains(x));
            }
        }
        assert(vars@ =~= ftv_env(env@));
    }
    vars
}

/// `names` holds `name`, compared by characters.
fn names_contain(names: &Vec<String>, name: &str) -> (r: bool)
    ensures
        r == names_seq(names@).to_set().contains(name@),
{
    let mut i: usize = 0;
    while i < names.len()
        invariant
            i <= names.len(),
            forall|j: int| 0 <= j < i ==> names@[j]@ != name@,
        decreases names.len() - i,
    {
        if str_eq(names[i].as_str(), name) {
            assert(names_seq(names@)[i as int] == name@);
            return true;
        }
        i = i + 1;
    }
    proof {
        if names_seq(names@).to_set().contains(name@) {
            let j = choose|j: int| 0 <= j < names_seq(names@).len() && names_seq(names@)[j] == name@;
            assert(names@[j]@ == name@);
        }
    }
    false
}

/// A substitution applied to a type, except to the variables in `bound`.
fn apply_except(subst: &Substitution, bound: &Vec<String>, ty: &MonoType) -> (r: MonoType)
    ensures
        r@ == apply(subst@.remove_keys(names_seq(bound@).to_set()), ty@),
    decreases ty,
{
    match ty {
        MonoType::Int => MonoType::Int,
        MonoType::Bool => MonoType::Bool,
        MonoType::Var(v) => {
            if names_contain(bound, v.as_str()) {
                MonoType::Var(v.clone())
            } else {
                match subst.get(v.as_str()) {
                    Some(t) => copy_mono(t),
                    None => MonoType::Var(v.clone()),
                }
            }
        },
        MonoType::Fun(a, b) => MonoType::Fun(
            Box::new(apply_except(subst, bound, a)),
            Box::new(apply_except(subst, bound, b)),
        ),
    }
}

/// A substitution applied to a type.
pub fn apply_subst_mono(subst: &Substitution, ty: &MonoType) -> (r: MonoType)
    ensures
        r@ == apply(subst@, ty@),
{
    let none: Vec<String> = Vec::new();
    assert(subst@.remove_keys(names_seq(none@).to_set()) =~= subst@);
    apply_except(subst, &none, ty)
}

/// A substitution applied to a scheme; its bound variables are left alone.
pub fn apply_subst_poly(subst: &Substitution, poly: &PolyType) -> (r: PolyType)
    ensures
        r@ == apply_poly(subst@, poly@),
{
    PolyType { vars: copy_names(&poly.vars), ty: apply_except(subst, &poly.vars, &poly.ty) }
}

/// A substitution applied to every scheme of an environment.
pub fn apply_subst_env(subst: &Substitution, env: &TypeEnvironment) -> (r: TypeEnvironment)
    requires
        env.wf(),
    ensures
        r.wf(),
        r@ == apply_env(subst@, env@),
{
    let entries = env.entries();
    proof {
        lemma_unique_entries(entries@);
    }
    let mut r = TypeEnvironment::new();
    let mut i: usize = 0;
    while i < entries.len()
        invariant
            i <= entries.len(),
            r.wf(),
            keys_unique(entries@),
            forall|j: int| #![trigger entries@[j]]
                0 <= j < entries@.len() ==> env@.contains_key(entries@[j].0@) && env@[entries@[j].0@]
                    == entries@[j].1@,
            forall|k: Seq<char>| #[trigger] env@.contains_key(k) ==> exists|j: int|
                0 <= j < entries@.len() && (#[trigger] entries@[j]).0@ == k,
            forall|k: Seq<char>| #[trigger] r@.contains_key(k) <==> exists|j: int|
                0 <= j < i && (#[trigger] entries@[j]).0@ == k,
            forall|k: Seq<char>| #[trigger] r@.contains_key(k) ==> r@[k] == apply_poly(subst@, env@[k]),
        decreases entries.len() - i,
    {
        let ghost before = r@;
        r.insert(entries[i].0.clone(), apply_subst_poly(subst, &entries[i].1));
        proof {
            assert forall|k: Seq<char>| #[trigger] r@.contains_key(k) <==> exists|j: int|
                0 <= j < i + 1 && (#[trigger] entries@[j]).0@ == k by {
                if exists|j: int| 0 <= j < i + 1 && (#[trigger] entries@[j]).0@ == k {
                    let j = choose|j: int| 0 <= j < i + 1 && (#[trigger] entries@[j]).0@ == k;
                    if j < i {
                        assert(before.contains_key(k));
                    }
                }
            }
        }
        i = i + 1;
    }
    assert(r@ =~= apply_env(subst@, env@));
    r
}

/// `s1` after `s2`.
pub fn compose_subst(s1: &Substitution, s2: &Substitution) -> (r: Substitution)
    requires
        s1.wf(),
        s2.wf(),
    ensures
        r.wf(),
        r@ == compose(s1@, s2@),
{
    let mut r = Substitution::new();
    let second = s2.entries();
    proof {
        lemma_unique_entries(second@);
    }
    let mut i: usize = 0;
    while i < second.len()
        invariant
            i <= second.len(),
            r.wf(),
            keys_unique(second@),
            bindings_map(second@) == s2@,
            forall|j: int| #![trigger second@[j]]
                0 <= j < second@.len() ==> s2@.contains_key(second@[j].0@) && s2@[second@[j].0@]
                    == second@[j].1@,
            forall|k: Seq<char>| #[trigger] s2@.contains_key(k) ==> exists|j: int|
                0 <= j < second@.len() && (#[trigger] second@[j]).0@ == k,
            forall|k: Seq<char>| #[trigger] r@.contains_key(k) <==> exists|j: int|
                0 <= j < i && (#[trigger] second@[j]).0@ == k,
            forall|k: Seq<char>| #[trigger] r@.contains_key(k) ==> r@[k] == apply(s1@, s2@[k]),
        decreases second.len() - i,
    {
        let ghost before = r@;
        r.insert(second[i].0.clone(), apply_subst_mono(s1, &second[i].1));
        proof {
            assert forall|k: Seq<char>| #[trigger] r@.contains_key(k) <==> exists|j: int|
                0 <= j < i + 1 && (#[trigger] second@[j]).0@ == k by {
                if exists|j: int| 0 <= j < i + 1 && (#[trigger] second@[j]).0@ == k {
                    let j = choose|j: int| 0 <= j < i + 1 && (#[trigger] second@[j]).0@ == k;
                    if j < i {
                        assert(before.contains_key(k));
                    }
                }
            }
        }
        i = i + 1;
    }
    let first = s1.entries();
    proof {
        lemma_unique_entries(first@);
    }
    let mut i: usize = 0;
    while i < first.len()
        invariant
            i <= first.len(),
            r.wf(),
            keys_unique(first@),
            forall|j: int| #![trigger first@[j]]
                0 <= j < first@.len() ==> s1@.contains_key(first@[j].0@) && s1@[first@[j].0@]
                    == first@[j].1@,
            forall|k: Seq<char>| #[trigger] s1@.contains_key(k) ==> exists|j: int|
                0 <= j < first@.len() && (#[trigger] first@[j]).0@ == k,
            forall|k: Seq<char>| #[trigger] r@.contains_key(k) <==> (s2@.contains_key(k) || exists|j: int|
                0 <= j < i && (#[trigger] first@[j]).0@ == k),
            forall|k: Seq<char>| #[trigger] r@.contains_key(k) ==> r@[k] == if exists|j: int|
                0 <= j < i && (#[trigger] first@[j]).0@ == k {
                s1@[k]
            } else {
                apply(s1@, s2@[k])
            },
        decreases first.len() - i,
    {
        let ghost before = r@;
        r.insert(first[i].0.clone(), copy_mono(&first[i].1));
        proof {
            let ghost ki = first@[i as int].0@;
            assert forall|k: Seq<char>| #[trigger] r@.contains_key(k) <==> (s2@.contains_key(k) || exists|j: int|
                0 <= j < i + 1 && (#[trigger] first@[j]).0@ == k) by {
                if exists|j: int| 0 <= j < i + 1 && (#[trigger] first@[j]).0@ == k {
                    let j = choose|j: int| 0 <= j < i + 1 && (#[trigger] first@[j]).0@ == k;
                    if j < i {
                        assert(before.contains_key(k));
                    }
                }
            }
            assert forall|k: Seq<char>| #[trigger] r@.contains_key(k) implies r@[k] == if exists|j: int|
                0 <= j < i + 1 && (#[trigger] first@[j]).0@ == k {
                s1@[k]
            } else {
                apply(s1@, s2@[k])
            } by {
                if k == ki {
                    assert(first@[i as int].0@ == k);
                } else {
                    if exists|j: int| 0 <= j < i + 1 && (#[trigger] first@[j]).0@ == k {
                        let j = choose|j: int| 0 <= j < i + 1 && (#[trigger] first@[j]).0@ == k;
                        assert(j < i);
                    }
                }
            }
        }
        i = i + 1;
    }
    assert(r@ =~= compose(s1@, s2@));
    r
}

/// Why inference failed.
#[derive(Debug, PartialEq, Eq)]
pub enum InferError {
    /// A variable that is not in scope.
    UnboundVariable(String),
    /// Binding `var` to `ty` would make an infinite type.
    OccursCheck { var: TypeVar, ty: MonoType },
    /// Two types that no substitution makes equal.
    Mismatch { left: MonoType, right: MonoType },
    /// The generator has no fresh type variable left.
    TooManyTypeVariables,
}

/// An inference error, with names taken by their characters.
pub enum InferErrorView {
    UnboundVariable(Seq<char>),
    OccursCheck(Seq<char>, MonoView),
    Mismatch(MonoView, MonoView),
    TooManyTypeVariables,
}

impl View for InferError {
    type V = InferErrorView;

    open spec fn view(&self) -> InferErrorView {
        match self {
            InferError::UnboundVariable(x) => InferErrorView::UnboundVariable(x@),
            InferError::OccursCheck { var, ty } => InferErrorView::OccursCheck(var@, ty@),
            InferError::Mismatch { left, right } => InferErrorView::Mismatch(left@, right@),
            InferError::TooManyTypeVariables => InferErrorView::TooManyTypeVariables,
        }
    }
}

/// A substitution result, by views.
pub open spec fn subst_result(r: Result<Substitution, InferError>) -> Result<
    Map<Seq<char>, MonoView>,
    InferErrorView,
> {
    match r {
        Ok(s) => Ok(s@),
        Err(e) => Err(e@),
    }
}

/// Binding a variable to a type: nothing to do for the variable itself, an
/// error when the variable occurs in the type.
pub open spec fn bind_spec(v: Seq<char>, t: MonoView) -> Result<Map<Seq<char>, MonoView>, InferErrorView> {
    if t == MonoView::Var(v) {
        Ok(Map::empty())
    } else if ftv(t).contains(v) {
        Err(InferErrorView::OccursCheck(v, t))
    } else {
        Ok(Map::empty().insert(v, t))
    }
}

/// Unification, with at most `fuel` nested steps; `None` when that is not
/// enough.
pub open spec fn unify_fuel(t1: MonoView, t2: MonoView, fuel: nat) -> Option<
    Result<Map<Seq<char>, MonoView>, InferErrorView>,
>
    decreases fuel,
{
    if fuel == 0 {
        None
    } else if t1 == MonoView::Int && t2 == MonoView::Int {
        Some(Ok(Map::empty()))
    } else if t1 == MonoView::Bool && t2 == MonoView::Bool {
        Some(Ok(Map::empty()))
    } else if t1 is Var {
        Some(bind_spec(t1->Var_0, t2))
    } else if t2 is Var {
        Some(bind_spec(t2->Var_0, t1))
    } else {
        match t1 {
            MonoView::Fun(a1, r1) => match t2 {
                MonoView::Fun(a2, r2) => match unify_fuel(*a1, *a2, (fuel - 1) as nat) {
                    None => None,
                    Some(Err(e)) => Some(Err(e)),
                    Some(Ok(s1)) => match unify_fuel(apply(s1, *r1), apply(s1, *r2), (fuel - 1) as nat) {
                        None => None,
                        Some(Err(e)) => Some(Err(e)),
                        Some(Ok(s2)) => Some(Ok(compose(s2, s1))),
                    },
                },
                _ => Some(Err(InferErrorView::Mismatch(t1, t2))),
            },
            _ => Some(Err(InferErrorView::Mismatch(t1, t2))),
        }
    }
}

/// The result of unifying two types: a substitution that makes them equal,
/// or why there is none.
pub open spec fn unify_result(t1: MonoView, t2: MonoView) -> Result<Map<Seq<char>, MonoView>, InferErrorView> {
    match unify_fuel(t1, t2, choose|f: nat| unify_fuel(t1, t2, f) is Some) {
        Some(r) => r,
        None => Err(InferErrorView::Mismatch(t1, t2)),
    }
}

/// More fuel than enough gives the same result.
pub proof fn lemma_unify_fuel_mono(t1: MonoView, t2: MonoView, f: nat, g: nat)
    requires
        f <= g,
        unify_fuel(t1, t2, f) is Some,
    ensures
        unify_fuel(t1, t2, g) == unify_fuel(t1, t2, f),
    decreases f,
{
    if f > 0 && !(t1 is Var) && !(t2 is Var) {
        if let MonoView::Fun(a1, r1) = t1 {
            if let MonoView::Fun(a2, r2) = t2 {
                lemma_unify_fuel_mono(*a1, *a2, (f - 1) as nat, (g - 1) as nat);
                if let Some(Ok(s1)) = unify_fuel(*a1, *a2, (f - 1) as nat) {
                    lemma_unify_fuel_mono(apply(s1, *r1), apply(s1, *r2), (f - 1) as nat, (g - 1) as nat);
                }
            }
        }
    }
}

/// Any fuel that is enough gives `unify_result`.
pub proof fn lemma_unify_result(t1: MonoView, t2: MonoView, f: nat)
    requires
        unify_fuel(t1, t2, f) is Some,
    ensures
        Some(unify_result(t1, t2)) == unify_fuel(t1, t2, f),
{
    let g = choose|g: nat| unify_fuel(t1, t2, g) is Some;
    if f <= g {
        lemma_unify_fuel_mono(t1, t2, f, g);
    } else {
        lemma_unify_fuel_mono(t1, t2, g, f);
    }
}

/// The number of nodes of a type.
pub open spec fn size(t: MonoView) -> nat
    decreases t,
{
    match t {
        MonoView::Fun(a, b) => 1 + size(*a) + size(*b),
        _ => 1,
    }
}

pub proof fn lemma_ftv_finite(t: MonoView)
    ensures
        ftv(t).finite(),
    decreases t,
{
    if let MonoView::Fun(a, b) = t {
        lemma_ftv_finite(*a);
        lemma_ftv_finite(*b);
    }
}

/// The bindings of `s` are for variables of `vs`, and their types mention
/// only variables of `vs` that `s` does not bind.
pub open spec fn scoped(s: Map<Seq<char>, MonoView>, vs: Set<Seq<char>>) -> bool {
    &&& forall|k: Seq<char>| #[trigger] s.contains_key(k) ==> vs.contains(k)
    &&& forall|k: Seq<char>, x: Seq<char>|
        s.contains_key(k) && #[trigger] ftv(s[k]).contains(x) ==> vs.contains(x) && !s.contains_key(x)
}

/// Where the variables of a substituted type come from.
pub proof fn lemma_ftv_apply(s: Map<Seq<char>, MonoView>, t: MonoView)
    ensures
        forall|x: Seq<char>| #[trigger] ftv(apply(s, t)).contains(x) ==> (ftv(t).contains(x) && !s.contains_key(x))
            || exists|k: Seq<char>| ftv(t).contains(k) && s.contains_key(k) && #[trigger] ftv(s[k]).contains(x),
    decreases t,
{
    if let MonoView::Fun(a, b) = t {
        lemma_ftv_apply(s, *a);
        lemma_ftv_apply(s, *b);
        assert forall|x: Seq<char>| #[trigger] ftv(apply(s, t)).contains(x) implies (ftv(t).contains(x)
            && !s.contains_key(x)) || exists|k: Seq<char>| ftv(t).contains(k) && s.contains_key(k) && #[trigger] ftv(s[k]).contains(x) by {
            if ftv(apply(s, *a)).contains(x) {
                if !(ftv(*a).contains(x) && !s.contains_key(x)) {
                    let k = choose|k: Seq<char>| ftv(*a).contains(k) && s.contains_key(k) && #[trigger] ftv(s[k]).contains(x);
                    assert(ftv(t).contains(k));
                }
            } else {
                assert(ftv(apply(s, *b)).contains(x));
                if !(ftv(*b).contains(x) && !s.contains_key(x)) {
                    let k = choose|k: Seq<char>| ftv(*b).contains(k) && s.contains_key(k) && #[trigger] ftv(s[k]).contains(x);
                    assert(ftv(t).contains(k));
                }
            }
        }
    }
}

/// A substitution without bindings changes nothing.
pub proof fn lemma_apply_nothing(s: Map<Seq<char>, MonoView>, t: MonoView)
    requires
        forall|k: Seq<char>| !s.contains_key(k),
    ensures
        apply(s, t) == t,
    decreases t,
{
    if let MonoView::Fun(a, b) = t {
        lemma_apply_nothing(s, *a);
        lemma_apply_nothing(s, *b);
    }
}

/// Composing two scoped substitutions, the second over variables that the
/// first leaves free, gives a scoped substitution.
pub proof fn lemma_compose_scoped(
    s1: Map<Seq<char>, MonoView>,
    s2: Map<Seq<char>, MonoView>,
    v1: Set<Seq<char>>,
    v2: Set<Seq<char>>,
    vs: Set<Seq<char>>,
)
    requires
        scoped(s1, v1),
        scoped(s2, v2),
        v1.subset_of(vs),
        v2.subset_of(vs),
        forall|x: Seq<char>| v2.contains(x) ==> !s1.contains_key(x),
    ensures
        scoped(compose(s2, s1), vs),
{
    let c = compose(s2, s1);
    assert forall|k: Seq<char>, x: Seq<char>| c.contains_key(k) && #[trigger] ftv(c[k]).contains(x) implies vs.contains(x)
        && !c.contains_key(x) by {
        if s2.contains_key(k) {
            assert(ftv(s2[k]).contains(x));
        } else {
            lemma_ftv_apply(s2, s1[k]);
            if !(ftv(s1[k]).contains(x) && !s2.contains_key(x)) {
                let k2 = choose|k2: Seq<char>| ftv(s1[k]).contains(k2) && s2.contains_key(k2) && #[trigger] ftv(s2[k2]).contains(x);
                assert(ftv(s2[k2]).contains(x));
            }
        }
    }
}

fn occurs(var: &String, ty: &MonoType) -> (r: bool)
    ensures
        r == ftv(ty@).contains(var@),
{
    free_type_vars_mono(ty).contains(var)
}

fn bind(var: &String, ty: &MonoType) -> (r: Result<Substitution, InferError>)
    ensures
        subst_result(r) == bind_spec(var@, ty@),
        r matches Ok(s) ==> s.wf() && scoped(s@, set![var@].union(ftv(ty@))),
{
    if mono_eq(ty, &MonoType::Var(var.clone())) {
        let s = Substitution::new();
        Ok(s)
    } else if occurs(var, ty) {
        Err(InferError::OccursCheck { var: var.clone(), ty: copy_mono(ty) })
    } else {
        let mut s = Substitution::new();
        s.insert(var.clone(), copy_mono(ty));
        Ok(s)
    }
}

/// The most general unifier of two types, or why there is none.
pub fn unify(t1: &MonoType, t2: &MonoType) -> (r: Result<Substitution, InferError>)
    ensures
        subst_result(r) == unify_result(t1@, t2@),
        r matches Ok(s) ==> s.wf() && scoped(s@, ftv(t1@).union(ftv(t2@))) && apply(s@, t1@) == apply(
            s@,
            t2@,
        ),
{
    let r = unify_steps(t1, t2);
    proof {
        let f = choose|f: nat| unify_fuel(t1@, t2@, f) == Some(subst_result(r));
        lemma_unify_result(t1@, t2@, f);
        if r is Ok {
            lemma_unifier(t1@, t2@);
        }
    }
    r
}

fn unify_steps(t1: &MonoType, t2: &MonoType) -> (r: Result<Substitution, InferError>)
    ensures
        exists|f: nat| unify_fuel(t1@, t2@, f) == Some(subst_result(r)),
        r matches Ok(s) ==> s.wf() && scoped(s@, ftv(t1@).union(ftv(t2@))),
    decreases ftv(t1@).union(ftv(t2@)).len(), size(t1@) + size(t2@),
{
    let ghost vs = ftv(t1@).union(ftv(t2@));
    proof {
        lemma_ftv_finite(t1@);
        lemma_ftv_finite(t2@);
    }
    match (t1, t2) {
        (MonoType::Int, MonoType::Int) | (MonoType::Bool, MonoType::Bool) => {
            let s = Substitution::new();
            proof {
                assert(unify_fuel(t1@, t2@, 1) == Some(subst_result(Ok::<Substitution, InferError>(s))));
            }
            Ok(s)
        },
        (MonoType::Var(v), _) => {
            let r = bind(v, t2);
            proof {
                assert(unify_fuel(t1@, t2@, 1) == Some(subst_result(r)));
            }
            r
        },
        (_, MonoType::Var(v)) => {
            let r = bind(v, t1);
            proof {
                assert(unify_fuel(t1@, t2@, 1) == Some(subst_result(r)));
            }
            r
        },
        (MonoType::Fun(a1, r1), MonoType::Fun(a2, r2)) => {
            let ghost va = ftv(a1@).union(ftv(a2@));
            proof {
                lemma_ftv_finite(a1@);
                lemma_ftv_finite(a2@);
                lemma_len_subset(va, vs);
            }
            let first = unify_steps(a1, a2);
            let ghost f1 = choose|f: nat| unify_fuel(a1@, a2@, f) == Some(subst_result(first));
            let s1 = match first {
                Ok(s1) => s1,
                Err(e) => {
                    proof {
                        assert(unify_fuel(t1@, t2@, f1 + 1) == Some(subst_result(Err::<Substitution, InferError>(e))));
                    }
                    return Err(e);
                },
            };
            let r1_sub = apply_subst_mono(&s1, r1);
            let r2_sub = apply_subst_mono(&s1, r2);
            let ghost vb = ftv(r1_sub@).union(ftv(r2_sub@));
            proof {
                lemma_ftv_finite(r1_sub@);
                lemma_ftv_finite(r2_sub@);
                lemma_ftv_apply(s1@, r1@);
                lemma_ftv_apply(s1@, r2@);
                assert forall|x: Seq<char>| vb.contains(x) implies vs.contains(x) && !s1@.contains_key(x) by {
                    if ftv(r1_sub@).contains(x) {
                        if !(ftv(r1@).contains(x) && !s1@.contains_key(x)) {
                            let k = choose|k: Seq<char>| ftv(r1@).contains(k) && s1@.contains_key(k) && #[trigger] ftv(s1@[k]).contains(x);
                        }
                    } else {
                        if !(ftv(r2@).contains(x) && !s1@.contains_key(x)) {
                            let k = choose|k: Seq<char>| ftv(r2@).contains(k) && s1@.contains_key(k) && #[trigger] ftv(s1@[k]).contains(x);
                        }
                    }
                }
                if exists|k: Seq<char>| s1@.contains_key(k) {
                    let k = choose|k: Seq<char>| s1@.contains_key(k);
                    assert(vb.subset_of(vs.remove(k)));
                    lemma_len_subset(vb, vs.remove(k));
                } else {
                    lemma_apply_nothing(s1@, r1@);
                    lemma_apply_nothing(s1@, r2@);
                    assert(vb.subset_of(vs));
                    lemma_len_subset(vb, vs);
                }
            }
            let second = unify_steps(&r1_sub, &r2_sub);
            let ghost f2 = choose|f: nat| unify_fuel(r1_sub@, r2_sub@, f) == Some(subst_result(second));
            let ghost big = if f1 <= f2 { f2 } else { f1 };
            proof {
                lemma_unify_fuel_mono(a1@, a2@, f1, big);
                lemma_unify_fuel_mono(r1_sub@, r2_sub@, f2, big);
            }
            let s2 = match second {
                Ok(s2) => s2,
                Err(e) => {
                    proof {
                        assert(unify_fuel(t1@, t2@, big + 1) == Some(subst_result(Err::<Substitution, InferError>(e))));
                    }
                    return Err(e);
                },
            };
            let s = compose_subst(&s2, &s1);
            proof {
                assert(unify_fuel(t1@, t2@, big + 1) == Some(subst_result(Ok::<Substitution, InferError>(s))));
                lemma_compose_scoped(s1@, s2@, va, vb, vs);
            }
            Ok(s)
        },
        _ => {
            let r = Err(InferError::Mismatch { left: copy_mono(t1), right: copy_mono(t2) });
            proof {
                assert(unify_fuel(t1@, t2@, 1) == Some(subst_result(r)));
            }
            r
        },
    }
}

/// The substitution that instantiates the listed variables with fresh
/// variables, numbered from `c` in order; a later duplicate wins.
pub open spec fn inst_subst(vars: Seq<Seq<char>>, c: nat) -> Map<Seq<char>, MonoView>
    decreases vars.len(),
{
    if vars.len() == 0 {
        Map::empty()
    } else {
        inst_subst(vars.drop_last(), c).insert(
            vars.last(),
            MonoView::Var(fresh_name((c + vars.len() - 1) as nat)),
        )
    }
}

/// A scheme instantiated with fresh variables numbered from `c`.
pub open spec fn inst_type(p: PolyView, c: nat) -> MonoView {
    apply(inst_subst(p.vars, c), p.ty)
}

/// Instantiates a scheme: each bound variable becomes a fresh one.
pub fn inst(poly: &PolyType, type_gen: &mut TypeVarGenerator) -> (r: MonoType)
    requires
        old(type_gen).issued() + poly.vars.len() <= usize::MAX,
    ensures
        r@ == inst_type(poly@, old(type_gen).issued()),
        final(type_gen).issued() == old(type_gen).issued() + poly.vars.len(),
{
    let ghost c = type_gen.issued();
    let ghost vars = names_seq(poly.vars@);
    let mut subst = Substitution::new();
    let mut i: usize = 0;
    while i < poly.vars.len()
        invariant
            i <= poly.vars.len(),
            vars == names_seq(poly.vars@),
            c + poly.vars.len() <= usize::MAX,
            type_gen.issued() == c + i,
            subst.wf(),
            subst@ == inst_subst(vars.subrange(0, i as int), c),
        decreases poly.vars.len() - i,
    {
        let v = type_gen.fresh();
        subst.insert(poly.vars[i].clone(), v);
        i = i + 1;
        assert(vars.subrange(0, i as int).drop_last() =~= vars.subrange(0, i - 1));
    }
    assert(vars.subrange(0, poly.vars.len() as int) =~= vars);
    apply_subst_mono(&subst, &poly.ty)
}

/// The variables of a type, left to right, with repetitions.
pub open spec fn occurrences(t: MonoView) -> Seq<Seq<char>>
    decreases t,
{
    match t {
        MonoView::Var(v) => seq![v],
        MonoView::Fun(a, b) => occurrences(*a) + occurrences(*b),
        _ => Seq::empty(),
    }
}

/// The names of `s` that are not in `avoid`, each once, in the order of
/// their first occurrence.
pub open spec fn new_vars(s: Seq<Seq<char>>, avoid: Set<Seq<char>>) -> Seq<Seq<char>>
    decreases s.len(),
{
    if s.len() == 0 {
        Seq::empty()
    } else {
        let r = new_vars(s.drop_last(), avoid);
        if avoid.contains(s.last()) || r.contains(s.last()) {
            r
        } else {
            r.push(s.last())
        }
    }
}

/// The scheme that generalizes a type over the variables that the
/// environment does not mention.
pub open spec fn gener_scheme(env: Map<Seq<char>, PolyView>, t: MonoView) -> PolyView {
    PolyView { vars: new_vars(occurrences(t), ftv_env(env)), ty: t }
}

/// Generalization binds each variable once, and exactly the variables of the
/// type that are free in no scheme of the environment.
pub proof fn lemma_gener_binds_free_vars(env: Map<Seq<char>, PolyView>, t: MonoView)
    ensures
        gener_scheme(env, t).vars.no_duplicates(),
        gener_scheme(env, t).vars.to_set() == ftv(t).difference(ftv_env(env)),
{
    lemma_occurrences(t);
    lemma_new_vars(occurrences(t), ftv_env(env));
    assert(gener_scheme(env, t).vars.to_set() =~= ftv(t).difference(ftv_env(env)));
}

proof fn lemma_occurrences(t: MonoView)
    ensures
        forall|x: Seq<char>| occurrences(t).contains(x) <==> ftv(t).contains(x),
    decreases t,
{
    if let MonoView::Fun(a, b) = t {
        lemma_occurrences(*a);
        lemma_occurrences(*b);
        assert forall|x: Seq<char>| occurrences(t).contains(x) <==> ftv(t).contains(x) by {
            let oa = occurrences(*a);
            let ob = occurrences(*b);
            if occurrences(t).contains(x) {
                let i = choose|i: int| 0 <= i < occurrences(t).len() && occurrences(t)[i] == x;
                if i < oa.len() {
                    assert(oa[i] == x);
                } else {
                    assert(ob[i - oa.len()] == x);
                }
            }
            if ftv(*a).contains(x) {
                let i = choose|i: int| 0 <= i < oa.len() && oa[i] == x;
                assert(occurrences(t)[i] == x);
            } else if ftv(*b).contains(x) {
                let i = choose|i: int| 0 <= i < ob.len() && ob[i] == x;
                assert(occurrences(t)[oa.len() + i] == x);
            }
        }
    } else if let MonoView::Var(v) = t {
        assert(occurrences(t)[0] == v);
    }
}

proof fn lemma_new_vars(s: Seq<Seq<char>>, avoid: Set<Seq<char>>)
    ensures
        new_vars(s, avoid).no_duplicates(),
        forall|x: Seq<char>| new_vars(s, avoid).contains(x) <==> (s.contains(x) && !avoid.contains(x)),
    decreases s.len(),
{
    if s.len() > 0 {
        lemma_new_vars(s.drop_last(), avoid);
        let r = new_vars(s.drop_last(), avoid);
        assert forall|x: Seq<char>| s.contains(x) <==> (s.drop_last().contains(x) || x == s.last()) by {
            if s.contains(x) {
                let i = choose|i: int| 0 <= i < s.len() && s[i] == x;
                if i < s.len() - 1 {
                    assert(s.drop_last()[i] == x);
                }
            }
            if s.drop_last().contains(x) {
                let i = choose|i: int| 0 <= i < s.drop_last().len() && s.drop_last()[i] == x;
                assert(s[i] == x);
            }
        }
        if !(avoid.contains(s.last()) || r.contains(s.last())) {
            assert forall|x: Seq<char>| r.push(s.last()).contains(x) <==> (r.contains(x) || x == s.last()) by {
                if r.push(s.last()).contains(x) {
                    let i = choose|i: int| 0 <= i < r.push(s.last()).len() && r.push(s.last())[i] == x;
                    if i < r.len() {
                        assert(r[i] == x);
                    }
                }
                if r.contains(x) {
                    let i = choose|i: int| 0 <= i < r.len() && r[i] == x;
                    assert(r.push(s.last())[i] == x);
                }
                if x == s.last() {
                    assert(r.push(s.last())[r.len() as int] == x);
                }
            }
        }
    }
}

fn push_occurrences(t: &MonoType, out: &mut Vec<String>)
    ensures
        names_seq(final(out)@) == names_seq(old(out)@) + occurrences(t@),
    decreases t,
{
    match t {
        MonoType::Var(v) => {
            out.push(v.clone());
            proof {
                assert(names_seq(out@) =~= names_seq(old(out)@) + occurrences(t@));
            }
        },
        MonoType::Fun(a, b) => {
            push_occurrences(a, out);
            push_occurrences(b, out);
            proof {
                assert(names_seq(old(out)@) + occurrences(a@) + occurrences(b@) =~= names_seq(old(out)@)
                    + occurrences(t@));
            }
        },
        _ => {
            proof {
                assert(names_seq(out@) =~= names_seq(old(out)@) + occurrences(t@));
            }
        },
    }
}

/// Generalizes a type over the variables that the environment leaves free.
pub fn gener(env: &TypeEnvironment, ty: &MonoType) -> (r: PolyType)
    requires
        env.wf(),
    ensures
        r@ == gener_scheme(env@, ty@),
{
    let env_vars = free_type_vars_env(env);
    let mut occurrences_list: Vec<String> = Vec::new();
    push_occurrences(ty, &mut occurrences_list);
    let ghost occ = names_seq(occurrences_list@);
    assert(occ =~= occurrences(ty@));
    let mut vars: Vec<String> = Vec::new();
    let mut i: usize = 0;
    while i < occurrences_list.len()
        invariant
            i <= occurrences_list.len(),
            occ == names_seq(occurrences_list@),
            occ == occurrences(ty@),
            env_vars@ == ftv_env(env@),
            names_seq(vars@) == new_vars(occ.subrange(0, i as int), ftv_env(env@)),
        decreases occurrences_list.len() - i,
    {
        let name = &occurrences_list[i];
        let ghost prefix = occ.subrange(0, i + 1);
        assert(prefix.drop_last() =~= occ.subrange(0, i as int));
        assert(prefix.last() == name@);
        if !env_vars.contains(name) && !names_contain(&vars, name.as_str()) {
            let ghost before = names_seq(vars@);
            vars.push(name.clone());
            assert(names_seq(vars@) =~= before.push(name@));
        }
        proof {
            if names_seq(vars@).to_set().contains(name@) {
            }
        }
        i = i + 1;
    }
    assert(occ.subrange(0, occurrences_list.len() as int) =~= occ);
    PolyType { vars, ty: copy_mono(ty) }
}

/// What inference gives: the substitution and the type, or the error; and
/// how many fresh variables have been issued by then.
pub type Inference = (Result<(Map<Seq<char>, MonoView>, MonoView), InferErrorView>, nat);

/// A scheme with no bound variable.
pub open spec fn mono_scheme(t: MonoView) -> PolyView {
    PolyView { vars: Seq::empty(), ty: t }
}

/// The operand type and the result type of a binary operator.
pub open spec fn operator_types(op: BinOp) -> (MonoView, MonoView) {
    match op {
        BinOp::Add | BinOp::Sub | BinOp::Mul => (MonoView::Int, MonoView::Int),
        BinOp::Less => (MonoView::Int, MonoView::Bool),
        BinOp::And => (MonoView::Bool, MonoView::Bool),
    }
}

/// Inference of the type of a term in an environment, with fresh variables
/// numbered from `c`.
pub open spec fn infer_spec(env: Map<Seq<char>, PolyView>, t: Term, c: nat) -> Inference
    decreases t, 1nat,
{
    match t {
        Term::Int(_) => (Ok((Map::empty(), MonoView::Int)), c),
        Term::Bool(_) => (Ok((Map::empty(), MonoView::Bool)), c),
        Term::Var(name) => if !env.contains_key(name@) {
            (Err(InferErrorView::UnboundVariable(name@)), c)
        } else if c + env[name@].vars.len() > usize::MAX {
            (Err(InferErrorView::TooManyTypeVariables), c)
        } else {
            (Ok((Map::empty(), inst_type(env[name@], c))), c + env[name@].vars.len())
        },
        Term::BinOp(..) => infer_binop_spec(env, t, c),
        Term::Not(..) => infer_not_spec(env, t, c),
        Term::If(..) => infer_if_spec(env, t, c),
        Term::Fun { .. } => infer_fun_spec(env, t, c),
        Term::App(..) => infer_app_spec(env, t, c),
        Term::Let(..) => infer_let_spec(env, t, c),
        Term::LetFun { .. } => infer_letfun_spec(env, t, c),
    }
}

pub open spec fn infer_binop_spec(env: Map<Seq<char>, PolyView>, t: Term, c: nat) -> Inference
    decreases t, 0nat,
{
    match t {
        Term::BinOp(l, op, r) => {
            let (operand, result) = operator_types(op);
            match infer_spec(env, *l, c) {
                (Err(e), c1) => (Err(e), c1),
                (Ok((s1, t1)), c1) => match infer_spec(apply_env(s1, env), *r, c1) {
                    (Err(e), c2) => (Err(e), c2),
                    (Ok((s2, t2)), c2) => match unify_result(apply(s2, t1), operand) {
                        Err(e) => (Err(e), c2),
                        Ok(s3) => match unify_result(apply(s3, t2), operand) {
                            Err(e) => (Err(e), c2),
                            Ok(s4) => (Ok((compose(s4, compose(s3, compose(s2, s1))), result)), c2),
                        },
                    },
                },
            }
        },
        _ => (Err(InferErrorView::TooManyTypeVariables), c),
    }
}

pub open spec fn infer_not_spec(env: Map<Seq<char>, PolyView>, t: Term, c: nat) -> Inference
    decreases t, 0nat,
{
    match t {
        Term::Not(inner) => match infer_spec(env, *inner, c) {
            (Err(e), c1) => (Err(e), c1),
            (Ok((s1, t1)), c1) => match unify_result(t1, MonoView::Bool) {
                Err(e) => (Err(e), c1),
                Ok(s2) => (Ok((compose(s2, s1), MonoView::Bool)), c1),
            },
        },
        _ => (Err(InferErrorView::TooManyTypeVariables), c),
    }
}

pub open spec fn infer_if_spec(env: Map<Seq<char>, PolyView>, t: Term, c: nat) -> Inference
    decreases t, 0nat,
{
    match t {
        Term::If(cond, a, b) => match infer_spec(env, *cond, c) {
            (Err(e), c1) => (Err(e), c1),
            (Ok((s1, tc)), c1) => match unify_result(tc, MonoView::Bool) {
                Err(e) => (Err(e), c1),
                Ok(sb) => {
                    let env1 = apply_env(compose(sb, s1), env);
                    match infer_spec(env1, *a, c1) {
                        (Err(e), c2) => (Err(e), c2),
                        (Ok((s2, tt)), c2) => match infer_spec(apply_env(s2, env1), *b, c2) {
                            (Err(e), c3) => (Err(e), c3),
                            (Ok((s3, te)), c3) => match unify_result(apply(s3, tt), te) {
                                Err(e) => (Err(e), c3),
                                Ok(s4) => {
                                    let subst = compose(s4, compose(s3, compose(s2, compose(sb, s1))));
                                    (Ok((subst, apply(subst, te))), c3)
                                },
                            },
                        },
                    }
                },
            },
        },
        _ => (Err(InferErrorView::TooManyTypeVariables), c),
    }
}

pub open spec fn infer_fun_spec(env: Map<Seq<char>, PolyView>, t: Term, c: nat) -> Inference
    decreases t, 0nat,
{
    match t {
        Term::Fun { param, param_type: _, body } => if c >= usize::MAX {
            (Err(InferErrorView::TooManyTypeVariables), c)
        } else {
            let pt = MonoView::Var(fresh_name(c));
            match infer_spec(env.insert(param@, mono_scheme(pt)), *body, c + 1) {
                (Err(e), c1) => (Err(e), c1),
                (Ok((s1, bt)), c1) => (Ok((s1, MonoView::Fun(Box::new(apply(s1, pt)), Box::new(bt)))), c1),
            }
        },
        _ => (Err(InferErrorView::TooManyTypeVariables), c),
    }
}

pub open spec fn infer_app_spec(env: Map<Seq<char>, PolyView>, t: Term, c: nat) -> Inference
    decreases t, 0nat,
{
    match t {
        Term::App(f, a) => if c >= usize::MAX {
            (Err(InferErrorView::TooManyTypeVariables), c)
        } else {
            let rt = MonoView::Var(fresh_name(c));
            match infer_spec(env, *f, c + 1) {
                (Err(e), c1) => (Err(e), c1),
                (Ok((s1, ft)), c1) => match infer_spec(apply_env(s1, env), *a, c1) {
                    (Err(e), c2) => (Err(e), c2),
                    (Ok((s2, at)), c2) => match unify_result(
                        apply(s2, ft),
                        MonoView::Fun(Box::new(at), Box::new(rt)),
                    ) {
                        Err(e) => (Err(e), c2),
                        Ok(s3) => {
                            let subst = compose(s3, compose(s2, s1));
                            (Ok((subst, apply(subst, rt))), c2)
                        },
                    },
                },
            }
        },
        _ => (Err(InferErrorView::TooManyTypeVariables), c),
    }
}

pub open spec fn infer_let_spec(env: Map<Seq<char>, PolyView>, t: Term, c: nat) -> Inference
    decreases t, 0nat,
{
    match t {
        Term::Let(name, value, body) => match infer_spec(env, *value, c) {
            (Err(e), c1) => (Err(e), c1),
            (Ok((s1, vt)), c1) => {
                let env1 = apply_env(s1, env);
                let scheme = gener_scheme(env1, apply(s1, vt));
                match infer_spec(env1.insert(name@, scheme), *body, c1) {
                    (Err(e), c2) => (Err(e), c2),
                    (Ok((s2, bt)), c2) => (Ok((compose(s2, s1), bt)), c2),
                }
            },
        },
        _ => (Err(InferErrorView::TooManyTypeVariables), c),
    }
}

pub open spec fn infer_letfun_spec(env: Map<Seq<char>, PolyView>, t: Term, c: nat) -> Inference
    decreases t, 0nat,
{
    match t {
        Term::LetFun { name, param, param_type: _, return_type: _, body, in_term } => if c + 2
            > usize::MAX {
            (Err(InferErrorView::TooManyTypeVariables), c)
        } else {
            let pt = MonoView::Var(fresh_name(c));
            let rt = MonoView::Var(fresh_name(c + 1));
            let ft = MonoView::Fun(Box::new(pt), Box::new(rt));
            let env1 = env.insert(name@, mono_scheme(ft)).insert(param@, mono_scheme(pt));
            match infer_spec(env1, *body, c + 2) {
                (Err(e), c1) => (Err(e), c1),
                (Ok((s1, bt)), c1) => match unify_result(apply(s1, rt), bt) {
                    Err(e) => (Err(e), c1),
                    Ok(s2) => {
                        let sf = compose(s2, s1);
                        let env2 = apply_env(sf, env);
                        let scheme = gener_scheme(env2, apply(sf, ft));
                        match infer_spec(env2.insert(name@, scheme), *in_term, c1) {
                            (Err(e), c2) => (Err(e), c2),
                            (Ok((s3, it)), c2) => (Ok((compose(s3, sf), it)), c2),
                        }
                    },
                },
            }
        },
        _ => (Err(InferErrorView::TooManyTypeVariables), c),
    }
}

/// The views of a result from `infer`.
pub open spec fn inferred(r: Result<(Substitution, MonoType), InferError>) -> Result<
    (Map<Seq<char>, MonoView>, MonoView),
    InferErrorView,
> {
    match r {
        Ok((s, t)) => Ok((s@, t@)),
        Err(e) => Err(e@),
    }
}

fn operator_types_exec(op: BinOp) -> (r: (MonoType, MonoType))
    ensures
        (r.0@, r.1@) == operator_types(op),
{
    match op {
        BinOp::Add | BinOp::Sub | BinOp::Mul => (MonoType::Int, MonoType::Int),
        BinOp::Less => (MonoType::Int, MonoType::Bool),
        BinOp::And => (MonoType::Bool, MonoType::Bool),
    }
}

/// Algorithm W: the substitution and the type that a term gets in an
/// environment, drawing fresh type variables from `type_gen`.
pub fn infer(env: &TypeEnvironment, term: &Term, type_gen: &mut TypeVarGenerator) -> (r: Result<
    (Substitution, MonoType),
    InferError,
>)
    requires
        env.wf(),
    ensures
        (inferred(r), final(type_gen).issued()) == infer_spec(env@, *term, old(type_gen).issued()),
        r matches Ok((s, _)) ==> s.wf(),
    decreases term, 1nat,
{
    match term {
        Term::Int(_) => Ok((Substitution::new(), MonoType::Int)),
        Term::Bool(_) => Ok((Substitution::new(), MonoType::Bool)),
        Term::Var(name) => match env.get(name.as_str()) {
            None => Err(InferError::UnboundVariable(name.clone())),
            Some(poly) => {
                if !type_gen.has_room(poly.vars.len()) {
                    return Err(InferError::TooManyTypeVariables);
                }
                let t = inst(poly, type_gen);
                Ok((Substitution::new(), t))
            },
        },
        Term::BinOp(..) => infer_binop(env, term, type_gen),
        Term::Not(..) => infer_not(env, term, type_gen),
        Term::If(..) => infer_if(env, term, type_gen),
        Term::Fun { .. } => infer_fun(env, term, type_gen),
        Term::App(..) => infer_app(env, term, type_gen),
        Term::Let(..) => infer_let(env, term, type_gen),
        Term::LetFun { .. } => infer_letfun(env, term, type_gen),
    }
}

fn infer_binop(env: &TypeEnvironment, term: &Term, type_gen: &mut TypeVarGenerator) -> (r: Result<
    (Substitution, MonoType),
    InferError,
>)
    requires
        env.wf(),
    ensures
        (inferred(r), final(type_gen).issued()) == infer_binop_spec(env@, *term, old(type_gen).issued()),
        r matches Ok((s, _)) ==> s.wf(),
    decreases term, 0nat,
{
    match term {
        Term::BinOp(left, op, right) => {
            let (operand, result) = operator_types_exec(*op);
            let (s1, t1) = infer(env, left, type_gen)?;
            let env1 = apply_subst_env(&s1, env);
            let (s2, t2) = infer(&env1, right, type_gen)?;
            let s3 = unify(&apply_subst_mono(&s2, &t1), &operand)?;
            let s4 = unify(&apply_subst_mono(&s3, &t2), &operand)?;
            let subst = compose_subst(&s4, &compose_subst(&s3, &compose_subst(&s2, &s1)));
            Ok((subst, result))
        },
        _ => Err(InferError::TooManyTypeVariables),
    }
}

fn infer_not(env: &TypeEnvironment, term: &Term, type_gen: &mut TypeVarGenerator) -> (r: Result<
    (Substitution, MonoType),
    InferError,
>)
    requires
        env.wf(),
    ensures
        (inferred(r), final(type_gen).issued()) == infer_not_spec(env@, *term, old(type_gen).issued()),
        r matches Ok((s, _)) ==> s.wf(),
    decreases term, 0nat,
{
    match term {
        Term::Not(inner) => {
            let (s1, t1) = infer(env, inner, type_gen)?;
            let s2 = unify(&t1, &MonoType::Bool)?;
            Ok((compose_subst(&s2, &s1), MonoType::Bool))
        },
        _ => Err(InferError::TooManyTypeVariables),
    }
}

fn infer_if(env: &TypeEnvironment, term: &Term, type_gen: &mut TypeVarGenerator) -> (r: Result<
    (Substitution, MonoType),
    InferError,
>)
    requires
        env.wf(),
    ensures
        (inferred(r), final(type_gen).issued()) == infer_if_spec(env@, *term, old(type_gen).issued()),
        r matches Ok((s, _)) ==> s.wf(),
    decreases term, 0nat,
{
    match term {
        Term::If(condition, then_term, else_term) => {
            let (s1, t_cond) = infer(env, condition, type_gen)?;
            let s_bool = unify(&t_cond, &MonoType::Bool)?;
            let env1 = apply_subst_env(&compose_subst(&s_bool, &s1), env);
            let (s2, t_then) = infer(&env1, then_term, type_gen)?;
            let env2 = apply_subst_env(&s2, &env1);
            let (s3, t_else) = infer(&env2, else_term, type_gen)?;
            let s4 = unify(&apply_subst_mono(&s3, &t_then), &t_else)?;
            let subst = compose_subst(
                &s4,
                &compose_subst(&s3, &compose_subst(&s2, &compose_subst(&s_bool, &s1))),
            );
            let final_type = apply_subst_mono(&subst, &t_else);
            Ok((subst, final_type))
        },
        _ => Err(InferError::TooManyTypeVariables),
    }
}

fn infer_fun(env: &TypeEnvironment, term: &Term, type_gen: &mut TypeVarGenerator) -> (r: Result<
    (Substitution, MonoType),
    InferError,
>)
    requires
        env.wf(),
    ensures
        (inferred(r), final(type_gen).issued()) == infer_fun_spec(env@, *term, old(type_gen).issued()),
        r matches Ok((s, _)) ==> s.wf(),
    decreases term, 0nat,
{
    match term {
        Term::Fun { param, param_type: _, body } => {
            if !type_gen.has_room(1) {
                return Err(InferError::TooManyTypeVariables);
            }
            let param_type = type_gen.fresh();
            let mut env1 = env.copy();
            env1.insert(param.clone(), mono(copy_mono(&param_type)));
            let (s1, body_type) = infer(&env1, body, type_gen)?;
            let final_param_type = apply_subst_mono(&s1, &param_type);
            Ok((s1, MonoType::Fun(Box::new(final_param_type), Box::new(body_type))))
        },
        _ => Err(InferError::TooManyTypeVariables),
    }
}

fn infer_app(env: &TypeEnvironment, term: &Term, type_gen: &mut TypeVarGenerator) -> (r: Result<
    (Substitution, MonoType),
    InferError,
>)
    requires
        env.wf(),
    ensures
        (inferred(r), final(type_gen).issued()) == infer_app_spec(env@, *term, old(type_gen).issued()),
        r matches Ok((s, _)) ==> s.wf(),
    decreases term, 0nat,
{
    match term {
        Term::App(fun_term, arg_term) => {
            if !type_gen.has_room(1) {
                return Err(InferError::TooManyTypeVariables);
            }
            let result_type = type_gen.fresh();
            let (s1, fun_type) = infer(env, fun_term, type_gen)?;
            let env1 = apply_subst_env(&s1, env);
            let (s2, arg_type) = infer(&env1, arg_term, type_gen)?;
            let expected = MonoType::Fun(Box::new(arg_type), Box::new(copy_mono(&result_type)));
            let s3 = unify(&apply_subst_mono(&s2, &fun_type), &expected)?;
            let subst = compose_subst(&s3, &compose_subst(&s2, &s1));
            let final_type = apply_subst_mono(&subst, &result_type);
            Ok((subst, final_type))
        },
        _ => Err(InferError::TooManyTypeVariables),
    }
}

fn infer_let(env: &TypeEnvironment, term: &Term, type_gen: &mut TypeVarGenerator) -> (r: Result<
    (Substitution, MonoType),
    InferError,
>)
    requires
        env.wf(),
    ensures
        (inferred(r), final(type_gen).issued()) == infer_let_spec(env@, *term, old(type_gen).issued()),
        r matches Ok((s, _)) ==> s.wf(),
    decreases term, 0nat,
{
    match term {
        Term::Let(name, value, body) => {
            let (s1, value_type) = infer(env, value, type_gen)?;
            let mut env1 = apply_subst_env(&s1, env);
            let generalized = gener(&env1, &apply_subst_mono(&s1, &value_type));
            env1.insert(name.clone(), generalized);
            let (s2, body_type) = infer(&env1, body, type_gen)?;
            Ok((compose_subst(&s2, &s1), body_type))
        },
        _ => Err(InferError::TooManyTypeVariables),
    }
}

fn infer_letfun(env: &TypeEnvironment, term: &Term, type_gen: &mut TypeVarGenerator) -> (r: Result<
    (Substitution, MonoType),
    InferError,
>)
    requires
        env.wf(),
    ensures
        (inferred(r), final(type_gen).issued()) == infer_letfun_spec(env@, *term, old(type_gen).issued()),
        r matches Ok((s, _)) ==> s.wf(),
    decreases term, 0nat,
{
    match term {
        Term::LetFun { name, param, param_type: _, return_type: _, body, in_term } => {
            if !type_gen.has_room(2) {
                return Err(InferError::TooManyTypeVariables);
            }
            let param_type = type_gen.fresh();
            let result_type = type_gen.fresh();
            let fun_type = MonoType::Fun(Box::new(copy_mono(&param_type)), Box::new(copy_mono(&result_type)));
            let mut env1 = env.copy();
            env1.insert(name.clone(), mono(copy_mono(&fun_type)));
            env1.insert(param.clone(), mono(param_type));
            let (s1, body_type) = infer(&env1, body, type_gen)?;
            let s2 = unify(&apply_subst_mono(&s1, &result_type), &body_type)?;
            let subst_fun = compose_subst(&s2, &s1);
            let mut env2 = apply_subst_env(&subst_fun, env);
            let final_fun_type = apply_subst_mono(&subst_fun, &fun_type);
            let generalized = gener(&env2, &final_fun_type);
            env2.insert(name.clone(), generalized);
            let (s3, in_type) = infer(&env2, in_term, type_gen)?;
            Ok((compose_subst(&s3, &subst_fun), in_type))
        },
        _ => Err(InferError::TooManyTypeVariables),
    }
}

/// The type that inference gives a closed term: the inferred type with the
/// final substitution applied.
pub open spec fn inferred_type(t: Term) -> Result<MonoView, InferErrorView> {
    match infer_spec(Map::empty(), t, 0).0 {
        Ok((s, ty)) => Ok(apply(s, ty)),
        Err(e) => Err(e),
    }
}

/// The type of an integer or Boolean value; none for a function.
pub open spec fn value_mono(v: ValueView) -> Option<MonoView> {
    match v {
        ValueView::Int(_) => Some(MonoView::Int),
        ValueView::Bool(_) => Some(MonoView::Bool),
        _ => None,
    }
}

/// Inference gives an operation the type of what it computes: where the
/// inference of `l op r` succeeds with type `t`, every value that the
/// operation evaluates to, in any memory, is an integer or a Boolean of
/// type `t`; so does the type that `typecheck` reports for a closed
/// operation.
pub proof fn lemma_inferred_operation_type(
    l: Term,
    op: BinOp,
    r: Term,
    env: Map<Seq<char>, PolyView>,
    c: nat,
    values: Map<Seq<char>, ValueView>,
    fuel: nat,
)
    ensures
        infer_spec(env, Term::BinOp(Box::new(l), op, Box::new(r)), c).0 matches Ok((s, t)) ==> (term_value(
            Term::BinOp(Box::new(l), op, Box::new(r)),
            values,
            fuel,
        ) matches Ok(v) ==> value_mono(v) == Some(t)),
        inferred_type(Term::BinOp(Box::new(l), op, Box::new(r))) matches Ok(t) ==> (term_value(
            Term::BinOp(Box::new(l), op, Box::new(r)),
            values,
            fuel,
        ) matches Ok(v) ==> value_mono(v) == Some(t)),
{
    let t = Term::BinOp(Box::new(l), op, Box::new(r));
    let result = operator_types(op).1;
    assert(infer_spec(env, t, c).0 matches Ok((s, ty)) ==> ty == result);
    assert(infer_spec(Map::empty(), t, 0).0 matches Ok((s, ty)) ==> ty == result);
    assert(forall|s: Map<Seq<char>, MonoView>| apply(s, result) == result);
}

/// Two equal integer or Boolean types unify with the empty substitution.
proof fn lemma_unify_ground(t: MonoView)
    requires
        t == MonoView::Int || t == MonoView::Bool,
    ensures
        unify_result(t, t) == Ok::<Map<Seq<char>, MonoView>, InferErrorView>(Map::empty()),
{
    assert(unify_fuel(t, t, 1) is Some);
}

/// Inference accepts every operation that computes: where the operands
/// infer, one after the other, to integer or Boolean types, and values of
/// those types combine under the operator into a value, the operation
/// infers to the type of that value.
pub proof fn lemma_operations_that_compute_infer(
    l: Term,
    op: BinOp,
    r: Term,
    env: Map<Seq<char>, PolyView>,
    c: nat,
    a: ValueView,
    b: ValueView,
)
    requires
        infer_spec(env, l, c).0 matches Ok((s1, t1)) && infer_spec(apply_env(s1, env), r, infer_spec(env, l, c).1).0 matches Ok(
            (s2, t2),
        ) && value_mono(a) == Some(apply(s2, t1)) && value_mono(b) == Some(t2),
        crate::minifun::eval::binop_value(op, a, b) is Ok,
    ensures
        infer_spec(env, Term::BinOp(Box::new(l), op, Box::new(r)), c).0 matches Ok((s, t)) && Some(t) == value_mono(
            crate::minifun::eval::binop_value(op, a, b)->Ok_0,
        ),
{
    let operand = operator_types(op).0;
    let (s1, t1) = infer_spec(env, l, c).0->Ok_0;
    let (s2, t2) = infer_spec(apply_env(s1, env), r, infer_spec(env, l, c).1).0->Ok_0;
    assert(apply(s2, t1) == operand && t2 == operand);
    lemma_unify_ground(operand);
    assert(apply(Map::<Seq<char>, MonoView>::empty(), t2) == t2);
}

/// Infers the type of a closed term, from an empty environment.
pub fn typecheck(term: &Term) -> (r: Result<MonoType, InferError>)
    ensures
        match r {
            Ok(ty) => inferred_type(*term) == Ok::<MonoView, InferErrorView>(ty@),
            Err(e) => inferred_type(*term) == Err::<MonoView, InferErrorView>(e@),
        },
{
    let env = TypeEnvironment::new();
    let mut type_gen = TypeVarGenerator::new();
    let (subst, ty) = infer(&env, term, &mut type_gen)?;
    Ok(apply_subst_mono(&subst, &ty))
}

/// A substitution leaves alone a type none of whose variables it binds.
pub proof fn lemma_apply_unbound(s: Map<Seq<char>, MonoView>, t: MonoView)
    requires
        forall|x: Seq<char>| ftv(t).contains(x) ==> !s.contains_key(x),
    ensures
        apply(s, t) == t,
    decreases t,
{
    if let MonoView::Fun(a, b) = t {
        lemma_apply_unbound(s, *a);
        lemma_apply_unbound(s, *b);
    }
}

/// With disjoint domains, applying a composition is applying one substitution
/// after the other.
pub proof fn lemma_apply_compose(s2: Map<Seq<char>, MonoView>, s1: Map<Seq<char>, MonoView>, t: MonoView)
    requires
        forall|x: Seq<char>| s2.contains_key(x) ==> !s1.contains_key(x),
    ensures
        apply(compose(s2, s1), t) == apply(s2, apply(s1, t)),
    decreases t,
{
    if let MonoView::Fun(a, b) = t {
        lemma_apply_compose(s2, s1, *a);
        lemma_apply_compose(s2, s1, *b);
    }
}

proof fn lemma_unify_fuel_unifies(t1: MonoView, t2: MonoView, f: nat)
    requires
        unify_fuel(t1, t2, f) matches Some(Ok(_)),
    ensures
        unify_fuel(t1, t2, f) matches Some(Ok(s)) && scoped(s, ftv(t1).union(ftv(t2))) && apply(s, t1)
            == apply(s, t2),
    decreases f,
{
    let vs = ftv(t1).union(ftv(t2));
    if t1 == MonoView::Int && t2 == MonoView::Int {
    } else if t1 == MonoView::Bool && t2 == MonoView::Bool {
    } else if t1 is Var || t2 is Var {
        let (v, t) = if t1 is Var {
            (t1->Var_0, t2)
        } else {
            (t2->Var_0, t1)
        };
        if t != MonoView::Var(v) {
            let m = Map::<Seq<char>, MonoView>::empty().insert(v, t);
            lemma_apply_unbound(m, t);
        }
    } else if let MonoView::Fun(a1, r1) = t1 {
        if let MonoView::Fun(a2, r2) = t2 {
            let g = (f - 1) as nat;
            lemma_unify_fuel_unifies(*a1, *a2, g);
            let s1 = unify_fuel(*a1, *a2, g)->Some_0->Ok_0;
            let va = ftv(*a1).union(ftv(*a2));
            let r1s = apply(s1, *r1);
            let r2s = apply(s1, *r2);
            lemma_unify_fuel_unifies(r1s, r2s, g);
            let s2 = unify_fuel(r1s, r2s, g)->Some_0->Ok_0;
            let vb = ftv(r1s).union(ftv(r2s));
            lemma_ftv_apply(s1, *r1);
            lemma_ftv_apply(s1, *r2);
            assert forall|x: Seq<char>| vb.contains(x) implies vs.contains(x) && !s1.contains_key(x) by {
                if ftv(r1s).contains(x) {
                    if !(ftv(*r1).contains(x) && !s1.contains_key(x)) {
                        let k = choose|k: Seq<char>| ftv(*r1).contains(k) && s1.contains_key(k) && #[trigger] ftv(s1[k]).contains(x);
                    }
                } else {
                    if !(ftv(*r2).contains(x) && !s1.contains_key(x)) {
                        let k = choose|k: Seq<char>| ftv(*r2).contains(k) && s1.contains_key(k) && #[trigger] ftv(s1[k]).contains(x);
                    }
                }
            }
            lemma_compose_scoped(s1, s2, va, vb, vs);
            lemma_apply_compose(s2, s1, *a1);
            lemma_apply_compose(s2, s1, *a2);
            lemma_apply_compose(s2, s1, *r1);
            lemma_apply_compose(s2, s1, *r2);
        }
    }
}

/// What unification returns is a unifier: it maps both types to the same
/// type, binds only their variables, and its types mention none of the
/// variables it binds.
pub proof fn lemma_unifier(t1: MonoView, t2: MonoView)
    requires
        unify_result(t1, t2) is Ok,
    ensures
        apply(unify_result(t1, t2)->Ok_0, t1) == apply(unify_result(t1, t2)->Ok_0, t2),
        scoped(unify_result(t1, t2)->Ok_0, ftv(t1).union(ftv(t2))),
{
    let f = choose|f: nat| unify_fuel(t1, t2, f) is Some;
    lemma_unify_fuel_unifies(t1, t2, f);
}


/// Unification always comes to an answer: some fuel is enough.
proof fn lemma_unify_terminates(t1: MonoView, t2: MonoView) -> (f: nat)
    ensures
        unify_fuel(t1, t2, f) is Some,
    decreases ftv(t1).union(ftv(t2)).len(), size(t1) + size(t2),
{
    let vs = ftv(t1).union(ftv(t2));
    lemma_ftv_finite(t1);
    lemma_ftv_finite(t2);
    if t1 == MonoView::Int && t2 == MonoView::Int {
        1
    } else if t1 == MonoView::Bool && t2 == MonoView::Bool {
        1
    } else if t1 is Var || t2 is Var {
        1
    } else {
        match (t1, t2) {
            (MonoView::Fun(a1, r1), MonoView::Fun(a2, r2)) => {
                let va = ftv(*a1).union(ftv(*a2));
                lemma_ftv_finite(*a1);
                lemma_ftv_finite(*a2);
                lemma_len_subset(va, vs);
                let f1 = lemma_unify_terminates(*a1, *a2);
                match unify_fuel(*a1, *a2, f1) {
                    Some(Ok(s1)) => {
                        lemma_unify_fuel_unifies(*a1, *a2, f1);
                        let r1s = apply(s1, *r1);
                        let r2s = apply(s1, *r2);
                        let vb = ftv(r1s).union(ftv(r2s));
                        lemma_ftv_finite(r1s);
                        lemma_ftv_finite(r2s);
                        lemma_ftv_apply(s1, *r1);
                        lemma_ftv_apply(s1, *r2);
                        assert forall|x: Seq<char>| vb.contains(x) implies vs.contains(x) && !s1.contains_key(x) by {
                            if ftv(r1s).contains(x) {
                                if !(ftv(*r1).contains(x) && !s1.contains_key(x)) {
                                    let k = choose|k: Seq<char>|
                                        ftv(*r1).contains(k) && s1.contains_key(k) && #[trigger] ftv(s1[k]).contains(x);
                                }
                            } else {
                                if !(ftv(*r2).contains(x) && !s1.contains_key(x)) {
                                    let k = choose|k: Seq<char>|
                                        ftv(*r2).contains(k) && s1.contains_key(k) && #[trigger] ftv(s1[k]).contains(x);
                                }
                            }
                        }
                        if exists|k: Seq<char>| s1.contains_key(k) {
                            let k = choose|k: Seq<char>| s1.contains_key(k);
                            assert(vb.subset_of(vs.remove(k)));
                            lemma_len_subset(vb, vs.remove(k));
                        } else {
                            lemma_apply_nothing(s1, *r1);
                            lemma_apply_nothing(s1, *r2);
                            assert(vb.subset_of(vs));
                            lemma_len_subset(vb, vs);
                        }
                        let f2 = lemma_unify_terminates(r1s, r2s);
                        let big = if f1 <= f2 {
                            f2
                        } else {
                            f1
                        };
                        lemma_unify_fuel_mono(*a1, *a2, f1, big);
                        lemma_unify_fuel_mono(r1s, r2s, f2, big);
                        big + 1
                    },
                    _ => f1 + 1,
                }
            },
            _ => 1,
        }
    }
}

/// Applying `s` first and `u` after gives, on every type, what `u` alone
/// gives: `u` is an instance of `s`.
pub open spec fn absorbs(u: Map<Seq<char>, MonoView>, s: Map<Seq<char>, MonoView>) -> bool {
    forall|t: MonoView| #[trigger] apply(u, apply(s, t)) == apply(u, t)
}

proof fn lemma_absorbs_type(u: Map<Seq<char>, MonoView>, s: Map<Seq<char>, MonoView>, t: MonoView)
    requires
        forall|w: Seq<char>| #[trigger] apply(u, apply(s, MonoView::Var(w))) == apply(u, MonoView::Var(w)),
    ensures
        apply(u, apply(s, t)) == apply(u, t),
    decreases t,
{
    match t {
        MonoView::Var(w) => {
            assert(apply(u, apply(s, MonoView::Var(w))) == apply(u, MonoView::Var(w)));
        },
        MonoView::Fun(a, b) => {
            lemma_absorbs_type(u, s, *a);
            lemma_absorbs_type(u, s, *b);
        },
        _ => {},
    }
}

proof fn lemma_absorbs_from_vars(u: Map<Seq<char>, MonoView>, s: Map<Seq<char>, MonoView>)
    requires
        forall|w: Seq<char>| #[trigger] apply(u, apply(s, MonoView::Var(w))) == apply(u, MonoView::Var(w)),
    ensures
        absorbs(u, s),
{
    assert forall|t: MonoView| #[trigger] apply(u, apply(s, t)) == apply(u, t) by {
        lemma_absorbs_type(u, s, t);
    }
}

/// A variable that occurs in a type is, after any substitution, no bigger
/// than the type; strictly smaller when the type is not the variable itself.
proof fn lemma_size_occurs(u: Map<Seq<char>, MonoView>, v: Seq<char>, t: MonoView)
    requires
        ftv(t).contains(v),
    ensures
        size(apply(u, MonoView::Var(v))) <= size(apply(u, t)),
        t != MonoView::Var(v) ==> size(apply(u, MonoView::Var(v))) < size(apply(u, t)),
    decreases t,
{
    if let MonoView::Fun(a, b) = t {
        if ftv(*a).contains(v) {
            lemma_size_occurs(u, v, *a);
        } else {
            lemma_size_occurs(u, v, *b);
        }
    }
}

/// Binding a variable to a type that `u` makes equal to it: the binding
/// succeeds, and `u` absorbs it.
proof fn lemma_bind_general(u: Map<Seq<char>, MonoView>, v: Seq<char>, t: MonoView)
    requires
        apply(u, MonoView::Var(v)) == apply(u, t),
    ensures
        bind_spec(v, t) matches Ok(s) && absorbs(u, s),
{
    if t == MonoView::Var(v) {
        let e = Map::<Seq<char>, MonoView>::empty();
        assert forall|w: Seq<char>| #[trigger] apply(u, apply(e, MonoView::Var(w))) == apply(u, MonoView::Var(w)) by {
            assert(apply(e, MonoView::Var(w)) == MonoView::Var(w));
        }
        lemma_absorbs_from_vars(u, e);
    } else if ftv(t).contains(v) {
        lemma_size_occurs(u, v, t);
    } else {
        let s = Map::<Seq<char>, MonoView>::empty().insert(v, t);
        assert forall|w: Seq<char>| #[trigger] apply(u, apply(s, MonoView::Var(w))) == apply(u, MonoView::Var(w)) by {
            if w != v {
                assert(apply(s, MonoView::Var(w)) == MonoView::Var(w));
            }
        }
        lemma_absorbs_from_vars(u, s);
    }
}

proof fn lemma_unify_fuel_general(t1: MonoView, t2: MonoView, f: nat, u: Map<Seq<char>, MonoView>)
    requires
        unify_fuel(t1, t2, f) is Some,
        apply(u, t1) == apply(u, t2),
    ensures
        unify_fuel(t1, t2, f) matches Some(Ok(s)) && absorbs(u, s),
    decreases f,
{
    if (t1 == MonoView::Int && t2 == MonoView::Int) || (t1 == MonoView::Bool && t2 == MonoView::Bool) {
        let e = Map::<Seq<char>, MonoView>::empty();
        assert forall|w: Seq<char>| #[trigger] apply(u, apply(e, MonoView::Var(w))) == apply(u, MonoView::Var(w)) by {
            assert(apply(e, MonoView::Var(w)) == MonoView::Var(w));
        }
        lemma_absorbs_from_vars(u, e);
    } else if t1 is Var {
        lemma_bind_general(u, t1->Var_0, t2);
    } else if t2 is Var {
        lemma_bind_general(u, t2->Var_0, t1);
    } else {
        match (t1, t2) {
            (MonoView::Fun(a1, r1), MonoView::Fun(a2, r2)) => {
                let g = (f - 1) as nat;
                assert(apply(u, *a1) == apply(u, *a2));
                assert(apply(u, *r1) == apply(u, *r2));
                lemma_unify_fuel_general(*a1, *a2, g, u);
                let s1 = unify_fuel(*a1, *a2, g)->Some_0->Ok_0;
                let r1s = apply(s1, *r1);
                let r2s = apply(s1, *r2);
                assert(apply(u, apply(s1, *r1)) == apply(u, *r1));
                assert(apply(u, apply(s1, *r2)) == apply(u, *r2));
                lemma_unify_fuel_general(r1s, r2s, g, u);
                let s2 = unify_fuel(r1s, r2s, g)->Some_0->Ok_0;
                let c = compose(s2, s1);
                assert forall|w: Seq<char>| #[trigger] apply(u, apply(c, MonoView::Var(w))) == apply(
                    u,
                    MonoView::Var(w),
                ) by {
                    assert(apply(u, apply(s2, MonoView::Var(w))) == apply(u, MonoView::Var(w)));
                    if !s2.contains_key(w) && s1.contains_key(w) {
                        assert(apply(u, apply(s2, s1[w])) == apply(u, s1[w]));
                        assert(apply(u, apply(s1, MonoView::Var(w))) == apply(u, MonoView::Var(w)));
                    }
                }
                lemma_absorbs_from_vars(u, c);
            },
            _ => {},
        }
    }
}

/// Unification finds a most general unifier: where a substitution `u` makes
/// two types equal, unification succeeds, and `u` absorbs what it returns
/// (applying the result first and `u` after gives what `u` alone gives).
pub proof fn lemma_unify_most_general(t1: MonoView, t2: MonoView, u: Map<Seq<char>, MonoView>)
    requires
        apply(u, t1) == apply(u, t2),
    ensures
        unify_result(t1, t2) is Ok,
        absorbs(u, unify_result(t1, t2)->Ok_0),
{
    let f = lemma_unify_terminates(t1, t2);
    lemma_unify_result(t1, t2, f);
    lemma_unify_fuel_general(t1, t2, f, u);
}

/// Unification fails only where no substitution makes the two types equal.
pub proof fn lemma_unify_fails_only_without_unifier(t1: MonoView, t2: MonoView, u: Map<Seq<char>, MonoView>)
    requires
        unify_result(t1, t2) is Err,
    ensures
        apply(u, t1) != apply(u, t2),
{
    if apply(u, t1) == apply(u, t2) {
        lemma_unify_most_general(t1, t2, u);
    }
}


proof fn lemma_inst_subst(vars: Seq<Seq<char>>, c: nat)
    requires
        vars.no_duplicates(),
    ensures
        forall|i: int|
            0 <= i < vars.len() ==> inst_subst(vars, c).contains_key(#[trigger] vars[i]) && inst_subst(vars, c)[vars[i]]
                == MonoView::Var(fresh_name((c + i) as nat)),
        forall|x: Seq<char>| #[trigger] inst_subst(vars, c).contains_key(x) <==> vars.contains(x),
    decreases vars.len(),
{
    if vars.len() > 0 {
        let init = vars.drop_last();
        assert(init.no_duplicates());
        lemma_inst_subst(init, c);
        assert forall|i: int| 0 <= i < vars.len() implies inst_subst(vars, c).contains_key(#[trigger] vars[i])
            && inst_subst(vars, c)[vars[i]] == MonoView::Var(fresh_name((c + i) as nat)) by {
            if i < vars.len() - 1 {
                assert(init[i] == vars[i]);
                assert(vars[i] != vars.last());
            }
        }
        assert forall|x: Seq<char>| #[trigger] inst_subst(vars, c).contains_key(x) <==> vars.contains(x) by {
            if vars.contains(x) && x != vars.last() {
                let k = choose|k: int| 0 <= k < vars.len() && vars[k] == x;
                assert(init[k] == x);
            }
            if init.contains(x) {
                let k = choose|k: int| 0 <= k < init.len() && init[k] == x;
                assert(vars[k] == x);
            }
            if x == vars.last() {
                assert(vars[vars.len() - 1] == x);
            }
        }
    }
}

/// Instantiation renames the bound variables in order: where a scheme binds
/// each variable once, its `i`th bound variable becomes the fresh variable
/// numbered `c + i` and nothing else is renamed; a scheme that binds nothing
/// instantiates to its own type.
pub proof fn lemma_inst_renames_in_order(p: PolyView, c: nat)
    requires
        p.vars.no_duplicates(),
    ensures
        inst_type(p, c) == apply(inst_subst(p.vars, c), p.ty),
        forall|i: int|
            0 <= i < p.vars.len() ==> apply(inst_subst(p.vars, c), MonoView::Var(#[trigger] p.vars[i]))
                == MonoView::Var(fresh_name((c + i) as nat)),
        forall|x: Seq<char>|
            !p.vars.contains(x) ==> #[trigger] apply(inst_subst(p.vars, c), MonoView::Var(x)) == MonoView::Var(x),
        p.vars.len() == 0 ==> inst_type(p, c) == p.ty,
{
    lemma_inst_subst(p.vars, c);
    if p.vars.len() == 0 {
        lemma_apply_nothing(inst_subst(p.vars, c), p.ty);
    }
}

} // verus!

//! Traits (type classes): method signatures, trait definitions,
//! implementations for types, completeness of an implementation, coherence
//! (one implementation per trait and type) and method resolution.
use vstd::prelude::*;
use vstd::string::*;
use crate::text::{append_joined, join, str_eq};

verus! {

/// How a method takes its receiver.
#[derive(Debug, Clone, Copy, PartialEq, Eq, Structural)]
pub enum SelfKind {
    Consumed,
    Borrowed,
    MutBorrowed,
}

/// A method signature.
#[derive(Debug, Clone)]
pub struct Method {
    pub name: String,
    pub self_kind: SelfKind,
    pub param_types: Vec<String>,
    pub return_type: String,
}

/// The receiver as written in a signature.
pub open spec fn self_text(k: SelfKind) -> Seq<char> {
    match k {
        SelfKind::Consumed => "self"@,
        SelfKind::Borrowed => "&self"@,
        SelfKind::MutBorrowed => "&mut self"@,
    }
}

/// Signature text: "name(receiver, params…): return".
pub open spec fn method_text(m: Method) -> Seq<char> {
    m.name@ + "("@ + join(seq![self_text(m.self_kind)] + m.param_types@.map_values(|s: String| s@), ", "@) + "): "@
        + m.return_type@
}

/// Whether one of `names` spells `n`.
pub open spec fn has_name(names: Seq<String>, n: Seq<char>) -> bool {
    exists|i: int| 0 <= i < names.len() && #[trigger] names[i]@ == n
}

fn contains_name(names: &Vec<String>, n: &str) -> (r: bool)
    ensures
        r == has_name(names@, n@),
{
    let mut i: usize = 0;
    while i < names.len()
        invariant
            i <= names@.len(),
            forall|j: int| 0 <= j < i ==> names@[j]@ != n@,
        decreases names@.len() - i,
    {
        if str_eq(names[i].as_str(), n) {
            assert(names@[i as int]@ == n@);
            return true;
        }
        i = i + 1;
    }
    false
}

impl Method {
    /// A method with no parameters returning "()".
    pub fn new(name: String, self_kind: SelfKind) -> (m: Self)
        ensures
            m.name@ == name@,
            m.self_kind == self_kind,
            m.param_types@.len() == 0,
            m.return_type@ == "()"@,
    {
        Method { name, self_kind, param_types: Vec::new(), return_type: String::from_str("()") }
    }

    /// Set the return type.
    pub fn with_return(self, ret: String) -> (m: Self)
        ensures
            m.name == self.name,
            m.self_kind == self.self_kind,
            m.param_types == self.param_types,
            m.return_type == ret,
    {
        let mut m = self;
        m.return_type = ret;
        m
    }

    /// Set the parameter types.
    pub fn with_params(self, params: Vec<String>) -> (m: Self)
        ensures
            m.name == self.name,
            m.self_kind == self.self_kind,
            m.param_types == params,
            m.return_type == self.return_type,
    {
        let mut m = self;
        m.param_types = params;
        m
    }

    /// The signature as text.
    pub fn to_sigma(&self) -> (s: String)
        ensures
            s@ == method_text(*self),
    {
        let self_str = match self.self_kind {
            SelfKind::Consumed => "self",
            SelfKind::Borrowed => "&self",
            SelfKind::MutBorrowed => "&mut self",
        };
        let mut params: Vec<String> = Vec::new();
        params.push(String::from_str(self_str));
        let mut i: usize = 0;
        while i < self.param_types.len()
            invariant
                i <= self.param_types@.len(),
                params@.len() == i + 1,
                params@[0]@ == self_text(self.self_kind),
                forall|k: int| 0 <= k < i ==> #[trigger] params@[k + 1]@ == self.param_types@[k]@,
            decreases self.param_types@.len() - i,
        {
            params.push(self.param_types[i].clone());
            i = i + 1;
        }
        let mut out = self.name.clone();
        out.append("(");
        append_joined(&mut out, &params, ", ");
        out.append("): ");
        out.append(self.return_type.as_str());
        proof {
            let lhs = params@.map_values(|s: String| s@);
            let rhs = seq![self_text(self.self_kind)] + self.param_types@.map_values(|s: String| s@);
            assert forall|j: int| 0 <= j < lhs.len() implies lhs[j] == rhs[j] by {
                if j > 0 {
                    assert(params@[(j - 1) + 1]@ == self.param_types@[j - 1]@);
                }
            }
            assert(lhs =~= rhs);
        }
        out
    }
}

/// A trait: a name and its methods.
#[derive(Debug, Clone)]
pub struct Trait {
    pub name: String,
    pub methods: Vec<Method>,
}

/// Index of the first method named `n`, if any.
pub open spec fn method_index(ms: Seq<Method>, n: Seq<char>) -> Option<int> {
    if exists|i: int| 0 <= i < ms.len() && #[trigger] ms[i].name@ == n {
        Some(choose|i: int| 0 <= i < ms.len() && #[trigger] ms[i].name@ == n && forall|j: int| 0 <= j < i ==> ms[j].name@ != n)
    } else {
        None
    }
}

proof fn lemma_method_index(ms: Seq<Method>, n: Seq<char>, i: int)
    requires
        0 <= i < ms.len(),
        ms[i].name@ == n,
        forall|j: int| 0 <= j < i ==> ms[j].name@ != n,
    ensures
        method_index(ms, n) == Some(i),
{
    let k = choose|k: int| 0 <= k < ms.len() && #[trigger] ms[k].name@ == n && forall|j: int| 0 <= j < k ==> ms[j].name@ != n;
    assert(ms[i].name@ == n);
    if k < i {
        assert(ms[k].name@ != n);
    } else if k > i {
        assert(ms[i].name@ != n);
    }
}

fn first_method(ms: &Vec<Method>, n: &str) -> (r: Option<usize>)
    ensures
        match r {
            Some(i) => i < ms@.len() && method_index(ms@, n@) == Some(i as int),
            None => method_index(ms@, n@).is_none(),
        },
{
    let mut i: usize = 0;
    while i < ms.len()
        invariant
            i <= ms@.len(),
            forall|j: int| 0 <= j < i ==> ms@[j].name@ != n@,
        decreases ms@.len() - i,
    {
        if str_eq(ms[i].name.as_str(), n) {
            proof {
                lemma_method_index(ms@, n@, i as int);
            }
            return Some(i);
        }
        i = i + 1;
    }
    None
}

/// Signature text of a trait: "name = { m₁, m₂, … }", or "name = {}".
pub open spec fn trait_text(t: Trait) -> Seq<char> {
    if t.methods@.len() == 0 {
        t.name@ + " = {}"@
    } else {
        t.name@ + " = { "@ + join(t.methods@.map_values(|m: Method| method_text(m)), ", "@) + " }"@
    }
}

impl Trait {
    pub fn new(name: String) -> (t: Self)
        ensures
            t.name == name,
            t.methods@.len() == 0,
    {
        Trait { name, methods: Vec::new() }
    }

    /// Add a method; a name already present is refused with
    /// `DuplicateMethod`.
    pub fn add_method(&mut self, method: Method) -> (r: Result<(), TraitError>)
        ensures
            final(self).name == old(self).name,
            method_index(old(self).methods@, method.name@).is_some() ==> {
                &&& r matches Err(TraitError::DuplicateMethod { trait_name, method_name })
                &&& trait_name@ == old(self).name@
                &&& method_name@ == method.name@
                &&& final(self).methods@ == old(self).methods@
            },
            method_index(old(self).methods@, method.name@).is_none() ==> r is Ok && final(self).methods@
                == old(self).methods@.push(method),
    {
        match first_method(&self.methods, method.name.as_str()) {
            Some(_) => Err(TraitError::DuplicateMethod { trait_name: self.name.clone(), method_name: method.name.clone() }),
            None => {
                self.methods.push(method);
                Ok(())
            },
        }
    }

    /// The first method with this name.
    pub fn find_method(&self, name: &str) -> (r: Option<&Method>)
        ensures
            match method_index(self.methods@, name@) {
                Some(i) => r == Some(&self.methods@[i]),
                None => r.is_none(),
            },
    {
        match first_method(&self.methods, name) {
            Some(i) => Some(&self.methods[i]),
            None => None,
        }
    }

    pub fn method_count(&self) -> (n: usize)
        ensures
            n == self.methods@.len(),
    {
        self.methods.len()
    }

    /// The trait as text.
    pub fn to_sigma(&self) -> (s: String)
        ensures
            s@ == trait_text(*self),
    {
        let mut out = self.name.clone();
        if self.methods.len() == 0 {
            out.append(" = {}");
            return out;
        }
        let mut sigs: Vec<String> = Vec::new();
        let mut i: usize = 0;
        while i < self.methods.len()
            invariant
                i <= self.methods@.len(),
                sigs@.len() == i,
                forall|k: int| 0 <= k < i ==> #[trigger] sigs@[k]@ == method_text(self.methods@[k]),
            decreases self.methods@.len() - i,
        {
            sigs.push(self.methods[i].to_sigma());
            i = i + 1;
        }
        out.append(" = { ");
        append_joined(&mut out, &sigs, ", ");
        out.append(" }");
        proof {
            assert(sigs@.map_values(|s: String| s@) =~= self.methods@.map_values(|m: Method| method_text(m)));
        }
        out
    }
}

/// An implementation of a trait for a type: the names of the methods it
/// provides.
#[derive(Debug, Clone)]
pub struct Impl {
    pub trait_name: String,
    pub for_type: String,
    pub method_names: Vec<String>,
}

/// Every method of the trait is provided.
pub open spec fn impl_complete(i: Impl, t: Trait) -> bool {
    forall|k: int| 0 <= k < t.methods@.len() ==> has_name(i.method_names@, #[trigger] t.methods@[k].name@)
}

/// The trait's methods that the implementation does not provide, in the
/// trait's order.
pub open spec fn missing_of(names: Seq<String>, ms: Seq<Method>) -> Seq<Method>
    decreases ms.len(),
{
    if ms.len() == 0 {
        Seq::empty()
    } else if has_name(names, ms.last().name@) {
        missing_of(names, ms.drop_last())
    } else {
        missing_of(names, ms.drop_last()).push(ms.last())
    }
}

proof fn lemma_missing_empty(names: Seq<String>, ms: Seq<Method>)
    ensures
        (missing_of(names, ms).len() == 0) == (forall|k: int| 0 <= k < ms.len() ==> has_name(names, #[trigger] ms[k].name@)),
    decreases ms.len(),
{
    if ms.len() > 0 {
        lemma_missing_empty(names, ms.drop_last());
        if forall|k: int| 0 <= k < ms.len() ==> has_name(names, #[trigger] ms[k].name@) {
            assert forall|k: int| 0 <= k < ms.drop_last().len() implies has_name(names, #[trigger] ms.drop_last()[k].name@) by {
                assert(ms.drop_last()[k] == ms[k]);
            }
            assert(has_name(names, ms[ms.len() - 1].name@));
        } else {
            let k = choose|k: int| 0 <= k < ms.len() && !has_name(names, #[trigger] ms[k].name@);
            if k < ms.len() - 1 {
                assert(ms.drop_last()[k] == ms[k]);
            }
        }
    }
}

fn missing_list<'a>(i: &Impl, t: &'a Trait) -> (r: Vec<&'a Method>)
    ensures
        r@.len() == missing_of(i.method_names@, t.methods@).len(),
        forall|k: int| 0 <= k < r@.len() ==> *(#[trigger] r@[k]) == missing_of(i.method_names@, t.methods@)[k],
{
    let mut out: Vec<&'a Method> = Vec::new();
    let mut k: usize = 0;
    while k < t.methods.len()
        invariant
            k <= t.methods@.len(),
            out@.len() == missing_of(i.method_names@, t.methods@.take(k as int)).len(),
            forall|m: int| 0 <= m < out@.len() ==> *(#[trigger] out@[m]) == missing_of(i.method_names@, t.methods@.take(k as int))[m],
        decreases t.methods@.len() - k,
    {
        proof {
            assert(t.methods@.take(k as int + 1).drop_last() =~= t.methods@.take(k as int));
        }
        if !contains_name(&i.method_names, t.methods[k].name.as_str()) {
            out.push(&t.methods[k]);
        }
        k = k + 1;
    }
    proof {
        assert(t.methods@.take(k as int) =~= t.methods@);
    }
    out
}

impl Impl {
    pub fn new(trait_name: String, for_type: String) -> (i: Self)
        ensures
            i.trait_name == trait_name,
            i.for_type == for_type,
            i.method_names@.len() == 0,
    {
        Impl { trait_name, for_type, method_names: Vec::new() }
    }

    /// Record a provided method (once).
    pub fn add_method(&mut self, method_name: String)
        ensures
            final(self).trait_name == old(self).trait_name,
            final(self).for_type == old(self).for_type,
            has_name(old(self).method_names@, method_name@) ==> final(self).method_names@ == old(self).method_names@,
            !has_name(old(self).method_names@, method_name@) ==> final(self).method_names@
                == old(self).method_names@.push(method_name),
    {
        if !contains_name(&self.method_names, method_name.as_str()) {
            self.method_names.push(method_name);
        }
    }

    /// Whether every method of the trait is provided.
    pub fn is_complete(&self, trait_def: &Trait) -> (b: bool)
        ensures
            b == impl_complete(*self, *trait_def),
    {
        let missing = missing_list(self, trait_def);
        proof {
            lemma_missing_empty(self.method_names@, trait_def.methods@);
        }
        missing.len() == 0
    }

    /// The trait's methods that are not provided, in the trait's order.
    pub fn missing_methods<'a>(&self, trait_def: &'a Trait) -> (r: Vec<&'a Method>)
        ensures
            r@.len() == missing_of(self.method_names@, trait_def.methods@).len(),
            forall|k: int| 0 <= k < r@.len() ==> *(#[trigger] r@[k]) == missing_of(self.method_names@, trait_def.methods@)[k],
    {
        missing_list(self, trait_def)
    }
}

/// Failures of trait definitions and implementations.
#[derive(Debug)]
pub enum TraitError {
    DuplicateTrait { name: String },
    DuplicateMethod { trait_name: String, method_name: String },
    UnknownTrait { name: String },
    IncompleteImpl { trait_name: String, implementing_type: String, missing: Vec<String> },
    CoherenceViolation { trait_name: String, implementing_type: String },
}

/// Registry of traits (by distinct names) and implementations (one per
/// trait and type).
pub struct TraitRegistry {
    traits: Vec<Trait>,
    impls: Vec<Impl>,
}

impl TraitRegistry {
    /// Registered traits, in registration order.
    pub closed spec fn trait_list(&self) -> Seq<Trait> {
        self.traits@
    }

    /// Registered implementations, in registration order.
    pub closed spec fn impl_list(&self) -> Seq<Impl> {
        self.impls@
    }

    /// Trait names are distinct, and so are (trait, type) pairs.
    pub closed spec fn wf(&self) -> bool {
        &&& forall|a: int, b: int| 0 <= a < b < self.traits@.len() ==> #[trigger] self.traits@[a].name@ != #[trigger] self.traits@[b].name@
        &&& forall|a: int, b: int|
            0 <= a < b < self.impls@.len() ==> !(#[trigger] self.impls@[a].trait_name@ == #[trigger] self.impls@[b].trait_name@
                && self.impls@[a].for_type@ == self.impls@[b].for_type@)
    }

    /// Index of the trait named `n`.
    pub open spec fn trait_index(&self, n: Seq<char>) -> Option<int> {
        if exists|i: int| 0 <= i < self.trait_list().len() && #[trigger] self.trait_list()[i].name@ == n {
            Some(choose|i: int| 0 <= i < self.trait_list().len() && #[trigger] self.trait_list()[i].name@ == n)
        } else {
            None
        }
    }

    /// Whether an implementation of trait `tn` for type `ty` is registered.
    pub open spec fn has_impl(&self, tn: Seq<char>, ty: Seq<char>) -> bool {
        exists|i: int|
            0 <= i < self.impl_list().len() && #[trigger] self.impl_list()[i].trait_name@ == tn && self.impl_list()[i].for_type@
                == ty
    }

    pub fn new() -> (r: Self)
        ensures
            r.wf(),
            r.trait_list().len() == 0,
            r.impl_list().len() == 0,
    {
        TraitRegistry { traits: Vec::new(), impls: Vec::new() }
    }

    fn trait_position(&self, n: &str) -> (r: Option<usize>)
        requires
            self.wf(),
        ensures
            match r {
                Some(i) => i < self.traits@.len() && self.trait_index(n@) == Some(i as int),
                None => self.trait_index(n@).is_none(),
            },
    {
        let mut i: usize = 0;
        while i < self.traits.len()
            invariant
                self.wf(),
                i <= self.traits@.len(),
                forall|j: int| 0 <= j < i ==> self.traits@[j].name@ != n@,
            decreases self.traits@.len() - i,
        {
            if str_eq(self.traits[i].name.as_str(), n) {
                proof {
                    assert(self.trait_list()[i as int].name@ == n@);
                    let k = choose|k: int| 0 <= k < self.trait_list().len() && #[trigger] self.trait_list()[k].name@ == n@;
                    if k != i as int {
                        if k < i as int {
                            assert(self.traits@[k].name@ != self.traits@[i as int].name@);
                        } else {
                            assert(self.traits@[i as int].name@ != self.traits@[k].name@);
                        }
                    }
                }
                return Some(i);
            }
            i = i + 1;
        }
        None
    }

    /// Register a trait; a registered name is refused with `DuplicateTrait`.
    pub fn register_trait(&mut self, trait_def: Trait) -> (r: Result<(), TraitError>)
        requires
            old(self).wf(),
        ensures
            final(self).wf(),
            final(self).impl_list() == old(self).impl_list(),
            old(self).trait_index(trait_def.name@).is_some() ==> (r matches Err(TraitError::DuplicateTrait { name })
                && name@ == trait_def.name@) && final(self).trait_list() == old(self).trait_list(),
            old(self).trait_index(trait_def.name@).is_none() ==> r is Ok && final(self).trait_list()
                == old(self).trait_list().push(trait_def),
    {
        match self.trait_position(trait_def.name.as_str()) {
            Some(_) => Err(TraitError::DuplicateTrait { name: trait_def.name.clone() }),
            None => {
                let ghost old_self = *self;
                self.traits.push(trait_def);
                proof {
                    assert forall|a: int, b: int| 0 <= a < b < self.traits@.len() implies #[trigger] self.traits@[a].name@
                        != #[trigger] self.traits@[b].name@ by {
                        if b == self.traits@.len() - 1 {
                            assert(old_self.trait_list()[a] == self.traits@[a]);
                            if old_self.trait_list()[a].name@ == trait_def.name@ {
                                assert(old_self.trait_index(trait_def.name@).is_some());
                            }
                        }
                    }
                }
                Ok(())
            },
        }
    }

    fn impl_position(&self, tn: &str, ty: &str) -> (r: bool)
        ensures
            r == self.has_impl(tn@, ty@),
    {
        let mut i: usize = 0;
        while i < self.impls.len()
            invariant
                i <= self.impls@.len(),
                forall|j: int| 0 <= j < i ==> !(self.impls@[j].trait_name@ == tn@ && self.impls@[j].for_type@ == ty@),
            decreases self.impls@.len() - i,
        {
            if str_eq(self.impls[i].trait_name.as_str(), tn) && str_eq(self.impls[i].for_type.as_str(), ty) {
                assert(self.impl_list()[i as int].trait_name@ == tn@);
                return true;
            }
            i = i + 1;
        }
        false
    }

    /// Register an implementation. Fails with `UnknownTrait` when its trait
    /// is not registered, with `IncompleteImpl` (listing the missing method
    /// names) when a method is not provided, and with `CoherenceViolation`
    /// when the trait already has an implementation for the type.
    pub fn register_impl(&mut self, impl_block: Impl) -> (r: Result<(), TraitError>)
        requires
            old(self).wf(),
        ensures
            final(self).wf(),
            final(self).trait_list() == old(self).trait_list(),
            match old(self).trait_index(impl_block.trait_name@) {
                None => (r matches Err(TraitError::UnknownTrait { name }) && name@ == impl_block.trait_name@)
                    && final(self).impl_list() == old(self).impl_list(),
                Some(ti) => {
                    let t = old(self).trait_list()[ti];
                    if !impl_complete(impl_block, t) {
                        &&& r matches Err(TraitError::IncompleteImpl { trait_name, implementing_type, missing })
                        &&& trait_name@ == impl_block.trait_name@
                        &&& implementing_type@ == impl_block.for_type@
                        &&& missing@.map_values(|s: String| s@) == missing_of(impl_block.method_names@, t.methods@).map_values(
                            |m: Method| m.name@,
                        )
                        &&& final(self).impl_list() == old(self).impl_list()
                    } else if old(self).has_impl(impl_block.trait_name@, impl_block.for_type@) {
                        &&& r matches Err(TraitError::CoherenceViolation { trait_name, implementing_type })
                        &&& trait_name@ == impl_block.trait_name@
                        &&& implementing_type@ == impl_block.for_type@
                        &&& final(self).impl_list() == old(self).impl_list()
                    } else {
                        r is Ok && final(self).impl_list() == old(self).impl_list().push(impl_block)
                    }
                },
            },
    {
        let ti = match self.trait_position(impl_block.trait_name.as_str()) {
            None => {
                return Err(TraitError::UnknownTrait { name: impl_block.trait_name.clone() });
            },
            Some(ti) => ti,
        };
        if !impl_block.is_complete(&self.traits[ti]) {
            let missing = impl_block.missing_methods(&self.traits[ti]);
            let mut names: Vec<String> = Vec::new();
            let mut k: usize = 0;
            while k < missing.len()
                invariant
                    k <= missing@.len(),
                    names@.len() == k,
                    forall|m: int| 0 <= m < k ==> #[trigger] names@[m]@ == missing@[m].name@,
                decreases missing@.len() - k,
            {
                names.push(missing[k].name.clone());
                k = k + 1;
            }
            proof {
                let t = self.traits@[ti as int];
                assert(names@.map_values(|s: String| s@) =~= missing_of(impl_block.method_names@, t.methods@).map_values(
                    |m: Method| m.name@,
                ));
            }
            return Err(
                TraitError::IncompleteImpl {
                    trait_name: impl_block.trait_name.clone(),
                    implementing_type: impl_block.for_type.clone(),
                    missing: names,
                },
            );
        }
        if self.impl_position(impl_block.trait_name.as_str(), impl_block.for_type.as_str()) {
            return Err(
                TraitError::CoherenceViolation {
                    trait_name: impl_block.trait_name.clone(),
                    implementing_type: impl_block.for_type.clone(),
                },
            );
        }
        let ghost old_self = *self;
        self.impls.push(impl_block);
        proof {
            assert forall|a: int, b: int| 0 <= a < b < self.impls@.len() implies !(#[trigger] self.impls@[a].trait_name@
                == #[trigger] self.impls@[b].trait_name@ && self.impls@[a].for_type@ == self.impls@[b].for_type@) by {
                if b == self.impls@.len() - 1 {
                    assert(old_self.impl_list()[a] == self.impls@[a]);
                    if self.impls@[a].trait_name@ == impl_block.trait_name@ && self.impls@[a].for_type@ == impl_block.for_type@ {
                        assert(old_self.has_impl(impl_block.trait_name@, impl_block.for_type@));
                    }
                }
            }
        }
        Ok(())
    }

    /// The trait, implementation and method that a call of `method_name` on
    /// a value of `type_label` resolves to: the first registered
    /// implementation for the type that provides the method and whose trait
    /// declares it.
    pub fn resolve_method(&self, type_label: &str, method_name: &str) -> (r: Option<(&Trait, &Impl, &Method)>)
        requires
            self.wf(),
        ensures
            match r {
                Some((t, i, m)) => {
                    &&& self.impl_list().contains(*i)
                    &&& i.for_type@ == type_label@
                    &&& has_name(i.method_names@, method_name@)
                    &&& self.trait_index(i.trait_name@) matches Some(ti) && *t == self.trait_list()[ti]
                    &&& method_index(t.methods@, method_name@) matches Some(mi) && *m == t.methods@[mi]
                },
                None => forall|k: int|
                    0 <= k < self.impl_list().len() && (#[trigger] self.impl_list()[k]).for_type@ == type_label@ && has_name(
                        self.impl_list()[k].method_names@,
                        method_name@,
                    ) ==> match self.trait_index(self.impl_list()[k].trait_name@) {
                        Some(ti) => method_index(self.trait_list()[ti].methods@, method_name@).is_none(),
                        None => true,
                    },
            },
    {
        let mut k: usize = 0;
        while k < self.impls.len()
            invariant
                self.wf(),
                k <= self.impls@.len(),
                forall|j: int|
                    0 <= j < k && (#[trigger] self.impl_list()[j]).for_type@ == type_label@ && has_name(
                        self.impl_list()[j].method_names@,
                        method_name@,
                    ) ==> match self.trait_index(self.impl_list()[j].trait_name@) {
                        Some(ti) => method_index(self.trait_list()[ti].methods@, method_name@).is_none(),
                        None => true,
                    },
            decreases self.impls@.len() - k,
        {
            let ib = &self.impls[k];
            if str_eq(ib.for_type.as_str(), type_label) && contains_name(&ib.method_names, method_name) {
                match self.trait_position(ib.trait_name.as_str()) {
                    Some(ti) => {
                        match self.traits[ti].find_method(method_name) {
                            Some(m) => {
                                proof {
                                    assert(self.impl_list()[k as int] == *ib);
                                }
                                return Some((&self.traits[ti], ib, m));
                            },
                            None => {},
                        }
                    },
                    None => {},
                }
            }
            k = k + 1;
        }
        None
    }

    /// The trait registered under this name.
    pub fn get_trait(&self, name: &str) -> (r: Option<&Trait>)
        requires
            self.wf(),
        ensures
            match self.trait_index(name@) {
                Some(i) => r == Some(&self.trait_list()[i]),
                None => r.is_none(),
            },
    {
        match self.trait_position(name) {
            Some(i) => Some(&self.traits[i]),
            None => None,
        }
    }

    pub fn trait_count(&self) -> (n: usize)
        ensures
            n == self.trait_list().len(),
    {
        self.traits.len()
    }

    pub fn impl_count(&self) -> (n: usize)
        ensures
            n == self.impl_list().len(),
    {
        self.impls.len()
    }
}

impl Default for TraitRegistry {
    fn default() -> (r: Self)
        ensures
            r.wf(),
            r.trait_list().len() == 0,
            r.impl_list().len() == 0,
    {
        Self::new()
    }
}

} // verus!

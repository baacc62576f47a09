//! Category theory on types: composition of morphisms, the subobject
//! classifier Ω with its logic, products, exponentials, characteristic
//! maps, pullbacks and pushouts.
use vstd::prelude::*;
use std::marker::PhantomData;

verus! {

/// Composition g ∘ f: apply `f`, then `g`.
pub fn compose<A, B, C, F: Fn(A) -> B, G: Fn(B) -> C>(f: F, g: G) -> (h: impl Fn(A) -> C)
    requires
        forall|a: A| call_requires(f, (a,)),
        forall|b: B| call_requires(g, (b,)),
    ensures
        forall|a: A| call_requires(h, (a,)),
        forall|a: A, c: C| call_ensures(h, (a,), c) ==> exists|b: B| call_ensures(f, (a,), b) && call_ensures(g, (b,), c),
{
    move |a: A| -> (c: C)
        ensures
            exists|b: B| call_ensures(f, (a,), b) && call_ensures(g, (b,), c),
        {
            let b = f(a);
            g(b)
        }
}

/// Identity morphism id_A.
pub fn id<A>() -> (h: impl Fn(A) -> A)
    ensures
        forall|a: A| call_requires(h, (a,)),
        forall|a: A, b: A| call_ensures(h, (a,), b) ==> b == a,
{
    |x: A| -> (y: A)
        ensures
            y == x,
        { x }
}

// ─── Functors ────────────────────────────────────────────────────────

/// `r` is what the Option functor gives `o` under `f`: nothing for
/// nothing, and `f`'s result on the value otherwise.
pub open spec fn option_lift<A, B, F: Fn(A) -> B>(f: F, o: Option<A>, r: Option<B>) -> bool {
    match o {
        None => r is None,
        Some(a) => (r matches Some(b) && call_ensures(f, (a,), b)),
    }
}

/// `r` is what the List functor gives `l` under `f`: `f` element by
/// element.
pub open spec fn list_lift<A, B, F: Fn(A) -> B>(f: F, l: Seq<A>, r: Seq<B>) -> bool {
    &&& r.len() == l.len()
    &&& forall|i: int| 0 <= i < l.len() ==> call_ensures(f, (l[i],), #[trigger] r[i])
}

/// The identity functor Id(A) = A.
pub struct IdentityFunctor;

/// The Option functor A ↦ A + 1.
pub struct OptionFunctor;

/// The List functor A ↦ A*.
pub struct ListFunctor;

impl IdentityFunctor {
    /// Id(f) = f.
    pub fn fmap<A, B, F: Fn(A) -> B>(&self, f: F) -> (h: impl Fn(A) -> B)
        requires
            forall|a: A| call_requires(f, (a,)),
        ensures
            forall|a: A| call_requires(h, (a,)),
            forall|a: A, b: B| call_ensures(h, (a,), b) ==> call_ensures(f, (a,), b),
    {
        move |a: A| -> (b: B)
            ensures
                call_ensures(f, (a,), b),
            { f(a) }
    }
}

impl OptionFunctor {
    /// Option(f): maps the value, if there is one.
    pub fn fmap<A, B, F: Fn(A) -> B>(&self, f: F) -> (h: impl Fn(Option<A>) -> Option<B>)
        requires
            forall|a: A| call_requires(f, (a,)),
        ensures
            forall|o: Option<A>| call_requires(h, (o,)),
            forall|o: Option<A>, r: Option<B>| call_ensures(h, (o,), r) ==> option_lift(f, o, r),
    {
        move |o: Option<A>| -> (r: Option<B>)
            ensures
                option_lift(f, o, r),
            {
                match o {
                    Some(a) => Some(f(a)),
                    None => None,
                }
            }
    }

    /// Unit η_A: a ↦ Some(a).
    pub fn unit<A>(&self) -> (h: impl Fn(A) -> Option<A>)
        ensures
            forall|a: A| call_requires(h, (a,)),
            forall|a: A, r: Option<A>| call_ensures(h, (a,), r) ==> r == Some(a),
    {
        |a: A| -> (r: Option<A>)
            ensures
                r == Some(a),
            { Some(a) }
    }

    /// Multiplication μ_A: Option(Option(A)) → Option(A), flattening.
    pub fn multiply<A>(&self) -> (h: impl Fn(Option<Option<A>>) -> Option<A>)
        ensures
            forall|o: Option<Option<A>>| call_requires(h, (o,)),
            forall|o: Option<Option<A>>, r: Option<A>| call_ensures(h, (o,), r) ==> r == option_flatten(o),
    {
        |o: Option<Option<A>>| -> (r: Option<A>)
            ensures
                r == option_flatten(o),
            {
                match o {
                    Some(inner) => inner,
                    None => None,
                }
            }
    }
}

/// The inner value of a nested option, if there is one.
pub open spec fn option_flatten<A>(o: Option<Option<A>>) -> Option<A> {
    match o {
        Some(inner) => inner,
        None => None,
    }
}

/// The lists of `ls` concatenated.
pub open spec fn list_flatten<A>(ls: Seq<Seq<A>>) -> Seq<A>
    decreases ls.len(),
{
    if ls.len() == 0 {
        Seq::empty()
    } else {
        list_flatten(ls.drop_last()) + ls.last()
    }
}

/// Applies `f` to each element of `list`, in order.
fn map_list<A, B, F: Fn(A) -> B>(f: &F, list: Vec<A>) -> (r: Vec<B>)
    requires
        forall|a: A| call_requires(*f, (a,)),
    ensures
        list_lift(*f, list@, r@),
{
    let ghost l = list@;
    let mut rest = list;
    let mut out: Vec<B> = Vec::new();
    while rest.len() > 0
        invariant
            forall|a: A| call_requires(*f, (a,)),
            out@.len() + rest@.len() == l.len(),
            rest@ == l.subrange(out@.len() as int, l.len() as int),
            forall|i: int| 0 <= i < out@.len() ==> call_ensures(*f, (l[i],), #[trigger] out@[i]),
        decreases rest@.len(),
    {
        let ghost k = out@.len() as int;
        let a = rest.remove(0);
        assert(a == l[k]);
        let b = f(a);
        out.push(b);
        proof {
            assert(rest@ =~= l.subrange(k + 1, l.len() as int));
        }
    }
    out
}

impl ListFunctor {
    /// List(f): maps every element.
    pub fn fmap<A, B, F: Fn(A) -> B>(&self, f: F) -> (h: impl Fn(Vec<A>) -> Vec<B>)
        requires
            forall|a: A| call_requires(f, (a,)),
        ensures
            forall|l: Vec<A>| call_requires(h, (l,)),
            forall|l: Vec<A>, r: Vec<B>| call_ensures(h, (l,), r) ==> list_lift(f, l@, r@),
    {
        move |l: Vec<A>| -> (r: Vec<B>)
            ensures
                list_lift(f, l@, r@),
            { map_list(&f, l) }
    }

    /// Unit η_A: a ↦ [a].
    pub fn unit<A>(&self) -> (h: impl Fn(A) -> Vec<A>)
        ensures
            forall|a: A| call_requires(h, (a,)),
            forall|a: A, r: Vec<A>| call_ensures(h, (a,), r) ==> r@ == seq![a],
    {
        |a: A| -> (r: Vec<A>)
            ensures
                r@ == seq![a],
            {
                let mut v = Vec::new();
                v.push(a);
                v
            }
    }

    /// Multiplication μ_A: List(List(A)) → List(A), concatenating.
    pub fn multiply<A>(&self) -> (h: impl Fn(Vec<Vec<A>>) -> Vec<A>)
        ensures
            forall|l: Vec<Vec<A>>| call_requires(h, (l,)),
            forall|l: Vec<Vec<A>>, r: Vec<A>| call_ensures(h, (l,), r) ==> r@ == list_flatten(
                l@.map_values(|v: Vec<A>| v@),
            ),
    {
        |l: Vec<Vec<A>>| -> (r: Vec<A>)
            ensures
                r@ == list_flatten(l@.map_values(|v: Vec<A>| v@)),
            { concat_lists(l) }
    }
}

/// The lists of `lists` concatenated.
fn concat_lists<A>(lists: Vec<Vec<A>>) -> (r: Vec<A>)
    ensures
        r@ == list_flatten(lists@.map_values(|v: Vec<A>| v@)),
{
    let ghost views = lists@.map_values(|v: Vec<A>| v@);
    let mut rest = lists;
    let mut out: Vec<A> = Vec::new();
    let ghost done: int = 0;
    while rest.len() > 0
        invariant
            0 <= done <= views.len(),
            views.len() == done + rest@.len(),
            forall|i: int| 0 <= i < rest@.len() ==> (#[trigger] rest@[i])@ == views[done + i],
            out@ == list_flatten(views.take(done)),
        decreases rest@.len(),
    {
        let mut v = rest.remove(0);
        proof {
            assert(v@ == views[done]);
            assert(views.take(done + 1).drop_last() =~= views.take(done));
            assert(views.take(done + 1).last() == views[done]);
        }
        out.append(&mut v);
        proof {
            assert forall|i: int| 0 <= i < rest@.len() implies (#[trigger] rest@[i])@ == views[done + 1 + i] by {
            }
            done = done + 1;
        }
    }
    proof {
        assert(views.take(done) =~= views);
    }
    out
}

/// Functor identity law for Option: Option(id) = id.
pub proof fn law_option_identity<A, F: Fn(A) -> A>(f: F, o: Option<A>, r: Option<A>)
    requires
        forall|a: A, b: A| call_ensures(f, (a,), b) ==> b == a,
        option_lift(f, o, r),
    ensures
        r == o,
{
}

/// Functor composition law for Option: Option(g ∘ f) = Option(g) ∘
/// Option(f), for `h` any morphism that `compose` can return for `f`, `g`.
pub proof fn law_option_composition<A, B, C, F: Fn(A) -> B, G: Fn(B) -> C, H: Fn(A) -> C>(
    f: F,
    g: G,
    h: H,
    o: Option<A>,
    r: Option<C>,
)
    requires
        forall|a: A, c: C| call_ensures(h, (a,), c) ==> exists|b: B| call_ensures(f, (a,), b) && call_ensures(g, (b,), c),
        option_lift(h, o, r),
    ensures
        exists|m: Option<B>| option_lift(f, o, m) && option_lift(g, m, r),
{
    match o {
        None => {
            assert(option_lift(f, o, None::<B>) && option_lift(g, None::<B>, r));
        },
        Some(a) => {
            let c = r->0;
            let b = choose|b: B| call_ensures(f, (a,), b) && call_ensures(g, (b,), c);
            assert(option_lift(f, o, Some(b)) && option_lift(g, Some(b), r));
        },
    }
}

/// Functor identity law for List: List(id) = id.
pub proof fn law_list_identity<A, F: Fn(A) -> A>(f: F, l: Seq<A>, r: Seq<A>)
    requires
        forall|a: A, b: A| call_ensures(f, (a,), b) ==> b == a,
        list_lift(f, l, r),
    ensures
        r == l,
{
    assert(r =~= l);
}

/// Functor composition law for List: List(g ∘ f) = List(g) ∘ List(f),
/// for `h` any morphism that `compose` can return for `f`, `g`.
pub proof fn law_list_composition<A, B, C, F: Fn(A) -> B, G: Fn(B) -> C, H: Fn(A) -> C>(
    f: F,
    g: G,
    h: H,
    l: Seq<A>,
    r: Seq<C>,
)
    requires
        forall|a: A, c: C| call_ensures(h, (a,), c) ==> exists|b: B| call_ensures(f, (a,), b) && call_ensures(g, (b,), c),
        list_lift(h, l, r),
    ensures
        exists|m: Seq<B>| list_lift(f, l, m) && list_lift(g, m, r),
{
    let m = Seq::new(l.len(), |i: int| choose|b: B| call_ensures(f, (l[i],), b) && call_ensures(g, (b,), r[i]));
    assert forall|i: int| 0 <= i < l.len() implies call_ensures(f, (l[i],), #[trigger] m[i]) && call_ensures(
        g,
        (m[i],),
        r[i],
    ) by {
        assert(call_ensures(h, (l[i],), r[i]));
    }
    assert(list_lift(f, l, m));
    assert(list_lift(g, m, r));
}

/// Monad laws for Option: μ ∘ η = id and μ ∘ T(η) = id.
pub proof fn law_option_monad_unit<A>(o: Option<A>, t: Option<Option<A>>)
    requires
        t == (match o {
            Some(a) => Some(Some(a)),
            None => None,
        }),
    ensures
        option_flatten(Some(o)) == o,
        option_flatten(t) == o,
{
}

/// Monad laws for List: μ ∘ η = id and μ ∘ T(η) = id.
pub proof fn law_list_monad_unit<A>(l: Seq<A>)
    ensures
        list_flatten(seq![l]) == l,
        list_flatten(l.map_values(|a: A| seq![a])) == l,
    decreases l.len(),
{
    let one = seq![l];
    assert(one.drop_last() =~= Seq::<Seq<A>>::empty());
    assert(one.last() == l);
    assert(list_flatten(one.drop_last()) =~= Seq::<A>::empty());
    assert(list_flatten(one) =~= l);
    if l.len() > 0 {
        law_list_monad_unit(l.drop_last());
        assert(l.map_values(|a: A| seq![a]).drop_last() =~= l.drop_last().map_values(|a: A| seq![a]));
        assert(list_flatten(l.map_values(|a: A| seq![a])) =~= l);
    } else {
        assert(l.map_values(|a: A| seq![a]) =~= Seq::<Seq<A>>::empty());
        assert(list_flatten(l.map_values(|a: A| seq![a])) =~= l);
    }
}

// ─── Natural transformations ─────────────────────────────────────────

/// Head: List ⇒ Option, the first element.
pub struct HeadNat;

/// Option ⇒ List: a singleton or the empty list.
pub struct OptionToListNat;

/// The identity transformation Id ⇒ Id.
pub struct IdNat;

impl HeadNat {
    /// The component at A.
    pub fn component<A>(&self) -> (h: impl Fn(Vec<A>) -> Option<A>)
        ensures
            forall|l: Vec<A>| call_requires(h, (l,)),
            forall|l: Vec<A>, r: Option<A>| call_ensures(h, (l,), r) ==> r == (if l@.len() == 0 {
                None
            } else {
                Some(l@[0])
            }),
    {
        |l: Vec<A>| -> (r: Option<A>)
            ensures
                r == (if l@.len() == 0 {
                    None
                } else {
                    Some(l@[0])
                }),
            {
                let mut v = l;
                if v.len() == 0 {
                    None
                } else {
                    Some(v.remove(0))
                }
            }
    }
}

impl OptionToListNat {
    /// The component at A.
    pub fn component<A>(&self) -> (h: impl Fn(Option<A>) -> Vec<A>)
        ensures
            forall|o: Option<A>| call_requires(h, (o,)),
            forall|o: Option<A>, r: Vec<A>| call_ensures(h, (o,), r) ==> r@ == match o {
                Some(a) => seq![a],
                None => Seq::<A>::empty(),
            },
    {
        |o: Option<A>| -> (r: Vec<A>)
            ensures
                r@ == match o {
                    Some(a) => seq![a],
                    None => Seq::<A>::empty(),
                },
            {
                let mut v = Vec::new();
                match o {
                    Some(a) => v.push(a),
                    None => {},
                }
                v
            }
    }
}

impl IdNat {
    /// The component at A: the identity.
    pub fn component<A>(&self) -> (h: impl Fn(A) -> A)
        ensures
            forall|a: A| call_requires(h, (a,)),
            forall|a: A, b: A| call_ensures(h, (a,), b) ==> b == a,
    {
        |x: A| -> (y: A)
            ensures
                y == x,
            { x }
    }
}

/// An adjunction F ⊣ G, as a marker.
pub struct Adjunction<F, G> {
    pub left: PhantomData<F>,
    pub right: PhantomData<G>,
}

impl<F, G> Adjunction<F, G> {
    pub fn new() -> (a: Self)
        ensures
            true,
    {
        Adjunction { left: PhantomData, right: PhantomData }
    }
}

/// The first element of a list, if there is one.
pub open spec fn list_head<A>(l: Seq<A>) -> Option<A> {
    if l.len() == 0 {
        None
    } else {
        Some(l[0])
    }
}

/// An option as a list of at most one element.
pub open spec fn option_to_list<A>(o: Option<A>) -> Seq<A> {
    match o {
        Some(a) => seq![a],
        None => Seq::empty(),
    }
}

/// Naturality of Head: Option(f) ∘ head = head ∘ List(f).
pub proof fn law_head_natural<A, B, F: Fn(A) -> B>(f: F, l: Seq<A>, r: Seq<B>)
    requires
        list_lift(f, l, r),
    ensures
        option_lift(f, list_head(l), list_head(r)),
{
    if l.len() > 0 {
        assert(call_ensures(f, (l[0],), r[0]));
    }
}

/// Naturality of Option ⇒ List: List(f) ∘ η = η ∘ Option(f).
pub proof fn law_option_to_list_natural<A, B, F: Fn(A) -> B>(f: F, o: Option<A>, r: Option<B>)
    requires
        option_lift(f, o, r),
    ensures
        list_lift(f, option_to_list(o), option_to_list(r)),
{
}

/// Triangle identity of the free ⊣ forgetful adjunction: when the monoid's
/// product of a one-element list is that element, ε ∘ η = id.
pub proof fn law_adjunction_triangle<M, C: Fn(Vec<M>) -> M>(concat: C, x: M, l: Vec<M>, y: M)
    requires
        forall|v: Vec<M>, m: M| v@.len() == 1 && call_ensures(concat, (v,), m) ==> m == v@[0],
        l@ == seq![x],
        call_ensures(concat, (l,), y),
    ensures
        y == x,
{
}

/// The free-monoid ⊣ forgetful adjunction between sets and monoids.
pub struct FreeForgetfulAdjunction;

impl FreeForgetfulAdjunction {
    /// Unit η_A: A → Forget(Free(A)), a ↦ [a].
    pub fn unit<A>(&self) -> (h: impl Fn(A) -> Vec<A>)
        ensures
            forall|a: A| call_requires(h, (a,)),
            forall|a: A, r: Vec<A>| call_ensures(h, (a,), r) ==> r@ == seq![a],
    {
        |a: A| -> (r: Vec<A>)
            ensures
                r@ == seq![a],
            {
                let mut v = Vec::new();
                v.push(a);
                v
            }
    }

    /// Counit ε_M: Free(Forget(M)) → M, the monoid's product of a list.
    pub fn counit<M, C: Fn(Vec<M>) -> M>(&self, concat: C) -> (h: impl Fn(Vec<M>) -> M)
        requires
            forall|l: Vec<M>| call_requires(concat, (l,)),
        ensures
            forall|l: Vec<M>| call_requires(h, (l,)),
            forall|l: Vec<M>, m: M| call_ensures(h, (l,), m) ==> call_ensures(concat, (l,), m),
    {
        move |l: Vec<M>| -> (m: M)
            ensures
                call_ensures(concat, (l,), m),
            { concat(l) }
    }
}

/// The Yoneda correspondence Nat(Hom(-, A), F) ≅ F(A), for the functors
/// above.
#[verifier::reject_recursive_types(F)]
#[verifier::reject_recursive_types(A)]
pub struct Yoneda<F, A> {
    _functor: PhantomData<F>,
    _object: PhantomData<A>,
}

impl<A> Yoneda<IdentityFunctor, A> {
    /// From a transformation, the element of F(A) it determines.
    pub fn extract<N>(_nat: N, value: A) -> (r: A)
        ensures
            r == value,
    {
        value
    }

    /// From an element of F(A), the transformation it determines.
    pub fn embed(value: A) -> (r: A)
        ensures
            r == value,
    {
        value
    }
}

impl<A> Yoneda<OptionFunctor, A> {
    /// From a transformation, the element of F(A) it determines.
    pub fn extract<N>(_nat: N, value: Option<A>) -> (r: Option<A>)
        ensures
            r == value,
    {
        value
    }

    /// From an element of F(A), the transformation it determines.
    pub fn embed(value: Option<A>) -> (r: Option<A>)
        ensures
            r == value,
    {
        value
    }
}

impl<A> Yoneda<ListFunctor, A> {
    /// From a transformation, the element of F(A) it determines.
    pub fn extract<N>(_nat: N, value: Vec<A>) -> (r: Vec<A>)
        ensures
            r@ == value@,
    {
        value
    }

    /// From an element of F(A), the transformation it determines.
    pub fn embed(value: Vec<A>) -> (r: Vec<A>)
        ensures
            r@ == value@,
    {
        value
    }
}

/// Subobject classifier Ω of the topos of sets: truth values.
#[derive(Debug, Clone, Copy, PartialEq, Eq, Structural)]
pub enum Omega {
    True,
    False,
}

/// The truth value as a boolean.
pub open spec fn holds(o: Omega) -> bool {
    o is True
}

impl Omega {
    /// ⊤.
    pub fn top() -> (o: Self)
        ensures
            o == Omega::True,
    {
        Omega::True
    }

    /// ⊥.
    pub fn bottom() -> (o: Self)
        ensures
            o == Omega::False,
    {
        Omega::False
    }

    /// ¬.
    pub fn neg(self) -> (o: Self)
        ensures
            holds(o) == !holds(self),
    {
        match self {
            Omega::True => Omega::False,
            Omega::False => Omega::True,
        }
    }

    /// ∧.
    pub fn and(self, other: Self) -> (o: Self)
        ensures
            holds(o) == (holds(self) && holds(other)),
    {
        match (self, other) {
            (Omega::True, Omega::True) => Omega::True,
            _ => Omega::False,
        }
    }

    /// ∨.
    pub fn or(self, other: Self) -> (o: Self)
        ensures
            holds(o) == (holds(self) || holds(other)),
    {
        match (self, other) {
            (Omega::False, Omega::False) => Omega::False,
            _ => Omega::True,
        }
    }

    /// ⇒.
    pub fn implies(self, other: Self) -> (o: Self)
        ensures
            holds(o) == (holds(self) ==> holds(other)),
    {
        match (self, other) {
            (Omega::True, Omega::False) => Omega::False,
            _ => Omega::True,
        }
    }
}

/// Ω's logic is classical: a truth value is determined by whether it holds,
/// double negation is the identity, and implication is ¬x ∨ y.
pub proof fn law_omega_classical(x: Omega, y: Omega)
    ensures
        (holds(x) == holds(y)) ==> x == y,
        !holds(x) == (x == Omega::False),
{
}

/// Product A × B with its projections.
pub struct Product<A, B> {
    pub fst: A,
    pub snd: B,
}

impl<A, B> Product<A, B> {
    pub fn new(fst: A, snd: B) -> (p: Self)
        ensures
            p.fst == fst,
            p.snd == snd,
    {
        Product { fst, snd }
    }

    pub fn fst(&self) -> (a: &A)
        ensures
            *a == self.fst,
    {
        &self.fst
    }

    pub fn snd(&self) -> (b: &B)
        ensures
            *b == self.snd,
    {
        &self.snd
    }
}

/// Exponential object B^A: a morphism A → B held as a value.
#[verifier::reject_recursive_types(A)]
#[verifier::reject_recursive_types(B)]
pub struct Exponential<A, B, F: Fn(A) -> B> {
    func: F,
    _types: PhantomData<(A, B)>,
}

impl<A, B, F: Fn(A) -> B> Exponential<A, B, F> {
    pub closed spec fn morphism(&self) -> F {
        self.func
    }

    pub fn new(f: F) -> (e: Self)
        ensures
            e.morphism() == f,
    {
        Exponential { func: f, _types: PhantomData }
    }

    /// Evaluation ev: B^A × A → B.
    pub fn apply(&self, a: A) -> (b: B)
        requires
            call_requires(self.morphism(), (a,)),
        ensures
            call_ensures(self.morphism(), (a,), b),
    {
        (self.func)(a)
    }
}

/// Characteristic map χ: A → Ω of a subobject.
#[verifier::reject_recursive_types(A)]
pub struct Characteristic<A, F: Fn(A) -> Omega> {
    chi: F,
    _domain: PhantomData<A>,
}

impl<A, F: Fn(A) -> Omega> Characteristic<A, F> {
    pub closed spec fn map(&self) -> F {
        self.chi
    }

    pub fn new(f: F) -> (c: Self)
        ensures
            c.map() == f,
    {
        Characteristic { chi: f, _domain: PhantomData }
    }

    /// Whether `a` lies in the subobject.
    pub fn classify(&self, a: A) -> (o: Omega)
        requires
            call_requires(self.map(), (a,)),
        ensures
            call_ensures(self.map(), (a,), o),
    {
        (self.chi)(a)
    }
}

/// Terminal object 1.
#[derive(Debug, Clone, Copy, PartialEq, Eq, Structural)]
pub struct Unit;

/// Pullback of A → C ← B.
pub struct Pullback<A, B, C> {
    pub a: A,
    pub b: B,
    _c: PhantomData<C>,
}

impl<A, B, C> Pullback<A, B, C> {
    pub closed spec fn left_leg(&self) -> A {
        self.a
    }

    pub closed spec fn right_leg(&self) -> B {
        self.b
    }

    pub fn new(a: A, b: B) -> (p: Self)
        ensures
            p.left_leg() == a,
            p.right_leg() == b,
    {
        Pullback { a, b, _c: PhantomData }
    }
}

/// Pushout of A ← C → B.
pub enum Pushout<A, B, C> {
    Left(A),
    Right(B),
    _Both(PhantomData<C>),
}

} // verus!
